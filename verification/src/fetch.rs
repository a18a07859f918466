//! Byte sources of tiles and tilesets.
use crate::archive::Archive3tz;
use crate::text;
use crate::text::{chars_of, decimal_chars, number_text, string_of, trim_end, trim_start, trimmed};
use crate::tree::opt_text;
use crate::uri::{has_prefix, is_web, is_web_url, without_leading_slashes};
use crate::zip::{archive_message, ArchiveError, ArchiveFault};
use std::collections::HashMap;
use std::sync::Arc;
use vstd::prelude::*;

verus! {

/// Why a source gave no bytes.
#[derive(Debug)]
pub enum FetchError {
    Http(String),
    Io(String),
    OutOfRange { start: u64, len: u64, size: u64 },
    Aborted,
}

/// [`FetchError`] as a mathematical value.
pub enum FetchFault {
    Http(Seq<char>),
    Io(Seq<char>),
    OutOfRange { start: u64, len: u64, size: u64 },
    Aborted,
}

impl View for FetchError {
    type V = FetchFault;

    open spec fn view(&self) -> FetchFault {
        match *self {
            FetchError::Http(s) => FetchFault::Http(s@),
            FetchError::Io(s) => FetchFault::Io(s@),
            FetchError::OutOfRange { start, len, size } => FetchFault::OutOfRange {
                start,
                len,
                size,
            },
            FetchError::Aborted => FetchFault::Aborted,
        }
    }
}

impl Clone for FetchError {
    fn clone(&self) -> (r: Self)
        ensures
            r@ == self@,
    {
        match self {
            FetchError::Http(s) => FetchError::Http(s.clone()),
            FetchError::Io(s) => FetchError::Io(s.clone()),
            FetchError::OutOfRange { start, len, size } => FetchError::OutOfRange {
                start: *start,
                len: *len,
                size: *size,
            },
            FetchError::Aborted => FetchError::Aborted,
        }
    }
}

/// The text of a [`FetchFault`].
pub open spec fn fetch_message(f: FetchFault) -> Seq<char> {
    match f {
        FetchFault::Http(s) => "http error: "@ + s,
        FetchFault::Io(s) => "io error: "@ + s,
        FetchFault::OutOfRange { start, len, size } => "range out of bounds: "@
            + text::decimal_chars(start as nat) + "+"@ + text::decimal_chars(len as nat) + " > "@
            + text::decimal_chars(size as nat),
        FetchFault::Aborted => "request aborted (fell out of the cut)"@,
    }
}

impl FetchError {
    /// The error as one line of text.
    pub fn to_string(&self) -> (s: String)
        ensures
            s@ == fetch_message(self@),
    {
        match self {
            FetchError::Http(s) => text::join2("http error: ", s.as_str()),
            FetchError::Io(s) => text::join2("io error: ", s.as_str()),
            FetchError::OutOfRange { start, len, size } => {
                let mut out = String::from_str("range out of bounds: ");
                out.append(text::decimal(*start).as_str());
                out.append("+");
                out.append(text::decimal(*len).as_str());
                out.append(" > ");
                out.append(text::decimal(*size).as_str());
                out
            },
            FetchError::Aborted => String::from_str("request aborted (fell out of the cut)"),
        }
    }
}

/// A reply to a range read, as a mathematical value.
pub type Reply = Result<Seq<u8>, FetchFault>;

/// The reply that `r` stands for.
pub open spec fn reply_view(r: Result<Vec<u8>, FetchError>) -> Reply {
    match r {
        Ok(v) => Ok(v@),
        Err(e) => Err(e@),
    }
}

/// What a buffer answers to a read of `len` bytes at `start`.
pub open spec fn range_reply(buf: Seq<u8>, start: u64, len: u64) -> Reply {
    if start + len <= buf.len() {
        Ok(buf.subrange(start as int, start + len))
    } else {
        Err(FetchFault::OutOfRange { start, len, size: buf.len() as u64 })
    }
}

/// Copies `len` bytes at `start` out of a buffer.
pub fn read_range(buf: &[u8], start: u64, len: u64) -> (r: Result<Vec<u8>, FetchError>)
    ensures
        reply_view(r) == range_reply(buf@, start, len),
{
    let size: u64 = buf.len() as u64;
    match start.checked_add(len) {
        Some(end) => if end <= size {
            Ok(vstd::slice::slice_to_vec(&buf[start as usize..end as usize]))
        } else {
            Err(FetchError::OutOfRange { start, len, size })
        },
        None => Err(FetchError::OutOfRange { start, len, size }),
    }
}

/// Where bytes come from: a buffer in memory, a file, or a URL.
#[derive(Debug, Clone)]
pub enum ByteSource {
    Mem(Arc<Vec<u8>>),
    File(String),
    Http(String),
}

/// A request of an earlier frame, which may have been called off since.
#[derive(Clone, Copy, Debug, PartialEq, Eq, Structural)]
pub struct AbortHandle {
    id: usize,
}

/// The requests that are on their way, by generation, and which of them were
/// called off.
#[derive(Debug)]
pub struct AbortRegistry {
    flags: Vec<bool>,
    live: HashMap<u64, usize>,
}

/// [`AbortRegistry`] as a mathematical value.
pub struct Aborts {
    /// For each handle that was given out, whether it was called off.
    pub flags: Seq<bool>,
    /// The handle of each request that is on its way.
    pub live: Map<u64, usize>,
}

impl View for AbortRegistry {
    type V = Aborts;

    closed spec fn view(&self) -> Aborts {
        Aborts { flags: self.flags@, live: self.live@ }
    }
}

/// The registry with a new request on its way.
pub open spec fn registered(a: Aborts, generation: u64) -> Aborts {
    Aborts {
        flags: a.flags.push(false),
        live: a.live.insert(generation, a.flags.len() as usize),
    }
}

/// The registry after a request was called off.
pub open spec fn triggered(a: Aborts, generation: u64) -> Aborts {
    Aborts {
        flags: if a.live.contains_key(generation) {
            a.flags.update(a.live[generation] as int, true)
        } else {
            a.flags
        },
        live: a.live,
    }
}

/// The registry after a request is over.
pub open spec fn finished(a: Aborts, generation: u64) -> Aborts {
    Aborts { flags: a.flags, live: a.live.remove(generation) }
}

impl AbortHandle {
    /// The number of the handle.
    pub closed spec fn number(self) -> usize {
        self.id
    }
}

impl AbortRegistry {
    /// Only handles that were given out are on their way.
    pub open spec fn wf(self) -> bool {
        forall|g: u64| #[trigger]
            self@.live.contains_key(g) ==> self@.live[g] < self@.flags.len()
    }

    /// A registry with nothing on its way.
    pub fn new() -> (r: Self)
        ensures
            r.wf(),
            r@.flags == Seq::<bool>::empty(),
            r@.live == Map::<u64, usize>::empty(),
    {
        let r = AbortRegistry { flags: Vec::new(), live: HashMap::new() };
        assert(r@.live =~= Map::<u64, usize>::empty());
        r
    }

    /// A new handle, for the request of a generation.
    pub fn register_abort(&mut self, generation: u64) -> (h: AbortHandle)
        requires
            old(self).wf(),
        ensures
            final(self).wf(),
            h.number() == old(self)@.flags.len(),
            final(self)@ == registered(old(self)@, generation),
    {
        broadcast use vstd::std_specs::hash::group_hash_axioms;

        let id: usize = self.flags.len();
        let ghost had = self@;
        self.flags.push(false);
        self.live.insert(generation, id);
        assert(self@.live =~= had.live.insert(generation, id));
        AbortHandle { id }
    }

    /// Calls off the request of a generation; nothing happens where it is over.
    pub fn trigger_abort(&mut self, generation: u64)
        requires
            old(self).wf(),
        ensures
            final(self).wf(),
            final(self)@ == triggered(old(self)@, generation),
    {
        broadcast use vstd::std_specs::hash::group_hash_axioms;

        let found: Option<usize> = match self.live.get(&generation) {
            Some(id) => Some(*id),
            None => None,
        };
        if let Some(id) = found {
            assert(self@.live.contains_key(generation));
            self.flags.set(id, true);
        }
    }

    /// Forgets a request that is over.
    pub fn unregister_abort(&mut self, generation: u64)
        requires
            old(self).wf(),
        ensures
            final(self).wf(),
            final(self)@ == finished(old(self)@, generation),
    {
        broadcast use vstd::std_specs::hash::group_hash_axioms;

        let ghost had = self@;
        self.live.remove(&generation);
        assert(self@.live =~= had.live.remove(generation));
    }

    /// Whether a request was called off.
    pub fn is_triggered(&self, h: AbortHandle) -> (r: bool)
        ensures
            r == (h.number() < self@.flags.len() && self@.flags[h.number() as int]),
    {
        h.id < self.flags.len() && self.flags[h.id]
    }
}

/// Calling off a request after it is over changes nothing.
pub proof fn late_aborts_do_nothing(a: Aborts, generation: u64)
    ensures
        triggered(finished(a, generation), generation) == finished(a, generation),
{
}

/// A request that was called off while on its way is seen as called off, by its
/// own handle and by no other.
pub proof fn aborts_reach_their_request(a: Aborts, generation: u64, other: int)
    requires
        0 <= other < a.flags.len(),
        a.flags.len() < usize::MAX,
    ensures
        triggered(registered(a, generation), generation).flags[a.flags.len() as int],
        triggered(registered(a, generation), generation).flags[other] == a.flags[other],
        !registered(a, generation).flags[a.flags.len() as int],
{
}

/// Ends a request that was called off.
pub fn check_abort(aborted: bool) -> (r: Result<(), FetchError>)
    ensures
        match r {
            Ok(()) => !aborted,
            Err(e) => aborted && e@ == FetchFault::Aborted,
        },
{
    if aborted {
        Err(FetchError::Aborted)
    } else {
        Ok(())
    }
}

/// How bytes are read.
#[derive(Debug)]
pub enum ReadPlan {
    /// They are there.
    Bytes(Vec<u8>),
    Fail(FetchError),
    /// From a file: exactly `len` bytes at `start`.
    File { path: String, start: u64, len: u64 },
    /// From a URL, with this `Range` header.
    Http { url: String, range: String },
    /// All of a file.
    WholeFile { path: String },
    /// All of what a URL names.
    WholeUrl { url: String },
}

/// [`ReadPlan`] as a mathematical value.
pub enum Plan {
    Reply(Reply),
    File { path: Seq<char>, start: u64, len: u64 },
    Http { url: Seq<char>, range: Seq<char> },
    WholeFile { path: Seq<char> },
    WholeUrl { url: Seq<char> },
}

impl View for ReadPlan {
    type V = Plan;

    open spec fn view(&self) -> Plan {
        match *self {
            ReadPlan::Bytes(v) => Plan::Reply(Ok(v@)),
            ReadPlan::Fail(e) => Plan::Reply(Err(e@)),
            ReadPlan::File { path, start, len } => Plan::File { path: path@, start, len },
            ReadPlan::Http { url, range } => Plan::Http { url: url@, range: range@ },
            ReadPlan::WholeFile { path } => Plan::WholeFile { path: path@ },
            ReadPlan::WholeUrl { url } => Plan::WholeUrl { url: url@ },
        }
    }
}

/// The `Range` header for `len` bytes at `start`.
pub open spec fn range_header(start: u64, len: u64) -> Seq<char> {
    "bytes="@ + decimal_chars(start as nat) + "-"@ + decimal_chars((start + len - 1) as nat)
}

/// How `len` bytes at `start` are read.
pub open spec fn read_plan(s: ByteSource, start: u64, len: u64, aborted: bool) -> Plan {
    if aborted {
        Plan::Reply(Err(FetchFault::Aborted))
    } else {
        match s {
            ByteSource::Mem(buf) => Plan::Reply(range_reply(buf@, start, len)),
            ByteSource::File(path) => Plan::File { path: path@, start, len },
            ByteSource::Http(url) => Plan::Http { url: url@, range: range_header(start, len) },
        }
    }
}

/// How everything is read.
pub open spec fn read_all_plan(s: ByteSource, aborted: bool) -> Plan {
    if aborted {
        Plan::Reply(Err(FetchFault::Aborted))
    } else {
        match s {
            ByteSource::Mem(buf) => Plan::Reply(Ok(buf@)),
            ByteSource::File(path) => Plan::WholeFile { path: path@ },
            ByteSource::Http(url) => Plan::WholeUrl { url: url@ },
        }
    }
}

/// How the end of a source is read.
#[derive(Debug)]
pub enum SuffixPlan {
    /// The tail, and how long the source is.
    Tail(Vec<u8>, u64),
    /// From a file: ask for its size, and then for the end of it.
    File { path: String },
    /// From a URL, with this `Range` header.
    Http { url: String, range: String },
}

/// The last `n` bytes, or all where there are fewer.
pub open spec fn tail_of(b: Seq<u8>, n: u64) -> Seq<u8> {
    if n < b.len() {
        b.subrange(b.len() - n, b.len() as int)
    } else {
        b
    }
}

/// The last `n` bytes, or all where there are fewer.
pub fn tail_bytes(b: &[u8], n: u64) -> (r: Vec<u8>)
    ensures
        r@ == tail_of(b@, n),
{
    let len: usize = b.len();
    if n < len as u64 {
        vstd::slice::slice_to_vec(&b[len - n as usize..len])
    } else {
        vstd::slice::slice_to_vec(b)
    }
}

fn range_text(start: u64, len: u64) -> (r: String)
    requires
        1 <= start + len <= u64::MAX,
    ensures
        r@ == range_header(start, len),
{
    let mut r = text::join3("bytes=", text::decimal(start).as_str(), "-");
    r.append(text::decimal(start + len - 1).as_str());
    r
}

impl ByteSource {
    /// How `len` bytes at `start` are read. A buffer in memory answers at once.
    /// What is asked of a URL must have a last byte that can be named.
    pub fn read(&self, start: u64, len: u64) -> (p: ReadPlan)
        requires
            self is Http ==> 1 <= start + len <= u64::MAX,
        ensures
            p@ == read_plan(*self, start, len, false),
    {
        self.read_abortable(start, len, false)
    }

    /// [`ByteSource::read`], for a request that may have been called off.
    pub fn read_abortable(&self, start: u64, len: u64, aborted: bool) -> (p: ReadPlan)
        requires
            self is Http && !aborted ==> 1 <= start + len <= u64::MAX,
        ensures
            p@ == read_plan(*self, start, len, aborted),
    {
        if aborted {
            return ReadPlan::Fail(FetchError::Aborted);
        }
        match self {
            ByteSource::Mem(buf) => match read_range(buf.as_slice(), start, len) {
                Ok(v) => ReadPlan::Bytes(v),
                Err(e) => ReadPlan::Fail(e),
            },
            ByteSource::File(path) => ReadPlan::File {
                path: String::from_str(path.as_str()),
                start,
                len,
            },
            ByteSource::Http(url) => ReadPlan::Http {
                url: String::from_str(url.as_str()),
                range: range_text(start, len),
            },
        }
    }

    /// How everything is read.
    pub fn read_all(&self) -> (p: ReadPlan)
        ensures
            p@ == read_all_plan(*self, false),
    {
        self.read_all_abortable(false)
    }

    /// [`ByteSource::read_all`], for a request that may have been called off.
    pub fn read_all_abortable(&self, aborted: bool) -> (p: ReadPlan)
        ensures
            p@ == read_all_plan(*self, aborted),
    {
        if aborted {
            return ReadPlan::Fail(FetchError::Aborted);
        }
        match self {
            ByteSource::Mem(buf) => ReadPlan::Bytes(
                vstd::slice::slice_to_vec(buf.as_slice()),
            ),
            ByteSource::File(path) => ReadPlan::WholeFile {
                path: String::from_str(path.as_str()),
            },
            ByteSource::Http(url) => ReadPlan::WholeUrl { url: String::from_str(url.as_str()) },
        }
    }

    /// How the last `n` bytes are read.
    pub fn read_suffix(&self, n: u64) -> (p: SuffixPlan)
        ensures
            match *self {
                ByteSource::Mem(buf) => p matches SuffixPlan::Tail(v, total) && v@ == tail_of(
                    buf@,
                    n,
                ) && total == buf@.len(),
                ByteSource::File(path) => p matches SuffixPlan::File { path: q } && q@ == path@,
                ByteSource::Http(url) => p matches SuffixPlan::Http { url: u, range } && u@ == url@
                    && range@ == "bytes=-"@ + decimal_chars(n as nat),
            },
    {
        match self {
            ByteSource::Mem(buf) => SuffixPlan::Tail(
                tail_bytes(buf.as_slice(), n),
                buf.len() as u64,
            ),
            ByteSource::File(path) => SuffixPlan::File { path: String::from_str(path.as_str()) },
            ByteSource::Http(url) => SuffixPlan::Http {
                url: String::from_str(url.as_str()),
                range: text::join2("bytes=-", text::decimal(n).as_str()),
            },
        }
    }
}

/// The message for a status that is no answer.
pub open spec fn status_message(status: u16, what: Seq<char>, url: Seq<char>) -> Seq<char> {
    "status "@ + decimal_chars(status as nat) + " for "@ + what + " "@ + url
}

fn status_error(status: u16, what: &str, url: &str) -> (e: FetchError)
    ensures
        e@ == FetchFault::Http(status_message(status, what@, url@)),
{
    let mut m = text::join3("status ", text::decimal(status as u64).as_str(), " for ");
    m.append(what);
    m.append(" ");
    m.append(url);
    FetchError::Http(m)
}

/// What a reply to a ranged request is worth: a server that does not know
/// ranges sends everything, and the part is cut out.
pub open spec fn ranged_reply(url: Seq<char>, status: u16, body: Seq<u8>, start: u64, len: u64) -> Reply {
    if status == 206 {
        Ok(body)
    } else if status == 200 {
        range_reply(body, start, len)
    } else {
        Err(FetchFault::Http(status_message(status, "ranged GET"@, url)))
    }
}

/// What a reply to a ranged request is worth.
pub fn take_ranged_reply(url: &str, status: u16, body: Vec<u8>, start: u64, len: u64) -> (r: Result<
    Vec<u8>,
    FetchError,
>)
    ensures
        reply_view(r) == ranged_reply(url@, status, body@, start, len),
{
    if status == 206 {
        Ok(body)
    } else if status == 200 {
        read_range(body.as_slice(), start, len)
    } else {
        Err(status_error(status, "ranged GET", url))
    }
}

/// The range to ask for where a server does not know suffix ranges but says how
/// long its content is.
pub open spec fn explicit_tail(status: u16, content_length: Option<u64>, n: u64) -> Option<
    (u64, u64, u64),
> {
    match content_length {
        Some(total) => if status == 200 && total > 0 {
            let k = if n < total {
                n
            } else {
                total
            };
            Some(((total - k) as u64, k, total))
        } else {
            None
        },
        None => None,
    }
}

/// The range to ask for instead: where it starts, how long it is, and how long
/// the content is. None where the body that came is the answer.
pub fn suffix_retry(status: u16, content_length: Option<u64>, n: u64) -> (r: Option<
    (u64, u64, u64),
>)
    ensures
        r == explicit_tail(status, content_length, n),
{
    match content_length {
        Some(total) => if status == 200 && total > 0 {
            let k: u64 = if n < total {
                n
            } else {
                total
            };
            Some((total - k, k, total))
        } else {
            None
        },
        None => None,
    }
}

/// The total in a `Content-Range` header.
pub open spec fn content_range_total(value: Seq<char>) -> Option<u64> {
    let v = trimmed(value);
    if !has_prefix(v, "bytes"@) {
        None
    } else {
        let rest = trimmed(v.subrange("bytes"@.len() as int, v.len() as int));
        match crate::uri::last_slash(rest, rest.len() as int) {
            Some(k) => number_text(trimmed(rest.subrange(k + 1, rest.len() as int))),
            None => None,
        }
    }
}

/// The total in a `Content-Range: bytes <start>-<end>/<total>` header.
pub fn parse_content_range_total(value: &str) -> (r: Option<u64>)
    ensures
        r == content_range_total(value@),
{
    let all = chars_of(value);
    assert(all@.subrange(0, all@.len() as int) =~= value@);
    let (lo, hi) = text::trim_range(&all, 0, all.len());
    let v = chars_of(string_of(&all, lo, hi).as_str());
    assert(v@ == trimmed(value@));
    if !crate::uri::starts_with(&v, "bytes") {
        return None;
    }
    proof {
        reveal_strlit("bytes");
    }
    let (lo, hi) = text::trim_range(&v, 5, v.len());
    let rest = chars_of(string_of(&v, lo, hi).as_str());
    let ghost want = trimmed(v@.subrange(5, v@.len() as int));
    assert(rest@ == want);
    let n: usize = rest.len();
    let mut k: usize = n;
    while k > 0
        invariant
            k <= n,
            n == rest@.len(),
            rest@ == want,
            content_range_total(value@) == match crate::uri::last_slash(want, k as int) {
                Some(j) => number_text(trimmed(want.subrange(j + 1, want.len() as int))),
                None => None,
            },
        decreases k,
    {
        if rest[k - 1] == '/' {
            let (a, b) = text::trim_range(&rest, k, n);
            return text::parse_number(&rest, a, b);
        }
        k = k - 1;
    }
    None
}

/// A tail and the length of what it is the end of.
pub type TailReply = Result<(Seq<u8>, u64), FetchFault>;

/// The tail reply that `r` stands for.
pub open spec fn tail_view(r: Result<(Vec<u8>, u64), FetchError>) -> TailReply {
    match r {
        Ok((v, total)) => Ok((v@, total)),
        Err(e) => Err(e@),
    }
}

/// What a reply to a suffix request is worth.
pub open spec fn suffix_reply(
    url: Seq<char>,
    status: u16,
    content_range: Option<Seq<char>>,
    body: Seq<u8>,
    n: u64,
) -> TailReply {
    if status == 206 {
        match content_range {
            Some(v) => match content_range_total(v) {
                Some(total) => Ok((body, total)),
                None => Err(FetchFault::Http("206 without Content-Range for "@ + url)),
            },
            None => Err(FetchFault::Http("206 without Content-Range for "@ + url)),
        }
    } else if status == 200 {
        Ok((tail_of(body, n), body.len() as u64))
    } else {
        Err(FetchFault::Http(status_message(status, "suffix GET"@, url)))
    }
}

/// What a reply to a suffix request is worth.
pub fn take_suffix_reply(
    url: &str,
    status: u16,
    content_range: Option<String>,
    body: Vec<u8>,
    n: u64,
) -> (r: Result<(Vec<u8>, u64), FetchError>)
    ensures
        tail_view(r) == suffix_reply(url@, status, opt_text(content_range), body@, n),
{
    if status == 206 {
        let total = match &content_range {
            Some(v) => parse_content_range_total(v.as_str()),
            None => None,
        };
        match total {
            Some(total) => Ok((body, total)),
            None => Err(FetchError::Http(text::join2("206 without Content-Range for ", url))),
        }
    } else if status == 200 {
        let total: u64 = body.len() as u64;
        Ok((tail_bytes(body.as_slice(), n), total))
    } else {
        Err(status_error(status, "suffix GET", url))
    }
}

/// Where the loose files of a tileset lie.
#[derive(Debug, Clone)]
pub enum ExplodedBase {
    Dir(String),
    Url(String),
}

/// A path inside a directory.
pub open spec fn dir_join(dir: Seq<char>, rel: Seq<char>) -> Seq<char> {
    if dir.len() == 0 || dir.last() == '/' {
        dir + rel
    } else {
        dir + "/"@ + rel
    }
}

impl ExplodedBase {
    /// The file that a name stands for.
    pub fn join(&self, rel: &str) -> (r: ByteSource)
        ensures
            match *self {
                ExplodedBase::Dir(dir) => r matches ByteSource::File(p) && p@ == dir_join(
                    dir@,
                    trim_start(rel@, '/'),
                ),
                ExplodedBase::Url(base) => r matches ByteSource::Http(u) && u@ == trim_end(
                    base@,
                    '/',
                ) + "/"@ + trim_start(rel@, '/'),
            },
    {
        let name = without_leading_slashes(rel);
        match self {
            ExplodedBase::Dir(dir) => {
                let v = chars_of(dir.as_str());
                let n: usize = v.len();
                if n == 0 || v[n - 1] == '/' {
                    ByteSource::File(text::join2(dir.as_str(), name.as_str()))
                } else {
                    ByteSource::File(text::join3(dir.as_str(), "/", name.as_str()))
                }
            },
            ExplodedBase::Url(base) => {
                let base = without_trailing_slashes(base.as_str());
                ByteSource::Http(text::join3(base.as_str(), "/", name.as_str()))
            },
        }
    }
}

/// A name without the slashes at its end.
pub fn without_trailing_slashes(s: &str) -> (r: String)
    ensures
        r@ == trim_end(s@, '/'),
{
    let v = chars_of(s);
    let at: usize = text::run_start(&v, v.len(), '/');
    assert(v@.subrange(0, v@.len() as int) =~= s@);
    string_of(&v, 0, at)
}

/// Where the entries of a tileset come from.
#[derive(Clone)]
pub enum TilesetSource {
    Exploded(ExplodedBase),
    Archive(Arc<Archive3tz>),
}

/// Where a query starts, from `i` on.
pub open spec fn query_start(s: Seq<char>, i: int) -> int
    decreases s.len() - i,
{
    if i >= s.len() || s[i] == '?' {
        i
    } else {
        query_start(s, i + 1)
    }
}

/// The URL of a source, where it has one.
pub open spec fn url_of(s: TilesetSource) -> Option<Seq<char>> {
    match s {
        TilesetSource::Archive(ar) => match ar.from() {
            ByteSource::Http(url) => Some(url@),
            _ => None,
        },
        TilesetSource::Exploded(ExplodedBase::Url(base)) => Some(base@),
        TilesetSource::Exploded(ExplodedBase::Dir(_)) => None,
    }
}

/// The key of an entry under a URL.
pub open spec fn key_under(url: Seq<char>, uri: Seq<char>) -> Seq<char> {
    trim_end(url.take(query_start(url, 0)), '/') + "/"@ + trim_start(uri, '/')
}

/// The key of an entry: the URL of the source without its query, and the name
/// of the entry. Sources that are not on the web have none.
pub open spec fn cache_key(s: TilesetSource, uri: Seq<char>) -> Option<Seq<char>> {
    match url_of(s) {
        Some(url) => if is_web(url) {
            Some(key_under(url, uri))
        } else {
            None
        },
        None => None,
    }
}

/// The key of an entry does not depend on the query of the URL: a signature
/// that is renewed finds what was stored before.
pub proof fn keys_outlive_signatures(url: Seq<char>, first: Seq<char>, second: Seq<char>, uri: Seq<char>)
    ensures
        key_under(url + seq!['?'] + first, uri) == key_under(url + seq!['?'] + second, uri),
{
    let a = url + seq!['?'] + first;
    let b = url + seq!['?'] + second;
    assert(a.take(url.len() as int) =~= url);
    assert(b.take(url.len() as int) =~= url);
    lemma_query_start(url, a, 0);
    lemma_query_start(url, b, 0);
    assert(a.take(query_start(a, 0)) =~= b.take(query_start(b, 0)));
}

proof fn lemma_query_start(s: Seq<char>, w: Seq<char>, i: int)
    requires
        0 <= i <= s.len() < w.len(),
        w.take(s.len() as int) == s,
        w[s.len() as int] == '?',
    ensures
        i <= query_start(w, i) <= s.len(),
        query_start(w, i) == query_start(s, i),
    decreases s.len() - i,
{
    if i < s.len() {
        assert(w.take(s.len() as int)[i] == s[i]);
        lemma_query_start(s, w, i + 1);
    }
}

/// What an entry of an archive that could not be read is reported as.
pub open spec fn entry_fault(uri: Seq<char>, f: ArchiveFault) -> FetchFault {
    if f == ArchiveFault::Fetch(FetchFault::Aborted) {
        FetchFault::Aborted
    } else {
        FetchFault::Io("3tz entry "@ + uri + ": "@ + archive_message(f))
    }
}

impl TilesetSource {
    /// The key of an entry.
    pub fn entry_cache_key(&self, uri: &str) -> (r: Option<String>)
        ensures
            opt_text(r) == cache_key(*self, uri@),
    {
        let base: &String = match self {
            TilesetSource::Archive(ar) => match ar.source() {
                ByteSource::Http(url) => url,
                _ => {
                    return None;
                },
            },
            TilesetSource::Exploded(ExplodedBase::Url(base)) => base,
            TilesetSource::Exploded(ExplodedBase::Dir(_)) => {
                return None;
            },
        };
        if !is_web_url(base.as_str()) {
            return None;
        }
        let v = chars_of(base.as_str());
        let mut at: usize = 0;
        while at < v.len() && v[at] != '?'
            invariant
                at <= v@.len(),
                query_start(v@, 0) == query_start(v@, at as int),
            decreases v@.len() - at,
        {
            at = at + 1;
        }
        let lo: usize = text::run_start(&v, at, '/');
        assert(v@.subrange(0, at as int) =~= v@.take(at as int));
        let stripped = string_of(&v, 0, lo);
        Some(text::join3(stripped.as_str(), "/", without_leading_slashes(uri).as_str()))
    }
}

/// What an entry of an archive that could not be read is reported as.
pub fn entry_error(uri: &str, e: ArchiveError) -> (r: FetchError)
    ensures
        r@ == entry_fault(uri@, e@),
{
    match &e {
        ArchiveError::Fetch(FetchError::Aborted) => FetchError::Aborted,
        _ => {
            let mut m = text::join3("3tz entry ", uri, ": ");
            m.append(e.to_string().as_str());
            FetchError::Io(m)
        },
    }
}

/// Where the bytes of a name come from. In a browser (`web`), names that are no
/// URLs are relative to the page.
pub open spec fn source_for(spec: Seq<char>, web: bool, s: ByteSource) -> bool {
    if is_web(spec) || web {
        s matches ByteSource::Http(u) && u@ == spec
    } else {
        s matches ByteSource::File(p) && p@ == spec
    }
}

/// Where the bytes of a name come from.
pub fn byte_source_for(spec: &str, web: bool) -> (s: ByteSource)
    ensures
        source_for(spec@, web, s),
{
    if is_web_url(spec) || web {
        ByteSource::Http(String::from_str(spec))
    } else {
        ByteSource::File(String::from_str(spec))
    }
}

/// How a tileset is opened.
pub enum OpenPlan {
    /// As an archive.
    Archive(ByteSource),
    /// As loose files, with `tileset.json` among them.
    Exploded(ExplodedBase),
}

/// How a tileset is opened: an archive by its name, all else as loose files.
pub fn plan_open(spec: &str, web: bool) -> (p: OpenPlan)
    ensures
        if crate::uri::names_archive(spec@) {
            p matches OpenPlan::Archive(s) && source_for(spec@, web, s)
        } else {
            let base = crate::uri::base_of(spec@);
            if is_web(base) || web {
                p matches OpenPlan::Exploded(ExplodedBase::Url(u)) && u@ == base
            } else {
                p matches OpenPlan::Exploded(ExplodedBase::Dir(d)) && d@ == base
            }
        },
{
    if crate::uri::is_archive_spec(spec) {
        OpenPlan::Archive(byte_source_for(spec, web))
    } else {
        let base = crate::uri::exploded_base(spec);
        if is_web_url(base.as_str()) || web {
            OpenPlan::Exploded(ExplodedBase::Url(base))
        } else {
            OpenPlan::Exploded(ExplodedBase::Dir(base))
        }
    }
}

} // verus!
