//! Reading a `.3tz` archive by byte ranges.
//!
//! Opening and reading an entry each run as a machine: it asks for a range of
//! bytes, is handed the reply, and asks again or is done. Whoever drives it does
//! the input and output.
use crate::bytes::{le64, le_at};
use crate::fetch;
use crate::fetch::{ByteSource, FetchError, Reply};
use crate::index3tz::{
    hits, index_of, normalize_path, normalized, offsets_of, path_hash, Index3tz, IndexRecord,
};
use crate::sorting;
use crate::sorting::{stable_order, Ranked};
use crate::text;
use crate::zip::{
    corrupt, data_view, decode_entry, decoded, eocd_of, find_eocd, find_index_cd_entry, header_of,
    index_cd_of, index_name, index_name_bytes, parse_local_header, sig_at, unsupported,
    ArchiveError, ArchiveFault, Header, IndexCdEntry, LocalHeader,
};
use vstd::prelude::*;

verus! {

/// How much of the end of an archive is read to open it.
pub const OPEN_TAIL_BYTES: u64 = 524288;

/// How much of the start of an archive is read along with the end.
pub const OPEN_HEAD_BYTES: u64 = 524288;

/// How much is read at an entry of unknown length.
pub const LFH_OVERFETCH: u64 = 4096;

/// The longest entry that is read in one request.
pub const MAX_ENTRY_SPAN: u64 = 67108864;

/// An archive as a mathematical value.
pub struct Model {
    pub size: u64,
    /// The records of the index.
    pub records: Seq<IndexRecord>,
    /// The first bytes of the archive.
    pub head: Seq<u8>,
    /// Where each entry starts, the index among them.
    pub offsets: Seq<u64>,
}

/// `a - b`, not below zero.
pub open spec fn monus(a: u64, b: u64) -> u64 {
    if a < b {
        0
    } else {
        (a - b) as u64
    }
}

/// `a + b`, not above the largest number.
pub open spec fn capped(a: u64, b: u64) -> u64 {
    if a + b > u64::MAX {
        u64::MAX
    } else {
        (a + b) as u64
    }
}

/// The length of a read that never asks past the end of the archive.
pub open spec fn clamped(start: u64, len: u64, size: u64) -> u64 {
    if len <= monus(size, start) {
        len
    } else {
        monus(size, start)
    }
}

fn clamp(start: u64, len: u64, size: u64) -> (r: u64)
    ensures
        r == clamped(start, len, size),
{
    let room: u64 = size.saturating_sub(start);
    if len <= room {
        len
    } else {
        room
    }
}

/// `next` is the first of `offsets` past `offset`.
pub open spec fn is_next(offsets: Seq<u64>, offset: u64, next: u64) -> bool {
    &&& offsets.contains(next)
    &&& next > offset
    &&& forall|o: u64| #[trigger] offsets.contains(o) && o > offset ==> next <= o
}

/// The distance from the entry at `offset` to the next one: none when no entry
/// starts there, there is no next entry, or it is too far away.
pub open spec fn span(offsets: Seq<u64>, offset: u64) -> Option<u64> {
    if offsets.contains(offset) && exists|n: u64| is_next(offsets, offset, n) {
        let next = choose|n: u64| is_next(offsets, offset, n);
        if next - offset <= MAX_ENTRY_SPAN {
            Some((next - offset) as u64)
        } else {
            None
        }
    } else {
        None
    }
}

/// What an entry's read waits for.
#[derive(Debug, Clone, Copy)]
pub enum Phase {
    /// The header and the data in one window of known length.
    Span,
    /// The data, after a window that was too short.
    SpanData { method: u16, comp_size: u64 },
    /// The header in a window of fixed length.
    Window,
    /// The data, after that window.
    WindowData { method: u16, comp_size: u64 },
}

/// A read of one entry that waits for bytes.
#[derive(Debug)]
pub struct EntryRead {
    /// The normalized path.
    pub name: String,
    /// Where entries of that path may start.
    pub candidates: Vec<u64>,
    /// The candidate that is being read.
    pub at: usize,
    pub phase: Phase,
}

/// [`EntryRead`] as a mathematical value.
pub struct EntryState {
    pub name: Seq<char>,
    pub candidates: Seq<u64>,
    pub at: int,
    pub phase: Phase,
}

impl View for EntryRead {
    type V = EntryState;

    open spec fn view(&self) -> EntryState {
        EntryState {
            name: self.name@,
            candidates: self.candidates@,
            at: self.at as int,
            phase: self.phase,
        }
    }
}

/// What comes next in reading an entry.
#[derive(Debug)]
pub enum EntryNext {
    /// `len` bytes at `start` are needed; `read` goes on with them.
    Need { start: u64, len: u64, read: EntryRead },
    Done(Result<Vec<u8>, ArchiveError>),
}

/// [`EntryNext`] as a mathematical value.
pub enum EntryOutcome {
    Need { start: u64, len: u64, state: EntryState },
    Done(Result<Seq<u8>, ArchiveFault>),
}

impl View for EntryNext {
    type V = EntryOutcome;

    open spec fn view(&self) -> EntryOutcome {
        match *self {
            EntryNext::Need { start, len, read } => EntryOutcome::Need { start, len, state: read@ },
            EntryNext::Done(r) => EntryOutcome::Done(data_view(r)),
        }
    }
}

/// The data of an entry whose header opens `window`, where the window holds it.
pub open spec fn held(h: Header, window: Seq<u8>) -> Option<Seq<u8>> {
    match h.comp_size {
        Some(c) => if h.data_rel + c <= window.len() {
            Some(window.subrange(h.data_rel as int, h.data_rel + c))
        } else {
            None
        },
        None => None,
    }
}

fn take_held(h: &LocalHeader, window: &[u8]) -> (r: Option<Vec<u8>>)
    requires
        h.data_rel <= 30 + 2 * 0xFFFF,
    ensures
        match r {
            Some(d) => held(h@, window@) == Some(d@),
            None => held(h@, window@) is None,
        },
{
    let n: usize = window.len();
    match h.comp_size {
        Some(c) => {
            if h.data_rel <= n as u64 && c <= n as u64 - h.data_rel {
                let start: usize = h.data_rel as usize;
                let end: usize = start + c as usize;
                Some(vstd::slice::slice_to_vec(&window[start..end]))
            } else {
                None
            }
        },
        None => None,
    }
}

/// What the head of the archive says of an entry.
pub enum HeadTry {
    /// It does not hold the entry.
    Miss,
    /// The entry there has another name.
    Skip,
    Hit { method: u16, data: Seq<u8> },
}

/// What the head says of the entry at `offset`, when its name should be `name`.
pub open spec fn from_head(head: Seq<u8>, offset: u64, name: Seq<u8>) -> HeadTry {
    if offset < head.len() {
        let window = head.subrange(offset as int, head.len() as int);
        match header_of(window) {
            Ok(h) => if h.name != name {
                HeadTry::Skip
            } else {
                match held(h, window) {
                    Some(data) => HeadTry::Hit { method: h.method, data },
                    None => HeadTry::Miss,
                }
            },
            Err(_) => HeadTry::Miss,
        }
    } else {
        HeadTry::Miss
    }
}

/// Asks for a window of fixed length at candidate `i`.
pub open spec fn ask_window(ar: Model, name: Seq<char>, candidates: Seq<u64>, i: int) -> EntryOutcome {
    EntryOutcome::Need {
        start: candidates[i],
        len: clamped(candidates[i], LFH_OVERFETCH, ar.size),
        state: EntryState { name, candidates, at: i, phase: Phase::Window },
    }
}

/// Asks for candidate `i`, in one window where its length is known.
pub open spec fn ask_entry(ar: Model, name: Seq<char>, candidates: Seq<u64>, i: int) -> EntryOutcome {
    match span(ar.offsets, candidates[i]) {
        Some(len) => EntryOutcome::Need {
            start: candidates[i],
            len: clamped(candidates[i], len, ar.size),
            state: EntryState { name, candidates, at: i, phase: Phase::Span },
        },
        None => ask_window(ar, name, candidates, i),
    }
}

/// Goes on at candidate `i`: those that the head holds need no read.
pub open spec fn visit(ar: Model, name: Seq<char>, candidates: Seq<u64>, i: int) -> EntryOutcome
    decreases candidates.len() - i,
{
    if i >= candidates.len() {
        EntryOutcome::Done(Err(ArchiveFault::EntryNotFound(name)))
    } else {
        match from_head(ar.head, candidates[i], vstd::utf8::encode_utf8(name)) {
            HeadTry::Skip => visit(ar, name, candidates, i + 1),
            HeadTry::Hit { method, data } => EntryOutcome::Done(decoded(method, data)),
            HeadTry::Miss => ask_entry(ar, name, candidates, i),
        }
    }
}

/// Where the data of candidate `i` starts.
pub open spec fn data_start(candidates: Seq<u64>, i: int, h: Header) -> u64 {
    capped(candidates[i], h.data_rel)
}

/// The message for data that came short.
pub open spec fn short_read(got: nat, want: u64) -> ArchiveFault {
    ArchiveFault::Corrupt(
        "entry data short read: "@ + text::decimal_chars(got) + " of "@ + text::decimal_chars(
            want as nat,
        ) + " bytes"@,
    )
}

/// The message for an entry in streaming mode.
pub open spec fn streamed() -> ArchiveFault {
    ArchiveFault::Unsupported(
        "3tz entry written in zip streaming mode (sizes only in data descriptor)"@,
    )
}

/// What comes after a reply.
pub open spec fn resumed(ar: Model, st: EntryState, reply: Reply) -> EntryOutcome {
    let name = vstd::utf8::encode_utf8(st.name);
    match reply {
        Err(f) => EntryOutcome::Done(Err(ArchiveFault::Fetch(f))),
        Ok(w) => match st.phase {
            Phase::Span => match header_of(w) {
                Err(e) => EntryOutcome::Done(Err(e)),
                Ok(h) => if h.name != name {
                    visit(ar, st.name, st.candidates, st.at + 1)
                } else {
                    match (held(h, w), h.comp_size) {
                        (Some(d), _) => EntryOutcome::Done(decoded(h.method, d)),
                        (None, Some(c)) => {
                            let start = data_start(st.candidates, st.at, h);
                            EntryOutcome::Need {
                                start,
                                len: clamped(start, c, ar.size),
                                state: EntryState {
                                    phase: Phase::SpanData { method: h.method, comp_size: c },
                                    ..st
                                },
                            }
                        },
                        (None, None) => ask_window(ar, st.name, st.candidates, st.at),
                    }
                },
            },
            Phase::SpanData { method, comp_size } => if w.len() == comp_size {
                EntryOutcome::Done(decoded(method, w))
            } else {
                ask_window(ar, st.name, st.candidates, st.at)
            },
            Phase::Window => match header_of(w) {
                Err(e) => EntryOutcome::Done(Err(e)),
                Ok(h) => if h.name != name {
                    visit(ar, st.name, st.candidates, st.at + 1)
                } else {
                    match (held(h, w), h.comp_size) {
                        (Some(d), _) => EntryOutcome::Done(decoded(h.method, d)),
                        (None, Some(c)) => {
                            let start = data_start(st.candidates, st.at, h);
                            EntryOutcome::Need {
                                start,
                                len: clamped(start, c, ar.size),
                                state: EntryState {
                                    phase: Phase::WindowData { method: h.method, comp_size: c },
                                    ..st
                                },
                            }
                        },
                        (None, None) => EntryOutcome::Done(Err(streamed())),
                    }
                },
            },
            Phase::WindowData { method, comp_size } => if w.len() == comp_size {
                EntryOutcome::Done(decoded(method, w))
            } else {
                EntryOutcome::Done(Err(short_read(w.len(), comp_size)))
            },
        },
    }
}

/// What comes first in reading the entry at `path`.
pub open spec fn begun(ar: Model, path: Seq<char>) -> EntryOutcome {
    let name = normalized(path);
    visit(ar, name, hits(ar.records, path_hash(name)), 0)
}

/// What opening an archive waits for.
#[derive(Debug, Clone, Copy)]
pub enum OpenPhase {
    /// The ZIP64 record.
    Zip64 { rec_abs: u64 },
    /// The end of the central directory.
    Directory { scan_start: u64, cd_end_abs: u64 },
    /// The header of the index entry.
    Index { entry: IndexCdEntry },
    /// The data of the index entry.
    IndexData { entry: IndexCdEntry, comp_size: u64 },
}

/// What opening an archive yields: the index, and where each entry starts.
#[derive(Debug)]
pub struct Opened {
    pub index: Index3tz,
    pub offsets: Vec<u64>,
}

/// What comes next in opening an archive.
#[derive(Debug)]
pub enum OpenNext {
    /// `len` bytes at `start` are needed for `phase`.
    Need { start: u64, len: u64, phase: OpenPhase },
    Done(Result<Opened, ArchiveError>),
}

/// [`OpenNext`] as a mathematical value.
pub enum OpenOutcome {
    Need { start: u64, len: u64, phase: OpenPhase },
    /// The records of the index, and where each entry starts.
    Done(Result<(Seq<IndexRecord>, Seq<u64>), ArchiveFault>),
}

impl View for OpenNext {
    type V = OpenOutcome;

    open spec fn view(&self) -> OpenOutcome {
        match *self {
            OpenNext::Need { start, len, phase } => OpenOutcome::Need { start, len, phase },
            OpenNext::Done(r) => OpenOutcome::Done(
                match r {
                    Ok(o) => Ok((o.index.records(), o.offsets@)),
                    Err(e) => Err(e@),
                },
            ),
        }
    }
}

/// The archive's index, when its payload is `data`.
pub open spec fn opened(entry: IndexCdEntry, data: Seq<u8>) -> OpenOutcome {
    if data.len() != entry.comp_size {
        OpenOutcome::Done(
            Err(
                ArchiveFault::Corrupt(
                    "index payload size "@ + text::decimal_chars(data.len())
                        + " != central directory size "@ + text::decimal_chars(
                        entry.comp_size as nat,
                    ),
                ),
            ),
        )
    } else {
        OpenOutcome::Done(
            match index_of(data) {
                Ok(records) => Ok(
                    (records, stable_order(offsets_of(records).push(entry.local_offset))),
                ),
                Err(e) => Err(e),
            },
        )
    }
}

/// Asks for the header of the index entry.
pub open spec fn ask_index(size: u64, entry: IndexCdEntry) -> OpenOutcome {
    OpenOutcome::Need {
        start: entry.local_offset,
        len: clamped(entry.local_offset, LFH_OVERFETCH, size),
        phase: OpenPhase::Index { entry },
    }
}

/// Goes on with what the central directory says of the index.
pub open spec fn index_found(tail: Seq<u8>, size: u64, r: Result<IndexCdEntry, ArchiveFault>) -> OpenOutcome {
    let tail_abs = size - tail.len();
    match r {
        Err(e) => OpenOutcome::Done(Err(e)),
        Ok(entry) => {
            let at = entry.local_offset - tail_abs;
            let from = if at <= tail.len() {
                at
            } else {
                tail.len() as int
            };
            if entry.method != 0 {
                OpenOutcome::Done(
                    Err(ArchiveFault::Corrupt("@3dtilesIndex1@ must be stored uncompressed"@)),
                )
            } else if at < 0 {
                ask_index(size, entry)
            } else {
                match header_of(tail.subrange(from, tail.len() as int)) {
                    Err(e) => OpenOutcome::Done(Err(e)),
                    Ok(h) => if h.name == index_name() && at + h.data_rel + entry.comp_size
                        <= tail.len() {
                        opened(
                            entry,
                            tail.subrange(at + h.data_rel, at + h.data_rel + entry.comp_size),
                        )
                    } else {
                        ask_index(size, entry)
                    },
                }
            }
        },
    }
}

/// Goes on with the bounds of the central directory.
pub open spec fn bounds_found(tail: Seq<u8>, size: u64, cd_offset: u64, cd_end_abs: u64) -> OpenOutcome {
    let tail_abs = (size - tail.len()) as u64;
    if cd_offset >= tail_abs {
        index_found(tail, size, index_cd_of(tail, tail_abs, cd_end_abs))
    } else {
        let back = monus(cd_end_abs, OPEN_TAIL_BYTES);
        let scan_start = if cd_offset >= back {
            cd_offset
        } else {
            back
        };
        OpenOutcome::Need {
            start: scan_start,
            len: clamped(scan_start, monus(cd_end_abs, scan_start), size),
            phase: OpenPhase::Directory { scan_start, cd_end_abs },
        }
    }
}

/// Goes on with the ZIP64 record.
pub open spec fn zip64_found(tail: Seq<u8>, size: u64, rec_abs: u64, rec: Seq<u8>) -> OpenOutcome {
    if rec.len() < 56 {
        OpenOutcome::Done(Err(ArchiveFault::Corrupt("ZIP64 EOCD out of tail"@)))
    } else if !sig_at(rec, 0, 6, 6) {
        OpenOutcome::Done(Err(ArchiveFault::Corrupt("bad ZIP64 EOCD signature"@)))
    } else {
        bounds_found(tail, size, le_at(rec, 48, 8) as u64, rec_abs)
    }
}

/// What comes first in opening an archive of `size` bytes that ends with `tail`.
pub open spec fn open_begun(tail: Seq<u8>, size: u64) -> OpenOutcome {
    let tail_abs = (size - tail.len()) as u64;
    match eocd_of(tail, tail_abs) {
        Err(e) => OpenOutcome::Done(Err(e)),
        Ok(eocd) => if eocd.cd_offset == u32::MAX || eocd.cd_size == u32::MAX {
            match eocd.zip64_record_abs {
                None => OpenOutcome::Done(
                    Err(ArchiveFault::Corrupt("saturated EOCD without a ZIP64 locator"@)),
                ),
                Some(rec_abs) => if rec_abs >= tail_abs {
                    if rec_abs - tail_abs + 56 <= tail.len() {
                        zip64_found(
                            tail,
                            size,
                            rec_abs,
                            tail.subrange(rec_abs - tail_abs, rec_abs - tail_abs + 56),
                        )
                    } else {
                        OpenOutcome::Done(Err(ArchiveFault::Corrupt("ZIP64 EOCD out of tail"@)))
                    }
                } else {
                    OpenOutcome::Need {
                        start: rec_abs,
                        len: clamped(rec_abs, 56, size),
                        phase: OpenPhase::Zip64 { rec_abs },
                    }
                },
            }
        } else {
            bounds_found(tail, size, eocd.cd_offset as u64, eocd.abs)
        },
    }
}

/// What comes after a reply in opening an archive.
pub open spec fn open_resumed(tail: Seq<u8>, size: u64, phase: OpenPhase, reply: Reply) -> OpenOutcome {
    match reply {
        Err(f) => OpenOutcome::Done(Err(ArchiveFault::Fetch(f))),
        Ok(w) => match phase {
            OpenPhase::Zip64 { rec_abs } => zip64_found(tail, size, rec_abs, w),
            OpenPhase::Directory { scan_start, cd_end_abs } => index_found(
                tail,
                size,
                index_cd_of(w, scan_start, cd_end_abs),
            ),
            OpenPhase::Index { entry } => match header_of(w) {
                Err(e) => OpenOutcome::Done(Err(e)),
                Ok(h) => if h.name != index_name() {
                    OpenOutcome::Done(Err(ArchiveFault::NoIndex))
                } else {
                    match (held(h, w), h.comp_size) {
                        (Some(d), _) => opened(entry, d),
                        (None, Some(c)) => {
                            let start = capped(entry.local_offset, h.data_rel);
                            OpenOutcome::Need {
                                start,
                                len: clamped(start, c, size),
                                phase: OpenPhase::IndexData { entry, comp_size: c },
                            }
                        },
                        (None, None) => OpenOutcome::Done(Err(streamed())),
                    }
                },
            },
            OpenPhase::IndexData { entry, comp_size } => if w.len() == comp_size {
                opened(entry, w)
            } else {
                OpenOutcome::Done(Err(short_read(w.len(), comp_size)))
            },
        },
    }
}

/// An opened archive.
#[derive(Debug)]
pub struct Archive3tz {
    source: ByteSource,
    size: u64,
    index: Index3tz,
    head: Vec<u8>,
    offsets: Vec<u64>,
}

fn short(got: usize, want: u64) -> (e: ArchiveError)
    ensures
        e@ == short_read(got as nat, want),
{
    let mut m = text::join3(
        "entry data short read: ",
        text::decimal(got as u64).as_str(),
        " of ",
    );
    m.append(text::decimal(want).as_str());
    m.append(" bytes");
    ArchiveError::Corrupt(m)
}

fn streaming() -> (e: ArchiveError)
    ensures
        e@ == streamed(),
{
    unsupported("3tz entry written in zip streaming mode (sizes only in data descriptor)")
}

impl View for Archive3tz {
    type V = Model;

    closed spec fn view(&self) -> Model {
        Model {
            size: self.size,
            records: self.index.records(),
            head: self.head@,
            offsets: self.offsets@,
        }
    }
}

impl Archive3tz {
    /// The index is sorted, and so are the offsets.
    pub closed spec fn wf(self) -> bool {
        self.index.wf() && sorting::sorted(self.offsets@)
    }

    /// Where the archive's bytes come from.
    pub closed spec fn from(self) -> ByteSource {
        self.source
    }

    /// The archive that was opened: its source, its size, its first bytes, and
    /// what opening it yielded.
    pub fn assemble(source: ByteSource, size: u64, head: Vec<u8>, opened: Opened) -> (r: Self)
        requires
            opened.index.wf(),
            sorting::sorted(opened.offsets@),
        ensures
            r.wf(),
            r.from() == source,
            r@ == (Model {
                size,
                records: opened.index.records(),
                head: head@,
                offsets: opened.offsets@,
            }),
    {
        Archive3tz { source, size, index: opened.index, head, offsets: opened.offsets }
    }

    pub fn index(&self) -> (r: &Index3tz)
        ensures
            r.records() == self@.records,
            self.wf() ==> r.wf(),
    {
        &self.index
    }

    /// Where the archive's bytes come from.
    pub fn source(&self) -> (r: &ByteSource)
        ensures
            *r == self.from(),
    {
        &self.source
    }

    /// The length of the entry at `offset`, header and data, from where the
    /// next entry starts. None when no entry starts at `offset`, no entry
    /// follows, or the length is past [`MAX_ENTRY_SPAN`].
    pub fn span_of(&self, offset: u64) -> (r: Option<u64>)
        requires
            self.wf(),
        ensures
            r == span(self@.offsets, offset),
    {
        let mut lo: usize = 0;
        let mut hi: usize = self.offsets.len();
        while lo < hi
            invariant
                lo <= hi <= self.offsets@.len(),
                sorting::sorted(self.offsets@),
                forall|i: int| 0 <= i < lo ==> self.offsets@[i] <= offset,
                forall|i: int| hi <= i < self.offsets@.len() ==> self.offsets@[i] > offset,
            decreases hi - lo,
        {
            let mid: usize = lo + (hi - lo) / 2;
            if self.offsets[mid] <= offset {
                assert forall|i: int| 0 <= i <= mid implies self.offsets@[i] <= offset by {
                    if i < mid {
                        assert(sorting::rank_le(
                            self.offsets@[i].rank(),
                            self.offsets@[mid as int].rank(),
                        ));
                    }
                }
                lo = mid + 1;
            } else {
                assert forall|i: int| mid <= i < self.offsets@.len() implies self.offsets@[i]
                    > offset by {
                    if mid < i {
                        assert(sorting::rank_le(
                            self.offsets@[mid as int].rank(),
                            self.offsets@[i].rank(),
                        ));
                    }
                }
                hi = mid;
            }
        }
        if lo == 0 || self.offsets[lo - 1] != offset {
            proof {
                if self.offsets@.contains(offset) {
                    let i = choose|i: int|
                        0 <= i < self.offsets@.len() && self.offsets@[i] == offset;
                    assert(i < lo);
                    if i < lo - 1 {
                        assert(sorting::rank_le(
                            self.offsets@[i].rank(),
                            self.offsets@[lo - 1].rank(),
                        ));
                    }
                }
            }
            return None;
        }
        assert(self.offsets@.contains(self.offsets@[lo - 1]));
        if lo >= self.offsets.len() {
            proof {
                assert forall|n: u64| !is_next(self.offsets@, offset, n) by {
                    if self.offsets@.contains(n) {
                        let i = choose|i: int|
                            0 <= i < self.offsets@.len() && self.offsets@[i] == n;
                        assert(self.offsets@[i] <= offset);
                    }
                }
            }
            return None;
        }
        let next: u64 = self.offsets[lo];
        proof {
            assert(self.offsets@.contains(next));
            assert forall|o: u64| #[trigger] self.offsets@.contains(o) && o > offset implies next
                <= o by {
                let i = choose|i: int| 0 <= i < self.offsets@.len() && self.offsets@[i] == o;
                if lo < i {
                    assert(sorting::rank_le(
                        self.offsets@[lo as int].rank(),
                        self.offsets@[i].rank(),
                    ));
                }
            }
            assert(self.offsets@.contains(offset));
            lemma_span(self@.offsets, offset, next);
        }
        let len: u64 = next - offset;
        if len <= MAX_ENTRY_SPAN {
            Some(len)
        } else {
            None
        }
    }

    fn ask_window(&self, name: String, candidates: Vec<u64>, i: usize) -> (r: EntryNext)
        requires
            i < candidates@.len(),
        ensures
            r@ == ask_window(self@, name@, candidates@, i as int),
    {
        let start: u64 = candidates[i];
        let len: u64 = clamp(start, LFH_OVERFETCH, self.size);
        EntryNext::Need {
            start,
            len,
            read: EntryRead { name, candidates, at: i, phase: Phase::Window },
        }
    }

    /// Goes on at candidate `from`.
    fn visit(&self, name: String, candidates: Vec<u64>, from: usize) -> (r: EntryNext)
        requires
            self.wf(),
            from <= candidates@.len(),
        ensures
            r@ == visit(self@, name@, candidates@, from as int),
    {
        let mut i: usize = from;
        while i < candidates.len()
            invariant
                i <= candidates@.len(),
                self.wf(),
                visit(self@, name@, candidates@, from as int) == visit(
                    self@,
                    name@,
                    candidates@,
                    i as int,
                ),
            decreases candidates@.len() - i,
        {
            let offset: u64 = candidates[i];
            let mut skip = false;
            if offset < self.head.len() as u64 {
                let window = &self.head.as_slice()[offset as usize..self.head.len()];
                if let Ok(header) = parse_local_header(window) {
                    if !text::same_bytes(header.name.as_slice(), name.as_str().as_bytes()) {
                        skip = true;
                    } else if let Some(data) = take_held(&header, window) {
                        return EntryNext::Done(decode_entry(header.method, data));
                    }
                }
            }
            if !skip {
                match self.span_of(offset) {
                    Some(len) => {
                        let len: u64 = clamp(offset, len, self.size);
                        return EntryNext::Need {
                            start: offset,
                            len,
                            read: EntryRead { name, candidates, at: i, phase: Phase::Span },
                        };
                    },
                    None => {
                        return self.ask_window(name, candidates, i);
                    },
                }
            }
            i = i + 1;
        }
        EntryNext::Done(Err(ArchiveError::EntryNotFound(name)))
    }

    /// Starts to read and decompress the entry at `path`.
    pub fn begin_entry(&self, path: &str) -> (r: EntryNext)
        requires
            self.wf(),
        ensures
            r@ == begun(self@, path@),
            r matches EntryNext::Need { read, .. } ==> read.at < read.candidates@.len(),
    {
        let name = normalize_path(path);
        let candidates = self.index.lookup(name.as_str());
        proof {
            lemma_visit_in_range(self@, name@, candidates@, 0);
        }
        self.visit(name, candidates, 0)
    }

    /// Goes on with the bytes that `read` asked for, or the error of the read.
    pub fn resume_entry(&self, read: EntryRead, reply: Result<Vec<u8>, FetchError>) -> (r:
        EntryNext)
        requires
            self.wf(),
            read.at < read.candidates@.len(),
        ensures
            r@ == resumed(self@, read@, fetch::reply_view(reply)),
            r matches EntryNext::Need { read, .. } ==> read.at < read.candidates@.len(),
    {
        proof {
            lemma_visit_in_range(self@, read.name@, read.candidates@, read.at + 1);
        }
        let count: usize = read.candidates.len();
        let w = match reply {
            Ok(w) => w,
            Err(e) => {
                return EntryNext::Done(Err(ArchiveError::Fetch(e)));
            },
        };
        match read.phase {
            Phase::Span => {
                let header = match parse_local_header(w.as_slice()) {
                    Ok(h) => h,
                    Err(e) => {
                        return EntryNext::Done(Err(e));
                    },
                };
                if !text::same_bytes(header.name.as_slice(), read.name.as_str().as_bytes()) {
                    return self.visit(read.name, read.candidates, read.at + 1);
                }
                if let Some(data) = take_held(&header, w.as_slice()) {
                    return EntryNext::Done(decode_entry(header.method, data));
                }
                match header.comp_size {
                    Some(c) => {
                        let start: u64 = read.candidates[read.at].saturating_add(header.data_rel);
                        let len: u64 = clamp(start, c, self.size);
                        EntryNext::Need {
                            start,
                            len,
                            read: EntryRead {
                                name: read.name,
                                candidates: read.candidates,
                                at: read.at,
                                phase: Phase::SpanData { method: header.method, comp_size: c },
                            },
                        }
                    },
                    None => self.ask_window(read.name, read.candidates, read.at),
                }
            },
            Phase::SpanData { method, comp_size } => if w.len() as u64 == comp_size {
                EntryNext::Done(decode_entry(method, w))
            } else {
                self.ask_window(read.name, read.candidates, read.at)
            },
            Phase::Window => {
                let header = match parse_local_header(w.as_slice()) {
                    Ok(h) => h,
                    Err(e) => {
                        return EntryNext::Done(Err(e));
                    },
                };
                if !text::same_bytes(header.name.as_slice(), read.name.as_str().as_bytes()) {
                    return self.visit(read.name, read.candidates, read.at + 1);
                }
                if let Some(data) = take_held(&header, w.as_slice()) {
                    return EntryNext::Done(decode_entry(header.method, data));
                }
                match header.comp_size {
                    Some(c) => {
                        let start: u64 = read.candidates[read.at].saturating_add(header.data_rel);
                        let len: u64 = clamp(start, c, self.size);
                        EntryNext::Need {
                            start,
                            len,
                            read: EntryRead {
                                name: read.name,
                                candidates: read.candidates,
                                at: read.at,
                                phase: Phase::WindowData { method: header.method, comp_size: c },
                            },
                        }
                    },
                    None => EntryNext::Done(Err(streaming())),
                }
            },
            Phase::WindowData { method, comp_size } => if w.len() as u64 == comp_size {
                EntryNext::Done(decode_entry(method, w))
            } else {
                EntryNext::Done(Err(short(w.len(), comp_size)))
            },
        }
    }
}

proof fn lemma_next_unique(offsets: Seq<u64>, offset: u64, next: u64)
    requires
        is_next(offsets, offset, next),
    ensures
        next == (choose|n: u64| is_next(offsets, offset, n)),
{
    let n = choose|n: u64| is_next(offsets, offset, n);
    assert(is_next(offsets, offset, n));
    assert(offsets.contains(n) && offsets.contains(next));
}

proof fn lemma_span(offsets: Seq<u64>, offset: u64, next: u64)
    requires
        offsets.contains(offset),
        is_next(offsets, offset, next),
    ensures
        span(offsets, offset) == if next - offset <= MAX_ENTRY_SPAN {
            Some((next - offset) as u64)
        } else {
            None
        },
{
    lemma_next_unique(offsets, offset, next);
}

/// A read that goes on stays within its candidates.
pub proof fn lemma_visit_in_range(ar: Model, name: Seq<char>, candidates: Seq<u64>, i: int)
    requires
        0 <= i,
    ensures
        visit(ar, name, candidates, i) matches EntryOutcome::Need { state, .. } ==> i <= state.at
            < candidates.len() && state.candidates == candidates && state.name == name,
    decreases candidates.len() - i,
{
    if i < candidates.len() {
        lemma_visit_in_range(ar, name, candidates, i + 1);
    }
}

fn finish_open(entry: IndexCdEntry, data: &[u8]) -> (r: OpenNext)
    ensures
        r@ == opened(entry, data@),
        open_sorted(r),
{
    if data.len() as u64 != entry.comp_size {
        let mut m = text::join3(
            "index payload size ",
            text::decimal(data.len() as u64).as_str(),
            " != central directory size ",
        );
        m.append(text::decimal(entry.comp_size).as_str());
        return OpenNext::Done(Err(ArchiveError::Corrupt(m)));
    }
    match Index3tz::parse(data) {
        Ok(index) => {
            let mut offsets = index.offsets();
            offsets.push(entry.local_offset);
            let offsets = sorting::stable_sort(&offsets);
            OpenNext::Done(Ok(Opened { index, offsets }))
        },
        Err(e) => OpenNext::Done(Err(e)),
    }
}

/// What opening yielded is sorted.
pub open spec fn open_sorted(r: OpenNext) -> bool {
    r matches OpenNext::Done(Ok(o)) ==> o.index.wf() && sorting::sorted(o.offsets@)
}

fn found_index(tail: &[u8], size: u64, entry: Result<IndexCdEntry, ArchiveError>) -> (r: OpenNext)
    requires
        tail@.len() <= size,
    ensures
        r@ == index_found(tail@, size, crate::zip::fault_of(entry)),
        open_sorted(r),
{
    let n: usize = tail.len();
    let tail_abs: u64 = size - n as u64;
    let entry = match entry {
        Ok(e) => e,
        Err(e) => {
            return OpenNext::Done(Err(e));
        },
    };
    if entry.method != 0 {
        return OpenNext::Done(Err(corrupt("@3dtilesIndex1@ must be stored uncompressed")));
    }
    if entry.local_offset >= tail_abs {
        let at64: u64 = entry.local_offset - tail_abs;
        let at: usize = if at64 <= n as u64 {
            at64 as usize
        } else {
            n
        };
        let header = match parse_local_header(&tail[at..n]) {
            Ok(h) => h,
            Err(e) => {
                return OpenNext::Done(Err(e));
            },
        };
        let name = index_name_bytes();
        let room: u64 = (n - at) as u64;
        if at64 <= n as u64 && text::same_bytes(header.name.as_slice(), name.as_slice())
            && header.data_rel <= room && entry.comp_size <= room - header.data_rel {
            let start: usize = at + header.data_rel as usize;
            let end: usize = start + entry.comp_size as usize;
            return finish_open(entry, &tail[start..end]);
        }
    }
    OpenNext::Need {
        start: entry.local_offset,
        len: clamp(entry.local_offset, LFH_OVERFETCH, size),
        phase: OpenPhase::Index { entry },
    }
}

fn found_bounds(tail: &[u8], size: u64, cd_offset: u64, cd_end_abs: u64) -> (r: OpenNext)
    requires
        tail@.len() <= size,
    ensures
        r@ == bounds_found(tail@, size, cd_offset, cd_end_abs),
        open_sorted(r),
{
    let tail_abs: u64 = size - tail.len() as u64;
    if cd_offset >= tail_abs {
        return found_index(tail, size, find_index_cd_entry(tail, tail_abs, cd_end_abs));
    }
    let back: u64 = cd_end_abs.saturating_sub(OPEN_TAIL_BYTES);
    let scan_start: u64 = if cd_offset >= back {
        cd_offset
    } else {
        back
    };
    OpenNext::Need {
        start: scan_start,
        len: clamp(scan_start, cd_end_abs.saturating_sub(scan_start), size),
        phase: OpenPhase::Directory { scan_start, cd_end_abs },
    }
}

fn found_zip64(tail: &[u8], size: u64, rec_abs: u64, rec: &[u8]) -> (r: OpenNext)
    requires
        tail@.len() <= size,
    ensures
        r@ == zip64_found(tail@, size, rec_abs, rec@),
        open_sorted(r),
{
    if rec.len() < 56 {
        return OpenNext::Done(Err(corrupt("ZIP64 EOCD out of tail")));
    }
    if !crate::zip::has_sig(rec, 0, 6, 6) {
        return OpenNext::Done(Err(corrupt("bad ZIP64 EOCD signature")));
    }
    found_bounds(tail, size, le64(rec, 48), rec_abs)
}

/// Starts to open an archive of `size` bytes that ends with `tail`.
pub fn begin_open(tail: &[u8], size: u64) -> (r: OpenNext)
    requires
        tail@.len() <= size,
    ensures
        r@ == open_begun(tail@, size),
        open_sorted(r),
{
    let n: usize = tail.len();
    let tail_abs: u64 = size - n as u64;
    let eocd = match find_eocd(tail, tail_abs) {
        Ok(e) => e,
        Err(e) => {
            return OpenNext::Done(Err(e));
        },
    };
    if eocd.cd_offset == u32::MAX || eocd.cd_size == u32::MAX {
        let rec_abs: u64 = match eocd.zip64_record_abs {
            Some(v) => v,
            None => {
                return OpenNext::Done(Err(corrupt("saturated EOCD without a ZIP64 locator")));
            },
        };
        if rec_abs >= tail_abs {
            let at: u64 = rec_abs - tail_abs;
            if at <= n as u64 && n as u64 - at >= 56 {
                let from: usize = at as usize;
                return found_zip64(tail, size, rec_abs, &tail[from..from + 56]);
            }
            return OpenNext::Done(Err(corrupt("ZIP64 EOCD out of tail")));
        }
        return OpenNext::Need {
            start: rec_abs,
            len: clamp(rec_abs, 56, size),
            phase: OpenPhase::Zip64 { rec_abs },
        };
    }
    found_bounds(tail, size, eocd.cd_offset as u64, eocd.abs)
}

/// Goes on with the bytes that `phase` asked for, or the error of the read.
pub fn resume_open(
    tail: &[u8],
    size: u64,
    phase: OpenPhase,
    reply: Result<Vec<u8>, FetchError>,
) -> (r: OpenNext)
    requires
        tail@.len() <= size,
    ensures
        r@ == open_resumed(tail@, size, phase, fetch::reply_view(reply)),
        open_sorted(r),
{
    let w = match reply {
        Ok(w) => w,
        Err(e) => {
            return OpenNext::Done(Err(ArchiveError::Fetch(e)));
        },
    };
    match phase {
        OpenPhase::Zip64 { rec_abs } => found_zip64(tail, size, rec_abs, w.as_slice()),
        OpenPhase::Directory { scan_start, cd_end_abs } => found_index(
            tail,
            size,
            find_index_cd_entry(w.as_slice(), scan_start, cd_end_abs),
        ),
        OpenPhase::Index { entry } => {
            let header = match parse_local_header(w.as_slice()) {
                Ok(h) => h,
                Err(e) => {
                    return OpenNext::Done(Err(e));
                },
            };
            let name = index_name_bytes();
            if !text::same_bytes(header.name.as_slice(), name.as_slice()) {
                return OpenNext::Done(Err(ArchiveError::NoIndex));
            }
            if let Some(data) = take_held(&header, w.as_slice()) {
                return finish_open(entry, data.as_slice());
            }
            match header.comp_size {
                Some(c) => {
                    let start: u64 = entry.local_offset.saturating_add(header.data_rel);
                    let len: u64 = clamp(start, c, size);
                    OpenNext::Need {
                        start,
                        len,
                        phase: OpenPhase::IndexData { entry, comp_size: c },
                    }
                },
                None => OpenNext::Done(Err(streaming())),
            }
        },
        OpenPhase::IndexData { entry, comp_size } => if w.len() as u64 == comp_size {
            finish_open(entry, w.as_slice())
        } else {
            OpenNext::Done(Err(short(w.len(), comp_size)))
        },
    }
}

// Archives in memory.

/// The last `n` bytes, or all where there are fewer.
pub open spec fn suffix(b: Seq<u8>, n: u64) -> Seq<u8> {
    if b.len() <= n {
        b
    } else {
        b.subrange(b.len() - n, b.len() as int)
    }
}

/// The first `n` bytes, or all where there are fewer.
pub open spec fn prefix(b: Seq<u8>, n: u64) -> Seq<u8> {
    if b.len() <= n {
        b
    } else {
        b.subrange(0, n as int)
    }
}

/// How many reads opening can still need.
pub open spec fn open_rank(next: OpenOutcome) -> nat {
    match next {
        OpenOutcome::Done(_) => 0,
        OpenOutcome::Need { phase, .. } => match phase {
            OpenPhase::Zip64 { .. } => 4,
            OpenPhase::Directory { .. } => 3,
            OpenPhase::Index { .. } => 2,
            OpenPhase::IndexData { .. } => 1,
        },
    }
}

/// How many reads an entry can still need.
pub open spec fn entry_rank(next: EntryOutcome) -> int {
    match next {
        EntryOutcome::Done(_) => 0,
        EntryOutcome::Need { state, .. } => 4 * (state.candidates.len() - state.at) + match state.phase {
            Phase::Span => 4int,
            Phase::SpanData { .. } => 3,
            Phase::Window => 2,
            Phase::WindowData { .. } => 1,
        },
    }
}

/// Each reply brings opening nearer to its end: it takes four reads at most.
pub proof fn opening_ends(tail: Seq<u8>, size: u64, phase: OpenPhase, reply: Reply)
    ensures
        open_rank(open_resumed(tail, size, phase, reply)) < open_rank(
            OpenOutcome::Need { start: 0, len: 0, phase },
        ),
        open_rank(open_begun(tail, size)) <= 4,
{
}

/// Each reply brings the read of an entry nearer to its end: a candidate takes
/// four reads at most.
pub proof fn reading_ends(ar: Model, st: EntryState, reply: Reply)
    requires
        0 <= st.at < st.candidates.len(),
    ensures
        0 <= entry_rank(resumed(ar, st, reply)) < entry_rank(
            EntryOutcome::Need { start: 0, len: 0, state: st },
        ),
        resumed(ar, st, reply) matches EntryOutcome::Need { state, .. } ==> 0 <= state.at
            < state.candidates.len(),
{
    lemma_visit_in_range(ar, st.name, st.candidates, st.at + 1);
}

/// What opening comes to when the archive's bytes are `b`.
pub open spec fn open_run(b: Seq<u8>, next: OpenOutcome) -> Result<
    (Seq<IndexRecord>, Seq<u64>),
    ArchiveFault,
>
    decreases open_rank(next),
{
    let tail = suffix(b, OPEN_TAIL_BYTES);
    match next {
        OpenOutcome::Done(r) => r,
        OpenOutcome::Need { start, len, phase } => {
            let reply = fetch::range_reply(b, start, len);
            open_run(b, open_resumed(tail, b.len() as u64, phase, reply))
        },
    }
}

/// What reading an entry comes to when the archive's bytes are `b`.
pub open spec fn entry_run(ar: Model, b: Seq<u8>, next: EntryOutcome) -> Result<
    Seq<u8>,
    ArchiveFault,
>
    decreases entry_rank(next),
{
    match next {
        EntryOutcome::Done(r) => r,
        EntryOutcome::Need { start, len, state } => if 0 <= state.at < state.candidates.len() {
            let reply = fetch::range_reply(b, start, len);
            proof {
                reading_ends(ar, state, reply);
            }
            entry_run(ar, b, resumed(ar, state, reply))
        } else {
            Err(ArchiveFault::NotZip)
        },
    }
}

/// The archive whose bytes are `b`.
pub open spec fn archive_in(b: Seq<u8>) -> Result<Model, ArchiveFault> {
    match open_run(b, open_begun(suffix(b, OPEN_TAIL_BYTES), b.len() as u64)) {
        Ok((records, offsets)) => Ok(
            Model { size: b.len() as u64, records, head: prefix(b, OPEN_HEAD_BYTES), offsets },
        ),
        Err(e) => Err(e),
    }
}

/// The data of the entry at `path` in the archive `ar` whose bytes are `b`.
pub open spec fn entry_in(ar: Model, b: Seq<u8>, path: Seq<char>) -> Result<Seq<u8>, ArchiveFault> {
    entry_run(ar, b, begun(ar, path))
}

impl Archive3tz {
    /// What opening returned.
    pub open spec fn outcome(r: Result<Archive3tz, ArchiveError>) -> Result<Model, ArchiveFault> {
        match r {
            Ok(a) => Ok(a@),
            Err(e) => Err(e@),
        }
    }

    /// Opens an archive that is in memory. Others are opened by driving
    /// [`begin_open`] and [`resume_open`].
    pub fn open(source: ByteSource) -> (r: Result<Self, ArchiveError>)
        requires
            source is Mem,
        ensures
            Self::outcome(r) == archive_in(source->Mem_0@),
            r matches Ok(a) ==> a.wf() && a.from() == source,
    {
        match &source {
            ByteSource::Mem(bytes) => {
                let n: usize = bytes.len();
                let size: u64 = n as u64;
                let lo: usize = if size <= OPEN_TAIL_BYTES {
                    0
                } else {
                    n - OPEN_TAIL_BYTES as usize
                };
                let hi: usize = if size <= OPEN_HEAD_BYTES {
                    n
                } else {
                    OPEN_HEAD_BYTES as usize
                };
                let all = bytes.as_slice();
                let tail = &all[lo..n];
                let head = vstd::slice::slice_to_vec(&all[0..hi]);
                assert(tail@ =~= suffix(all@, OPEN_TAIL_BYTES));
                assert(head@ =~= prefix(all@, OPEN_HEAD_BYTES));
                let mut next = begin_open(tail, size);
                let ghost start = next@;
                loop
                    invariant
                        tail@ == suffix(all@, OPEN_TAIL_BYTES),
                        all@ == source->Mem_0@,
                        source is Mem,
                        size == all@.len(),
                        tail@.len() <= size,
                        head@ == prefix(all@, OPEN_HEAD_BYTES),
                        start == open_begun(tail@, size),
                        open_sorted(next),
                        open_run(all@, next@) == open_run(all@, start),
                    decreases open_rank(next@),
                {
                    match next {
                        OpenNext::Done(r) => {
                            return match r {
                                Ok(opened) => Ok(Self::assemble(source, size, head, opened)),
                                Err(e) => Err(e),
                            };
                        },
                        OpenNext::Need { start, len, phase } => {
                            let reply = fetch::read_range(all, start, len);
                            next = resume_open(tail, size, phase, reply);
                        },
                    }
                }
            },
            _ => Err(ArchiveError::NotZip),
        }
    }

    /// Reads and decompresses the entry at `path` of an archive in memory.
    /// Others are read by driving [`Self::begin_entry`] and
    /// [`Self::resume_entry`].
    pub fn read_entry(&self, path: &str) -> (r: Result<Vec<u8>, ArchiveError>)
        requires
            self.wf(),
            self.from() is Mem,
        ensures
            data_view(r) == entry_in(self@, self.from()->Mem_0@, path@),
    {
        match &self.source {
            ByteSource::Mem(bytes) => {
                let all = bytes.as_slice();
                let mut next = self.begin_entry(path);
                let ghost start = next@;
                loop
                    invariant
                        self.wf(),
                        all@ == self.from()->Mem_0@,
                        start == begun(self@, path@),
                        next matches EntryNext::Need { read, .. } ==> read.at
                            < read.candidates@.len(),
                        entry_run(self@, all@, next@) == entry_run(self@, all@, start),
                    decreases entry_rank(next@),
                {
                    match next {
                        EntryNext::Done(r) => {
                            return r;
                        },
                        EntryNext::Need { start, len, read } => {
                            let ghost st = read@;
                            let reply = fetch::read_range(all, start, len);
                            proof {
                                reading_ends(self@, st, fetch::reply_view(reply));
                            }
                            next = self.resume_entry(read, reply);
                        },
                    }
                }
            },
            _ => Err(ArchiveError::NotZip),
        }
    }
}

} // verus!
