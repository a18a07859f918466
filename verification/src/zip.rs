//! The ZIP records that a `.3tz` archive is read through.
use crate::bytes::{le16, le32, le64, le_at};
use crate::fetch::{FetchError, FetchFault};
use crate::text;
use vstd::prelude::*;

verus! {

/// Why an archive could not be read.
#[derive(Debug)]
pub enum ArchiveError {
    Fetch(FetchError),
    NotZip,
    NoIndex,
    Corrupt(String),
    Unsupported(String),
    EntryNotFound(String),
}

/// [`ArchiveError`] as a mathematical value.
pub enum ArchiveFault {
    Fetch(FetchFault),
    NotZip,
    NoIndex,
    Corrupt(Seq<char>),
    Unsupported(Seq<char>),
    EntryNotFound(Seq<char>),
}

impl View for ArchiveError {
    type V = ArchiveFault;

    open spec fn view(&self) -> ArchiveFault {
        match *self {
            ArchiveError::Fetch(e) => ArchiveFault::Fetch(e@),
            ArchiveError::NotZip => ArchiveFault::NotZip,
            ArchiveError::NoIndex => ArchiveFault::NoIndex,
            ArchiveError::Corrupt(s) => ArchiveFault::Corrupt(s@),
            ArchiveError::Unsupported(s) => ArchiveFault::Unsupported(s@),
            ArchiveError::EntryNotFound(s) => ArchiveFault::EntryNotFound(s@),
        }
    }
}

/// The text of an [`ArchiveFault`].
pub open spec fn archive_message(f: ArchiveFault) -> Seq<char> {
    match f {
        ArchiveFault::Fetch(e) => crate::fetch::fetch_message(e),
        ArchiveFault::NotZip => "not a zip archive (no end-of-central-directory record found)"@,
        ArchiveFault::NoIndex => "no @3dtilesIndex1@ entry — not a 3tz (or index not last in the central directory)"@,
        ArchiveFault::Corrupt(s) => "malformed 3tz: "@ + s,
        ArchiveFault::Unsupported(s) => "unsupported 3tz feature: "@ + s,
        ArchiveFault::EntryNotFound(s) => "entry not found in 3tz index: "@ + s,
    }
}

impl ArchiveError {
    /// The error as one line of text.
    pub fn to_string(&self) -> (s: String)
        ensures
            s@ == archive_message(self@),
    {
        match self {
            ArchiveError::Fetch(e) => e.to_string(),
            ArchiveError::NotZip => String::from_str(
                "not a zip archive (no end-of-central-directory record found)",
            ),
            ArchiveError::NoIndex => String::from_str(
                "no @3dtilesIndex1@ entry — not a 3tz (or index not last in the central directory)",
            ),
            ArchiveError::Corrupt(s) => text::join2("malformed 3tz: ", s.as_str()),
            ArchiveError::Unsupported(s) => text::join2("unsupported 3tz feature: ", s.as_str()),
            ArchiveError::EntryNotFound(s) => text::join2(
                "entry not found in 3tz index: ",
                s.as_str(),
            ),
        }
    }
}

/// The error of a malformed archive.
pub fn corrupt(message: &str) -> (e: ArchiveError)
    ensures
        e@ == ArchiveFault::Corrupt(message@),
{
    ArchiveError::Corrupt(String::from_str(message))
}

/// The error of a feature that is not supported.
pub fn unsupported(message: &str) -> (e: ArchiveError)
    ensures
        e@ == ArchiveFault::Unsupported(message@),
{
    ArchiveError::Unsupported(String::from_str(message))
}

/// The signature `PK` with two more bytes.
pub open spec fn sig(a: u8, b: u8) -> Seq<u8> {
    seq![0x50u8, 0x4B, a, b]
}

/// The bytes of `s` at `at` open with the signature `PK`, `a`, `b`.
pub open spec fn sig_at(s: Seq<u8>, at: int, a: u8, b: u8) -> bool {
    s.subrange(at, at + 4) == sig(a, b)
}

pub(crate) fn has_sig(buf: &[u8], at: usize, a: u8, b: u8) -> (r: bool)
    requires
        at + 4 <= buf@.len(),
    ensures
        r == sig_at(buf@, at as int, a, b),
{
    let n: usize = buf.len();
    let r = buf[at] == 0x50 && buf[at + 1] == 0x4B && buf[at + 2] == a && buf[at + 3] == b;
    proof {
        let s = buf@.subrange(at as int, at + 4);
        let k = sig(a, b);
        if r {
            assert(s =~= k);
        } else {
            assert(s[0] != k[0] || s[1] != k[1] || s[2] != k[2] || s[3] != k[3]);
        }
    }
    r
}

/// The end-of-central-directory record.
#[derive(Debug, Clone, Copy)]
pub struct Eocd {
    /// Where the record starts in the archive.
    pub abs: u64,
    pub cd_offset: u32,
    pub cd_size: u32,
    /// Where the ZIP64 record starts, from the locator before the record.
    pub zip64_record_abs: Option<u64>,
}

/// A record that ends, with its comment, where the bytes end starts at `pos`.
pub open spec fn eocd_at(t: Seq<u8>, pos: int) -> bool {
    sig_at(t, pos, 5, 6) && pos + 22 + le_at(t, pos + 20, 2) == t.len()
}

/// The last place, at `pos` or before, where such a record starts.
pub open spec fn last_eocd(t: Seq<u8>, pos: int) -> Option<int>
    decreases pos + 1,
{
    if pos < 0 {
        None
    } else if eocd_at(t, pos) {
        Some(pos)
    } else {
        last_eocd(t, pos - 1)
    }
}

/// The record at `pos` of the tail `t`, which starts at `tail_abs`.
pub open spec fn eocd_read(t: Seq<u8>, tail_abs: u64, pos: int) -> Eocd {
    Eocd {
        abs: (tail_abs + pos) as u64,
        cd_offset: le_at(t, pos + 16, 4) as u32,
        cd_size: le_at(t, pos + 12, 4) as u32,
        zip64_record_abs: if pos >= 20 && sig_at(t, pos - 20, 6, 7) {
            Some(le_at(t, pos - 12, 8) as u64)
        } else {
            None
        },
    }
}

/// The end-of-central-directory record of an archive's tail.
pub open spec fn eocd_of(t: Seq<u8>, tail_abs: u64) -> Result<Eocd, ArchiveFault> {
    match last_eocd(t, t.len() - 22) {
        Some(pos) => Ok(eocd_read(t, tail_abs, pos)),
        None => Err(ArchiveFault::NotZip),
    }
}

/// What a fallible step returned, with its error as a mathematical value.
pub open spec fn fault_of<T>(r: Result<T, ArchiveError>) -> Result<T, ArchiveFault> {
    match r {
        Ok(v) => Ok(v),
        Err(e) => Err(e@),
    }
}

/// Finds the end-of-central-directory record, scanning the tail backwards. The
/// record and its comment must end exactly where the archive ends.
pub fn find_eocd(tail: &[u8], tail_abs: u64) -> (r: Result<Eocd, ArchiveError>)
    requires
        tail_abs + tail@.len() <= u64::MAX,
    ensures
        fault_of(r) == eocd_of(tail@, tail_abs),
{
    let n: usize = tail.len();
    if n < 22 {
        return Err(ArchiveError::NotZip);
    }
    let mut pos: usize = n - 22;
    loop
        invariant
            n == tail@.len(),
            pos + 22 <= n,
            tail_abs + n <= u64::MAX,
            last_eocd(tail@, n - 22) == last_eocd(tail@, pos as int),
        decreases pos,
    {
        if has_sig(tail, pos, 5, 6) {
            let comment_len: usize = le16(tail, pos + 20) as usize;
            if comment_len == n - pos - 22 {
                let zip64_record_abs = if pos >= 20 && has_sig(tail, pos - 20, 6, 7) {
                    Some(le64(tail, pos - 12))
                } else {
                    None
                };
                return Ok(
                    Eocd {
                        abs: tail_abs + pos as u64,
                        cd_offset: le32(tail, pos + 16),
                        cd_size: le32(tail, pos + 12),
                        zip64_record_abs,
                    },
                );
            }
        }
        if pos == 0 {
            assert(last_eocd(tail@, -1) is None);
            return Err(ArchiveError::NotZip);
        }
        pos = pos - 1;
    }
}

/// The `rank`th number of the ZIP64 block among the extra fields from `at` on:
/// none where no such block is reached, a field before it overruns, or the
/// block is too short.
pub open spec fn zip64_field(extra: Seq<u8>, at: int, rank: int) -> Option<u64>
    decreases extra.len() - at,
{
    let len = le_at(extra, at + 2, 2);
    if at + 4 > extra.len() || at + 4 + len > extra.len() {
        None
    } else if le_at(extra, at, 2) == 1 {
        if rank * 8 + 8 <= len {
            Some(le_at(extra, at + 4 + rank * 8, 8) as u64)
        } else {
            None
        }
    } else {
        zip64_field(extra, at + 4 + len, rank)
    }
}

/// The `field_rank`th number of the ZIP64 block (header 1) among extra fields.
/// The block holds, in order, only the values whose 32-bit fields are full.
pub fn zip64_extra_field(extra: &[u8], field_rank: usize) -> (r: Option<u64>)
    ensures
        r == zip64_field(extra@, 0, field_rank as int),
{
    let n: usize = extra.len();
    let mut at: usize = 0;
    while n - at >= 4
        invariant
            n == extra@.len(),
            at <= n,
            zip64_field(extra@, 0, field_rank as int) == zip64_field(
                extra@,
                at as int,
                field_rank as int,
            ),
        decreases n - at,
    {
        let id: u16 = le16(extra, at);
        let len: usize = le16(extra, at + 2) as usize;
        if len > n - at - 4 {
            return None;
        }
        if id == 1 {
            if field_rank < len / 8 {
                return Some(le64(extra, at + 4 + field_rank * 8));
            }
            return None;
        }
        at = at + 4 + len;
    }
    None
}

/// The name of the index entry, `@3dtilesIndex1@`.
pub open spec fn index_name() -> Seq<u8> {
    seq![
        0x40u8, 0x33, 0x64, 0x74, 0x69, 0x6C, 0x65, 0x73, 0x49, 0x6E, 0x64, 0x65, 0x78, 0x31, 0x40,
    ]
}

/// The bytes of the index entry's name.
pub fn index_name_bytes() -> (r: Vec<u8>)
    ensures
        r@ == index_name(),
{
    let r: Vec<u8> = vec![
        0x40u8, 0x33, 0x64, 0x74, 0x69, 0x6C, 0x65, 0x73, 0x49, 0x6E, 0x64, 0x65, 0x78, 0x31, 0x40,
    ];
    assert(r@ =~= index_name());
    r
}

/// What the central directory says of the index entry.
#[derive(Debug, Clone, Copy)]
pub struct IndexCdEntry {
    pub method: u16,
    pub comp_size: u64,
    pub local_offset: u64,
}

/// The index entry starts at `pos` of `b` and ends exactly `end` bytes into it.
pub open spec fn index_cd_at(b: Seq<u8>, end: int, pos: int) -> bool {
    &&& sig_at(b, pos, 1, 2)
    &&& le_at(b, pos + 28, 2) == 15
    &&& le_at(b, pos + 32, 2) == 0
    &&& pos + 61 + le_at(b, pos + 30, 2) == end <= b.len()
    &&& b.subrange(pos + 46, pos + 61) == index_name()
}

/// The last place, at `pos` or before, where the index entry starts.
pub open spec fn last_index_cd(b: Seq<u8>, end: int, pos: int) -> Option<int>
    decreases pos + 1,
{
    if pos < 0 {
        None
    } else if index_cd_at(b, end, pos) {
        Some(pos)
    } else {
        last_index_cd(b, end, pos - 1)
    }
}

/// 1 when a 32-bit field is full, so that its value stands in the ZIP64 block.
pub open spec fn full(v: nat) -> int {
    if v == 0xFFFF_FFFF {
        1
    } else {
        0
    }
}

/// The index entry at `pos`, which ends at `end`.
pub open spec fn index_cd_read(b: Seq<u8>, end: int, pos: int) -> Result<
    IndexCdEntry,
    ArchiveFault,
> {
    let extra = b.subrange(pos + 61, end);
    let uncomp = full(le_at(b, pos + 24, 4));
    let comp = le_at(b, pos + 20, 4);
    let local = le_at(b, pos + 42, 4);
    let comp_size = if full(comp) == 1 {
        zip64_field(extra, 0, uncomp)
    } else {
        Some(comp as u64)
    };
    let local_offset = if full(local) == 1 {
        zip64_field(extra, 0, uncomp + full(comp))
    } else {
        Some(local as u64)
    };
    match (comp_size, local_offset) {
        (None, _) => Err(ArchiveFault::Corrupt("saturated comp size without zip64 extra"@)),
        (_, None) => Err(ArchiveFault::Corrupt("saturated offset without zip64 extra"@)),
        (Some(comp_size), Some(local_offset)) => Ok(
            IndexCdEntry { method: le_at(b, pos + 10, 2) as u16, comp_size, local_offset },
        ),
    }
}

/// The index entry of a central directory: the last entry, ending where the
/// directory ends. `b` starts at `buf_abs`, the directory ends at `cd_end_abs`.
pub open spec fn index_cd_of(b: Seq<u8>, buf_abs: u64, cd_end_abs: u64) -> Result<
    IndexCdEntry,
    ArchiveFault,
> {
    let end = cd_end_abs - buf_abs;
    let from = (if end < b.len() {
        end
    } else {
        b.len() as int
    }) - 61;
    match last_index_cd(b, end, from) {
        Some(pos) => index_cd_read(b, end, pos),
        None => Err(ArchiveFault::NoIndex),
    }
}

fn index_name_at(buf: &[u8], at: usize) -> (r: bool)
    requires
        at + 15 <= buf@.len(),
    ensures
        r == (buf@.subrange(at as int, at + 15) == index_name()),
{
    let name = index_name_bytes();
    let n: usize = buf.len();
    text::same_bytes(&buf[at..at + 15], name.as_slice())
}

/// Finds the index entry, scanning the central directory backwards. It must end
/// exactly where the directory ends, which makes the scan unambiguous.
pub fn find_index_cd_entry(buf: &[u8], buf_abs: u64, cd_end_abs: u64) -> (r: Result<
    IndexCdEntry,
    ArchiveError,
>)
    ensures
        fault_of(r) == index_cd_of(buf@, buf_abs, cd_end_abs),
{
    let n: usize = buf.len();
    if cd_end_abs < buf_abs {
        return Err(ArchiveError::NoIndex);
    }
    let end64: u64 = cd_end_abs - buf_abs;
    if end64 > n as u64 {
        proof {
            lemma_no_index_cd(buf@, end64 as int, n - 61);
        }
        return Err(ArchiveError::NoIndex);
    }
    let end: usize = end64 as usize;
    if end < 61 {
        return Err(ArchiveError::NoIndex);
    }
    let mut pos: usize = end - 61;
    loop
        invariant
            n == buf@.len(),
            pos + 61 <= end <= n,
            end == cd_end_abs - buf_abs,
            last_index_cd(buf@, end as int, end - 61) == last_index_cd(
                buf@,
                end as int,
                pos as int,
            ),
        decreases pos,
    {
        if has_sig(buf, pos, 1, 2) && le16(buf, pos + 28) == 15 && le16(buf, pos + 32) == 0 {
            let extra_len: usize = le16(buf, pos + 30) as usize;
            if extra_len == end - pos - 61 && index_name_at(buf, pos + 46) {
                let extra = &buf[pos + 61..end];
                let comp32: u32 = le32(buf, pos + 20);
                let local32: u32 = le32(buf, pos + 42);
                let uncomp_full: usize = if le32(buf, pos + 24) == u32::MAX {
                    1
                } else {
                    0
                };
                let comp_full: usize = if comp32 == u32::MAX {
                    1
                } else {
                    0
                };
                let comp_size: u64 = if comp32 == u32::MAX {
                    match zip64_extra_field(extra, uncomp_full) {
                        Some(v) => v,
                        None => {
                            return Err(corrupt("saturated comp size without zip64 extra"));
                        },
                    }
                } else {
                    comp32 as u64
                };
                let local_offset: u64 = if local32 == u32::MAX {
                    match zip64_extra_field(extra, uncomp_full + comp_full) {
                        Some(v) => v,
                        None => {
                            return Err(corrupt("saturated offset without zip64 extra"));
                        },
                    }
                } else {
                    local32 as u64
                };
                return Ok(IndexCdEntry { method: le16(buf, pos + 10), comp_size, local_offset });
            }
        }
        if pos == 0 {
            assert(last_index_cd(buf@, end as int, -1) is None);
            return Err(ArchiveError::NoIndex);
        }
        pos = pos - 1;
    }
}

proof fn lemma_no_index_cd(b: Seq<u8>, end: int, pos: int)
    requires
        end > b.len(),
    ensures
        last_index_cd(b, end, pos) is None,
    decreases pos + 1,
{
    if pos >= 0 {
        lemma_no_index_cd(b, end, pos - 1);
    }
}

/// A local file header.
#[derive(Debug)]
pub struct LocalHeader {
    pub method: u16,
    /// None in streaming mode, where the sizes follow the data.
    pub comp_size: Option<u64>,
    pub name: Vec<u8>,
    /// Where the data starts, from the start of the header.
    pub data_rel: u64,
}

/// [`LocalHeader`] as a mathematical value.
pub struct Header {
    pub method: u16,
    pub comp_size: Option<u64>,
    pub name: Seq<u8>,
    pub data_rel: u64,
}

impl View for LocalHeader {
    type V = Header;

    open spec fn view(&self) -> Header {
        Header {
            method: self.method,
            comp_size: self.comp_size,
            name: self.name@,
            data_rel: self.data_rel,
        }
    }
}

/// The local file header that `b` opens with.
pub open spec fn header_of(b: Seq<u8>) -> Result<Header, ArchiveFault> {
    let comp = le_at(b, 18, 4);
    let name_len = le_at(b, 26, 2);
    let extra_len = le_at(b, 28, 2);
    let end = 30 + name_len + extra_len;
    let extra = if end <= b.len() {
        b.subrange(30 + name_len as int, end as int)
    } else {
        Seq::empty()
    };
    if b.len() < 30 || !sig_at(b, 0, 3, 4) {
        Err(ArchiveFault::Corrupt("bad local file header signature"@))
    } else if 30 + name_len > b.len() {
        Err(ArchiveFault::Corrupt("local header name/extra exceed over-fetch window"@))
    } else if full(comp) == 1 && zip64_field(extra, 0, 1) is None {
        Err(ArchiveFault::Corrupt("saturated local comp size without zip64 extra"@))
    } else {
        Ok(
            Header {
                method: le_at(b, 8, 2) as u16,
                comp_size: if full(comp) == 1 {
                    zip64_field(extra, 0, 1)
                } else if comp == 0 && (le_at(b, 6, 2) as u16) & 8 != 0 {
                    None
                } else {
                    Some(comp as u64)
                },
                name: b.subrange(30, 30 + name_len as int),
                data_rel: end as u64,
            },
        )
    }
}

/// The header that a fallible step returned.
pub open spec fn header_view(r: Result<LocalHeader, ArchiveError>) -> Result<Header, ArchiveFault> {
    match r {
        Ok(h) => Ok(h@),
        Err(e) => Err(e@),
    }
}

/// Parses the local file header that `buf` opens with.
pub fn parse_local_header(buf: &[u8]) -> (r: Result<LocalHeader, ArchiveError>)
    ensures
        header_view(r) == header_of(buf@),
        r matches Ok(h) ==> 30 <= h.data_rel <= 30 + 2 * 0xFFFF,
{
    let n: usize = buf.len();
    if n < 30 || !has_sig(buf, 0, 3, 4) {
        return Err(corrupt("bad local file header signature"));
    }
    let flags: u16 = le16(buf, 6);
    let comp32: u32 = le32(buf, 18);
    let name_len: usize = le16(buf, 26) as usize;
    let extra_len: usize = le16(buf, 28) as usize;
    if name_len > n - 30 {
        return Err(corrupt("local header name/extra exceed over-fetch window"));
    }
    let end: usize = 30 + name_len + extra_len;
    let extra = if end <= n {
        &buf[30 + name_len..end]
    } else {
        &buf[0..0]
    };
    proof {
        assert(buf@.subrange(0, 0) =~= Seq::<u8>::empty());
    }
    let comp_size = if comp32 == u32::MAX {
        match zip64_extra_field(extra, 1) {
            Some(v) => Some(v),
            None => {
                return Err(corrupt("saturated local comp size without zip64 extra"));
            },
        }
    } else if comp32 == 0 && flags & 8 != 0 {
        None
    } else {
        Some(comp32 as u64)
    };
    Ok(
        LocalHeader {
            method: le16(buf, 8),
            comp_size,
            name: vstd::slice::slice_to_vec(&buf[30..30 + name_len]),
            data_rel: end as u64,
        },
    )
}

/// What `miniz_oxide::inflate::decompress_to_vec` makes of DEFLATE data: the
/// plain data, or the message of its error.
pub uninterp spec fn inflated(data: Seq<u8>) -> Result<Seq<u8>, Seq<char>>;

/// What `miniz_oxide::deflate::compress_to_vec` makes of data at a level.
pub uninterp spec fn deflated(data: Seq<u8>, level: u8) -> Seq<u8>;

/// Calls `miniz_oxide::inflate::decompress_to_vec`; an error comes back as its
/// message.
#[verifier::external_body]
fn inflate(data: &[u8]) -> (r: Result<Vec<u8>, String>)
    ensures
        match r {
            Ok(v) => inflated(data@) == Ok::<Seq<u8>, Seq<char>>(v@),
            Err(e) => inflated(data@) == Err::<Seq<u8>, Seq<char>>(e@),
        },
{
    miniz_oxide::inflate::decompress_to_vec(data).map_err(|e| e.to_string())
}

/// Calls `miniz_oxide::deflate::compress_to_vec`. What it writes, the crate's
/// `decompress_to_vec` reads back as the data it was given.
#[verifier::external_body]
pub(crate) fn deflate(data: &[u8], level: u8) -> (r: Vec<u8>)
    requires
        level <= 10,
    ensures
        r@ == deflated(data@, level),
        match inflated(r@) {
            Ok(d) => d == data@,
            Err(_) => false,
        },
{
    miniz_oxide::deflate::compress_to_vec(data, level)
}

/// The data of an entry whose stored bytes are `data`.
pub open spec fn decoded(method: u16, data: Seq<u8>) -> Result<Seq<u8>, ArchiveFault> {
    if method == 0 {
        Ok(data)
    } else if method == 8 {
        match inflated(data) {
            Ok(v) => Ok(v),
            Err(e) => Err(ArchiveFault::Corrupt("deflate decode failed: "@ + e)),
        }
    } else if method == 93 {
        Err(ArchiveFault::Unsupported("zstandard-compressed 3tz entries (method 93)"@))
    } else {
        Err(
            ArchiveFault::Unsupported(
                "zip compression method "@ + text::decimal_chars(method as nat),
            ),
        )
    }
}

/// The bytes that a fallible step returned.
pub open spec fn data_view(r: Result<Vec<u8>, ArchiveError>) -> Result<Seq<u8>, ArchiveFault> {
    match r {
        Ok(v) => Ok(v@),
        Err(e) => Err(e@),
    }
}

/// Decompresses the data of an entry: stored or DEFLATE.
pub fn decode_entry(method: u16, data: Vec<u8>) -> (r: Result<Vec<u8>, ArchiveError>)
    ensures
        data_view(r) == decoded(method, data@),
{
    if method == 0 {
        Ok(data)
    } else if method == 8 {
        match inflate(data.as_slice()) {
            Ok(v) => Ok(v),
            Err(e) => Err(
                ArchiveError::Corrupt(text::join2("deflate decode failed: ", e.as_str())),
            ),
        }
    } else if method == 93 {
        Err(unsupported("zstandard-compressed 3tz entries (method 93)"))
    } else {
        Err(
            ArchiveError::Unsupported(
                text::join2("zip compression method ", text::decimal(method as u64).as_str()),
            ),
        )
    }
}

} // verus!
