//! The index of a `.3tz` archive: hashes of paths and offsets of entries.
use crate::bytes::{le64, le_at, le_value};
use crate::sorting;
use crate::sorting::{rank_le, sorted, stable_order, Rank, Ranked};
use crate::text;
use crate::zip::{ArchiveError, ArchiveFault};
use md5::Digest;
use vstd::prelude::*;

verus! {

/// One record of the index.
#[derive(Debug, Clone, Copy, PartialEq, Eq)]
pub struct IndexRecord {
    pub hash: [u8; 16],
    /// Where the entry's local file header starts in the archive.
    pub offset: u64,
}

/// The first and the last eight bytes of a hash as little-endian numbers.
pub open spec fn sort_key(hash: Seq<u8>) -> (u64, u64) {
    (le_at(hash, 0, 8) as u64, le_at(hash, 8, 8) as u64)
}

/// The key by which the index is sorted: the hash as two little-endian numbers,
/// the first eight bytes compared first.
pub fn hash_sort_key(hash: &[u8; 16]) -> (r: (u64, u64))
    ensures
        r == sort_key(hash@),
{
    let s: &[u8] = hash.as_slice();
    (le64(s, 0), le64(s, 8))
}

impl Ranked for IndexRecord {
    open spec fn rank(self) -> Rank {
        let k = sort_key(self.hash@);
        (k.0, k.1, 0, 0, 0)
    }

    fn get_rank(&self) -> (r: Rank) {
        let k = hash_sort_key(&self.hash);
        (k.0, k.1, 0, 0, 0)
    }
}

/// A path with backslashes as slashes.
pub open spec fn slashed(path: Seq<char>) -> Seq<char> {
    path.map_values(|c: char| if c == '\\' { '/' } else { c })
}

/// A path as it is hashed: backslashes are slashes, leading slashes are gone.
pub open spec fn normalized(path: Seq<char>) -> Seq<char> {
    text::trim_start(slashed(path), '/')
}

/// Normalizes an archive path: backslashes become slashes, leading slashes go.
pub fn normalize_path(path: &str) -> (r: String)
    ensures
        r@ == normalized(path@),
{
    let chars = text::chars_of(path);
    let mut out: Vec<char> = Vec::new();
    let mut i: usize = 0;
    while i < chars.len()
        invariant
            i <= chars@.len(),
            out@.len() == i,
            forall|j: int|
                0 <= j < i ==> out@[j] == if chars@[j] == '\\' {
                    '/'
                } else {
                    chars@[j]
                },
        decreases chars@.len() - i,
    {
        let c = chars[i];
        if c == '\\' {
            out.push('/');
        } else {
            out.push(c);
        }
        i = i + 1;
    }
    assert(out@ =~= slashed(path@));
    let lo: usize = text::run_end(&out, 0, '/');
    assert(out@.subrange(0, out@.len() as int) =~= out@);
    text::string_of(&out, lo, out.len())
}

proof fn lemma_trim_start(s: Seq<char>)
    ensures
        text::trim_start(s, '/').len() <= s.len(),
        text::trim_start(s, '/').len() > 0 ==> text::trim_start(s, '/')[0] != '/',
        (forall|i: int| 0 <= i < s.len() ==> s[i] != '\\') ==> forall|i: int|
            0 <= i < text::trim_start(s, '/').len() ==> text::trim_start(s, '/')[i] != '\\',
    decreases s.len(),
{
    if s.len() > 0 && s[0] == '/' {
        lemma_trim_start(s.drop_first());
    }
}

/// Normalizing a path twice changes nothing more.
pub proof fn normalizing_is_idempotent(path: Seq<char>)
    ensures
        normalized(normalized(path)) == normalized(path),
{
    let n = normalized(path);
    lemma_trim_start(slashed(path));
    assert(slashed(n) =~= n);
}

/// What `md5::Md5::digest` returns for data.
pub uninterp spec fn md5_of(data: Seq<u8>) -> [u8; 16];

/// Calls `md5::Md5::digest`.
#[verifier::external_body]
fn md5(data: &[u8]) -> (r: [u8; 16])
    ensures
        r == md5_of(data@),
{
    md5::Md5::digest(data).into()
}

/// The hash of a normalized path.
pub open spec fn path_hash(path: Seq<char>) -> [u8; 16] {
    md5_of(vstd::utf8::encode_utf8(path))
}

/// The MD5 hash of a normalized archive path.
pub fn md5_of_path(normalized: &str) -> (r: [u8; 16])
    ensures
        r == path_hash(normalized@),
{
    md5(normalized.as_bytes())
}

/// The hash with the given bytes.
pub open spec fn hash_with(s: Seq<u8>) -> [u8; 16] {
    choose|h: [u8; 16]| h@ == s
}

/// The `i`th record of an index payload.
pub open spec fn raw_record(b: Seq<u8>, i: int) -> IndexRecord {
    IndexRecord {
        hash: hash_with(b.subrange(24 * i, 24 * i + 16)),
        offset: le_at(b, 24 * i + 16, 8) as u64,
    }
}

/// The records of an index payload, as they stand.
pub open spec fn raw_records(b: Seq<u8>) -> Seq<IndexRecord> {
    Seq::new((b.len() / 24) as nat, |i: int| raw_record(b, i))
}

/// The records of an index payload, sorted.
pub open spec fn index_of(b: Seq<u8>) -> Result<Seq<IndexRecord>, ArchiveFault> {
    if b.len() % 24 != 0 {
        Err(
            ArchiveFault::Corrupt(
                "index payload length "@ + text::decimal_chars(b.len()) + " not a multiple of 24"@,
            ),
        )
    } else {
        Ok(stable_order(raw_records(b)))
    }
}

/// The offsets of the records with hash `h`, in order.
pub open spec fn hits(records: Seq<IndexRecord>, h: [u8; 16]) -> Seq<u64>
    decreases records.len(),
{
    if records.len() == 0 {
        Seq::empty()
    } else if records.last().hash == h {
        hits(records.drop_last(), h).push(records.last().offset)
    } else {
        hits(records.drop_last(), h)
    }
}

/// The index of an archive, sorted by the hashes.
#[derive(Debug)]
pub struct Index3tz {
    records: Vec<IndexRecord>,
}

fn hash_at(b: &[u8], at: usize) -> (h: [u8; 16])
    requires
        at + 16 <= b@.len(),
    ensures
        h@ == b@.subrange(at as int, at + 16),
        h == hash_with(b@.subrange(at as int, at + 16)),
{
    let n: usize = b.len();
    let h: [u8; 16] = [
        b[at], b[at + 1], b[at + 2], b[at + 3], b[at + 4], b[at + 5], b[at + 6], b[at + 7],
        b[at + 8], b[at + 9], b[at + 10], b[at + 11], b[at + 12], b[at + 13], b[at + 14],
        b[at + 15],
    ];
    assert(h@ =~= b@.subrange(at as int, at + 16));
    proof {
        lemma_hash_with(h);
    }
    h
}

/// A hash is determined by its bytes.
pub proof fn lemma_hash_with(h: [u8; 16])
    ensures
        hash_with(h@) == h,
{
    let g = hash_with(h@);
    assert(g@ == h@);
    assert forall|i: int| 0 <= i < 16 implies g[i] == h[i] by {
        assert(g@[i] == h@[i]);
    }
    assert(g =~= h);
}

proof fn lemma_le_value_injective(a: Seq<u8>, b: Seq<u8>)
    requires
        a.len() == b.len(),
        le_value(a) == le_value(b),
    ensures
        a == b,
    decreases a.len(),
{
    if a.len() > 0 {
        lemma_le_value_injective(a.drop_first(), b.drop_first());
        assert(a =~= seq![a[0]] + a.drop_first());
        assert(b =~= seq![b[0]] + b.drop_first());
    } else {
        assert(a =~= b);
    }
}

/// Two hashes with the same sort key are the same.
pub proof fn lemma_sort_key_injective(g: [u8; 16], h: [u8; 16])
    requires
        sort_key(g@) == sort_key(h@),
    ensures
        g == h,
{
    crate::bytes::lemma_pow256_values();
    crate::bytes::lemma_le_value_bound(g@.subrange(0, 8));
    crate::bytes::lemma_le_value_bound(g@.subrange(8, 16));
    crate::bytes::lemma_le_value_bound(h@.subrange(0, 8));
    crate::bytes::lemma_le_value_bound(h@.subrange(8, 16));
    lemma_le_value_injective(g@.subrange(0, 8), h@.subrange(0, 8));
    lemma_le_value_injective(g@.subrange(8, 16), h@.subrange(8, 16));
    assert(g@ =~= g@.subrange(0, 8) + g@.subrange(8, 16));
    assert(h@ =~= h@.subrange(0, 8) + h@.subrange(8, 16));
    lemma_hash_with(g);
    lemma_hash_with(h);
}

pub proof fn lemma_hits_none(s: Seq<IndexRecord>, h: [u8; 16])
    requires
        forall|i: int| 0 <= i < s.len() ==> (#[trigger] s[i]).hash != h,
    ensures
        hits(s, h) == Seq::<u64>::empty(),
    decreases s.len(),
{
    if s.len() > 0 {
        assert(s.last() == s[s.len() - 1]);
        assert forall|i: int| 0 <= i < s.drop_last().len() implies (#[trigger] s.drop_last()[i]).hash
            != h by {
            assert(s.drop_last()[i] == s[i]);
        }
        lemma_hits_none(s.drop_last(), h);
    }
}

pub proof fn lemma_hits_add(a: Seq<IndexRecord>, b: Seq<IndexRecord>, h: [u8; 16])
    ensures
        hits(a + b, h) == hits(a, h) + hits(b, h),
    decreases b.len(),
{
    if b.len() == 0 {
        assert(a + b =~= a);
        assert(hits(a, h) + hits(b, h) =~= hits(a, h));
    } else {
        assert((a + b).drop_last() =~= a + b.drop_last());
        lemma_hits_add(a, b.drop_last(), h);
        assert(hits(a + b, h) =~= hits(a, h) + hits(b, h));
    }
}

impl Index3tz {
    /// The records, sorted.
    pub closed spec fn records(self) -> Seq<IndexRecord> {
        self.records@
    }

    /// The records stand in the order of their hashes.
    pub open spec fn wf(self) -> bool {
        sorted(self.records())
    }

    /// What a fallible step returned.
    pub open spec fn outcome(r: Result<Index3tz, ArchiveError>) -> Result<
        Seq<IndexRecord>,
        ArchiveFault,
    > {
        match r {
            Ok(i) => Ok(i.records()),
            Err(e) => Err(e@),
        }
    }

    /// Parses an index payload. Records out of order are sorted.
    pub fn parse(bytes: &[u8]) -> (r: Result<Self, ArchiveError>)
        ensures
            Self::outcome(r) == index_of(bytes@),
            r matches Ok(i) ==> i.wf(),
    {
        let n: usize = bytes.len();
        if n % 24 != 0 {
            return Err(
                ArchiveError::Corrupt(
                    text::join3(
                        "index payload length ",
                        text::decimal(n as u64).as_str(),
                        " not a multiple of 24",
                    ),
                ),
            );
        }
        let count: usize = n / 24;
        let mut records: Vec<IndexRecord> = Vec::new();
        let mut i: usize = 0;
        while i < count
            invariant
                i <= count,
                n == bytes@.len(),
                count * 24 == n,
                records@.len() == i,
                forall|j: int| 0 <= j < i ==> records@[j] == raw_record(bytes@, j),
            decreases count - i,
        {
            let at: usize = 24 * i;
            records.push(IndexRecord { hash: hash_at(bytes, at), offset: le64(bytes, at + 16) });
            i = i + 1;
        }
        assert(records@ =~= raw_records(bytes@));
        if sorting::is_sorted(&records) {
            return Ok(Index3tz { records });
        }
        let records = sorting::stable_sort(&records);
        Ok(Index3tz { records })
    }

    pub fn len(&self) -> (n: usize)
        ensures
            n == self.records().len(),
    {
        self.records.len()
    }

    pub fn is_empty(&self) -> (r: bool)
        ensures
            r == (self.records().len() == 0),
    {
        self.records.len() == 0
    }

    /// The `i`th record.
    pub fn record(&self, i: usize) -> (r: IndexRecord)
        requires
            i < self.records().len(),
        ensures
            r == self.records()[i as int],
    {
        self.records[i]
    }

    /// Where the records with a key of at least `key` start.
    fn partition(&self, key: (u64, u64)) -> (at: usize)
        requires
            self.wf(),
        ensures
            at <= self.records().len(),
            forall|i: int| 0 <= i < at ==> !rank_le((key.0, key.1, 0, 0, 0), (
            #[trigger] self.records()[i]).rank()),
            forall|i: int| at <= i < self.records().len() ==> rank_le((key.0, key.1, 0, 0, 0), (
            #[trigger] self.records()[i]).rank()),
    {
        let ghost k: Rank = (key.0, key.1, 0, 0, 0);
        let mut lo: usize = 0;
        let mut hi: usize = self.records.len();
        while lo < hi
            invariant
                lo <= hi <= self.records@.len(),
                sorted(self.records@),
                k == (key.0, key.1, 0u64, 0u64, 0u64),
                forall|i: int| 0 <= i < lo ==> !rank_le(k, (#[trigger] self.records@[i]).rank()),
                forall|i: int|
                    hi <= i < self.records@.len() ==> rank_le(
                        k,
                        (#[trigger] self.records@[i]).rank(),
                    ),
            decreases hi - lo,
        {
            let mid: usize = lo + (hi - lo) / 2;
            let m = hash_sort_key(&self.records[mid].hash);
            if m.0 < key.0 || (m.0 == key.0 && m.1 < key.1) {
                assert forall|i: int| 0 <= i <= mid implies !rank_le(
                    k,
                    (#[trigger] self.records@[i]).rank(),
                ) by {
                    if i < mid {
                        assert(rank_le(self.records@[i].rank(), self.records@[mid as int].rank()));
                    }
                }
                lo = mid + 1;
            } else {
                assert forall|i: int| mid <= i < self.records@.len() implies rank_le(
                    k,
                    (#[trigger] self.records@[i]).rank(),
                ) by {
                    if mid < i {
                        assert(rank_le(self.records@[mid as int].rank(), self.records@[i].rank()));
                    }
                }
                hi = mid;
            }
        }
        lo
    }

    /// The offsets of all entries whose path has the hash `hash`: adjacent in
    /// the index, and almost always none or one.
    pub fn lookup_hash(&self, hash: &[u8; 16]) -> (r: Vec<u64>)
        requires
            self.wf(),
        ensures
            r@ == hits(self.records(), *hash),
    {
        let key = hash_sort_key(hash);
        let ghost k: Rank = (key.0, key.1, 0, 0, 0);
        let start: usize = self.partition(key);
        let mut i: usize = start;
        let mut out: Vec<u64> = Vec::new();
        proof {
            let head = self.records@.take(start as int);
            assert forall|j: int| 0 <= j < head.len() implies (#[trigger] head[j]).hash != *hash by {
                assert(head[j] == self.records@[j]);
                assert(!rank_le(k, self.records@[j].rank()));
            }
            lemma_hits_none(head, *hash);
        }
        while i < self.records.len() && crate::text::same_bytes(
            self.records[i].hash.as_slice(),
            hash.as_slice(),
        )
            invariant
                start <= i <= self.records@.len(),
                out@ == hits(self.records@.take(i as int), *hash),
            decreases self.records@.len() - i,
        {
            proof {
                lemma_hash_with(*hash);
                lemma_hash_with(self.records@[i as int].hash);
                assert(self.records@.take(i + 1).drop_last() =~= self.records@.take(i as int));
            }
            out.push(self.records[i].offset);
            i = i + 1;
        }
        proof {
            let tail = self.records@.skip(i as int);
            assert(self.records@ =~= self.records@.take(i as int) + tail);
            lemma_hits_add(self.records@.take(i as int), tail, *hash);
            assert forall|j: int| 0 <= j < tail.len() implies (#[trigger] tail[j]).hash != *hash by {
                let first = self.records@[i as int];
                assert(tail[j] == self.records@[i + j]);
                assert(rank_le(k, first.rank()));
                assert(first.hash != *hash);
                if first.rank() == k {
                    lemma_sort_key_injective(first.hash, *hash);
                }
                if j > 0 {
                    assert(rank_le(first.rank(), self.records@[i + j].rank()));
                }
            }
            lemma_hits_none(tail, *hash);
            assert(out@ + Seq::<u64>::empty() =~= out@);
        }
        out
    }

    /// The offsets of all entries that may have the path: those whose record
    /// holds its hash. The name in the local file header decides.
    pub fn lookup(&self, normalized_path: &str) -> (r: Vec<u64>)
        requires
            self.wf(),
        ensures
            r@ == hits(self.records(), path_hash(normalized_path@)),
    {
        let hash = md5_of_path(normalized_path);
        self.lookup_hash(&hash)
    }

    /// The offsets of the records, in the order of the index.
    pub fn offsets(&self) -> (r: Vec<u64>)
        ensures
            r@ == offsets_of(self.records()),
    {
        let mut out: Vec<u64> = Vec::new();
        let mut i: usize = 0;
        while i < self.records.len()
            invariant
                i <= self.records@.len(),
                out@ == offsets_of(self.records@.take(i as int)),
            decreases self.records@.len() - i,
        {
            out.push(self.records[i].offset);
            i = i + 1;
            assert(out@ =~= offsets_of(self.records@.take(i as int)));
        }
        assert(self.records@.take(i as int) =~= self.records@);
        out
    }
}

/// The offsets of records, in their order.
pub open spec fn offsets_of(records: Seq<IndexRecord>) -> Seq<u64> {
    records.map_values(|r: IndexRecord| r.offset)
}

/// A lookup returns exactly the offsets of the records with the hash: each
/// result is one, and each such record is in the result.
pub proof fn hits_are_exact(records: Seq<IndexRecord>, h: [u8; 16], offset: u64)
    ensures
        hits(records, h).contains(offset) <==> records.contains(
            IndexRecord { hash: h, offset },
        ),
    decreases records.len(),
{
    if records.len() > 0 {
        let rest = records.drop_last();
        hits_are_exact(rest, h, offset);
        let r = IndexRecord { hash: h, offset };
        assert(records =~= rest.push(records.last()));
        assert(records.contains(r) <==> rest.contains(r) || records.last() == r) by {
            if rest.contains(r) {
                let i = choose|i: int| 0 <= i < rest.len() && rest[i] == r;
                assert(records[i] == r);
            }
            if records.last() == r {
                assert(records[records.len() - 1] == r);
            }
            if records.contains(r) && records.last() != r {
                let i = choose|i: int| 0 <= i < records.len() && records[i] == r;
                assert(rest[i] == r);
            }
        }
        let hr = hits(rest, h);
        if records.last().hash == h {
            let all = hr.push(records.last().offset);
            assert(all.contains(offset) <==> hr.contains(offset) || records.last().offset == offset)
                by {
                if hr.contains(offset) {
                    let i = choose|i: int| 0 <= i < hr.len() && hr[i] == offset;
                    assert(all[i] == offset);
                }
                if records.last().offset == offset {
                    assert(all[hr.len() as int] == offset);
                }
                if all.contains(offset) && records.last().offset != offset {
                    let i = choose|i: int| 0 <= i < all.len() && all[i] == offset;
                    assert(hr[i] == offset);
                }
            }
        }
    }
}

} // verus!
