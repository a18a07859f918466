//! Writing a `.3tz` archive.
use crate::bytes::{le_bytes, push_le};
use crate::index3tz::{md5_of_path, normalize_path, normalized, path_hash, IndexRecord};
use crate::sorting;
use crate::sorting::stable_order;
use crate::zip::{deflate, deflated, index_name, index_name_bytes, sig};
use vstd::prelude::*;

verus! {

/// A file to be packed: its path, its data, and whether it is compressed.
pub struct Packed {
    pub path: Seq<char>,
    pub data: Seq<u8>,
    pub deflate: bool,
}

impl Packed {
    /// The name of the entry.
    pub open spec fn name(self) -> Seq<u8> {
        vstd::utf8::encode_utf8(normalized(self.path))
    }

    /// The bytes that are stored.
    pub open spec fn payload(self) -> Seq<u8> {
        if self.deflate {
            deflated(self.data, 6)
        } else {
            self.data
        }
    }

    pub open spec fn method(self) -> u16 {
        if self.deflate {
            8
        } else {
            0
        }
    }

    /// The entry: its local file header and the stored bytes.
    pub open spec fn entry(self) -> Seq<u8> {
        local_entry(self.name(), self.method(), self.payload(), self.data.len())
    }
}

/// The files of a call, as mathematical values.
pub open spec fn packed(files: Seq<(&str, &[u8], bool)>) -> Seq<Packed> {
    files.map_values(
        |f: (&str, &[u8], bool)| Packed { path: f.0@, data: f.1@, deflate: f.2 },
    )
}

/// The local file header up to the sizes.
pub open spec fn local_start(method: u16) -> Seq<u8> {
    sig(3, 4) + le_bytes(20, 2) + le_bytes(0, 2) + le_bytes(method as nat, 2) + le_bytes(0, 2)
        + le_bytes(0x2199, 2) + le_bytes(0, 4)
}

/// An entry of `name` that stores `payload`, with fixed times and no checksum.
#[verifier::opaque]
pub open spec fn local_entry(name: Seq<u8>, method: u16, payload: Seq<u8>, data_len: nat) -> Seq<u8> {
    local_start(method) + le_bytes(payload.len(), 4) + le_bytes(data_len, 4) + le_bytes(
        name.len(),
        2,
    ) + le_bytes(0, 2) + name + payload
}

/// The central directory's record of an entry.
#[verifier::opaque]
pub open spec fn central_entry(name: Seq<u8>, method: u16, comp_size: nat, offset: nat) -> Seq<u8> {
    sig(1, 2) + le_bytes(20, 2) + le_bytes(20, 2) + le_bytes(0, 2) + le_bytes(method as nat, 2)
        + le_bytes(0, 2) + le_bytes(0x2199, 2) + le_bytes(0, 4) + le_bytes(comp_size, 4)
        + le_bytes(0, 4) + le_bytes(name.len(), 2) + le_bytes(0, 2) + le_bytes(0, 2) + le_bytes(
        0,
        2,
    ) + le_bytes(0, 2) + le_bytes(0, 4) + le_bytes(offset, 4) + name
}

/// The end-of-central-directory record.
#[verifier::opaque]
pub open spec fn end_record(count: nat, cd_size: nat, cd_offset: nat, comment: Seq<u8>) -> Seq<u8> {
    sig(5, 6) + le_bytes(0, 2) + le_bytes(0, 2) + le_bytes(count, 2) + le_bytes(count, 2)
        + le_bytes(cd_size, 4) + le_bytes(cd_offset, 4) + le_bytes(comment.len(), 2) + comment
}

/// The entries of the files, one after the other.
pub open spec fn body(files: Seq<Packed>) -> Seq<u8>
    decreases files.len(),
{
    if files.len() == 0 {
        Seq::empty()
    } else {
        body(files.drop_last()) + files.last().entry()
    }
}

/// The central directory's records of the files.
pub open spec fn directory(files: Seq<Packed>) -> Seq<u8>
    decreases files.len(),
{
    if files.len() == 0 {
        Seq::empty()
    } else {
        let f = files.last();
        directory(files.drop_last()) + central_entry(
            f.name(),
            f.method(),
            f.payload().len(),
            body(files.drop_last()).len(),
        )
    }
}

/// The index records of the files, in the order of the files.
pub open spec fn records_of(files: Seq<Packed>) -> Seq<IndexRecord> {
    Seq::new(
        files.len(),
        |i: int|
            IndexRecord {
                hash: path_hash(normalized(files[i].path)),
                offset: body(files.take(i)).len() as u64,
            },
    )
}

/// The payload of the index.
pub open spec fn index_payload(records: Seq<IndexRecord>) -> Seq<u8>
    decreases records.len(),
{
    if records.len() == 0 {
        Seq::empty()
    } else {
        index_payload(records.drop_last()) + records.last().hash@ + le_bytes(
            records.last().offset as nat,
            8,
        )
    }
}

/// The payload of the index of the files.
pub open spec fn payload_for(files: Seq<Packed>) -> Seq<u8> {
    index_payload(stable_order(records_of(files)))
}

/// The index entry.
pub open spec fn index_entry(files: Seq<Packed>) -> Seq<u8> {
    local_entry(index_name(), 0, payload_for(files), payload_for(files).len())
}

/// The central directory, which ends with the record of the index.
pub open spec fn full_directory(files: Seq<Packed>) -> Seq<u8> {
    directory(files) + central_entry(
        index_name(),
        0,
        payload_for(files).len(),
        body(files).len(),
    )
}

/// The archive of the files.
pub open spec fn archive_of(files: Seq<Packed>, comment: Seq<u8>) -> Seq<u8> {
    let entries = body(files) + index_entry(files);
    let dir = full_directory(files);
    entries + dir + end_record(files.len() + 1, dir.len(), entries.len(), comment)
}

fn push_sig(out: &mut Vec<u8>, a: u8, b: u8)
    ensures
        final(out)@ == old(out)@ + sig(a, b),
{
    out.push(0x50);
    out.push(0x4B);
    out.push(a);
    out.push(b);
    assert(out@ =~= old(out)@ + sig(a, b));
}

fn push_bytes(out: &mut Vec<u8>, s: &[u8])
    ensures
        final(out)@ == old(out)@ + s@,
{
    out.extend_from_slice(s);
    assert(out@ =~= old(out)@ + s@);
}

fn push_local(out: &mut Vec<u8>, name: &[u8], method: u16, payload: &[u8], data_len: usize)
    ensures
        final(out)@ == old(out)@ + local_entry(name@, method, payload@, data_len as nat),
{
    proof {
        reveal(local_entry);
    }
    push_sig(out, 3, 4);
    push_le(out, 20, 2);
    push_le(out, 0, 2);
    push_le(out, method as u128, 2);
    push_le(out, 0, 2);
    push_le(out, 0x2199, 2);
    push_le(out, 0, 4);
    push_le(out, payload.len() as u128, 4);
    push_le(out, data_len as u128, 4);
    push_le(out, name.len() as u128, 2);
    push_le(out, 0, 2);
    push_bytes(out, name);
    push_bytes(out, payload);
    assert(out@ =~= old(out)@ + local_entry(name@, method, payload@, data_len as nat));
}

fn push_central(out: &mut Vec<u8>, name: &[u8], method: u16, comp_size: u64, offset: u64)
    ensures
        final(out)@ == old(out)@ + central_entry(name@, method, comp_size as nat, offset as nat),
{
    proof {
        reveal(central_entry);
    }
    push_sig(out, 1, 2);
    push_le(out, 20, 2);
    push_le(out, 20, 2);
    push_le(out, 0, 2);
    push_le(out, method as u128, 2);
    push_le(out, 0, 2);
    push_le(out, 0x2199, 2);
    push_le(out, 0, 4);
    push_le(out, comp_size as u128, 4);
    push_le(out, 0, 4);
    push_le(out, name.len() as u128, 2);
    push_le(out, 0, 2);
    push_le(out, 0, 2);
    push_le(out, 0, 2);
    push_le(out, 0, 2);
    push_le(out, 0, 4);
    push_le(out, offset as u128, 4);
    push_bytes(out, name);
    assert(out@ =~= old(out)@ + central_entry(name@, method, comp_size as nat, offset as nat));
}

fn push_end(out: &mut Vec<u8>, count: u128, cd_size: u64, cd_offset: u64, comment: &[u8])
    ensures
        final(out)@ == old(out)@ + end_record(
            count as nat,
            cd_size as nat,
            cd_offset as nat,
            comment@,
        ),
{
    proof {
        reveal(end_record);
    }
    push_sig(out, 5, 6);
    push_le(out, 0, 2);
    push_le(out, 0, 2);
    push_le(out, count, 2);
    push_le(out, count, 2);
    push_le(out, cd_size as u128, 4);
    push_le(out, cd_offset as u128, 4);
    push_le(out, comment.len() as u128, 2);
    push_bytes(out, comment);
    assert(out@ =~= old(out)@ + end_record(
        count as nat,
        cd_size as nat,
        cd_offset as nat,
        comment@,
    ));
}

/// What the central directory needs of an entry that was written.
struct Entered {
    name: Vec<u8>,
    method: u16,
    comp_size: u64,
    offset: u64,
}

fn payload_bytes(records: &Vec<IndexRecord>) -> (out: Vec<u8>)
    ensures
        out@ == index_payload(records@),
{
    let mut out: Vec<u8> = Vec::new();
    let mut i: usize = 0;
    while i < records.len()
        invariant
            i <= records@.len(),
            out@ == index_payload(records@.take(i as int)),
        decreases records@.len() - i,
    {
        let r = records[i];
        push_bytes(&mut out, r.hash.as_slice());
        push_le(&mut out, r.offset as u128, 8);
        i = i + 1;
        assert(records@.take(i as int).drop_last() =~= records@.take(i - 1));
    }
    assert(records@.take(i as int) =~= records@);
    out
}

/// The record of an entry of the files.
spec fn enters(c: Entered, files: Seq<Packed>, j: int) -> bool {
    &&& c.name@ == files[j].name()
    &&& c.method == files[j].method()
    &&& c.comp_size == files[j].payload().len()
    &&& c.offset == body(files.take(j)).len()
}

/// Writes the entries of the files, and returns what the central directory and
/// the index need of them.
fn push_files(out: &mut Vec<u8>, files: &[(&str, &[u8], bool)]) -> (r: (
    Vec<Entered>,
    Vec<IndexRecord>,
))
    requires
        old(out)@.len() == 0,
    ensures
        final(out)@ == body(packed(files@)),
        r.1@ == records_of(packed(files@)),
        forall|j: int|
            0 <= j < files@.len() ==> crate::archive_laws::inflates(#[trigger] packed(files@)[j]),
        r.0@.len() == files@.len(),
        forall|j: int| 0 <= j < files@.len() ==> enters(#[trigger] r.0@[j], packed(files@), j),
{
    let ghost fs = packed(files@);
    let mut central: Vec<Entered> = Vec::new();
    let mut records: Vec<IndexRecord> = Vec::new();
    let n: usize = files.len();
    let mut i: usize = 0;
    assert(out@ =~= body(fs.take(0)));
    while i < n
        invariant
            i <= n,
            n == files@.len(),
            fs == packed(files@),
            out@ == body(fs.take(i as int)),
            records@.len() == i,
            central@.len() == i,
            forall|j: int| 0 <= j < i ==> records@[j] == records_of(fs)[j],
            forall|j: int| 0 <= j < i ==> enters(#[trigger] central@[j], fs, j),
            forall|j: int| 0 <= j < i ==> crate::archive_laws::inflates(#[trigger] fs[j]),
        decreases n - i,
    {
        let (path, data, compress) = files[i];
        let name = normalize_path(path);
        let offset: u64 = out.len() as u64;
        let ghost f = fs[i as int];
        assert(f.path == path@ && f.data == data@ && f.deflate == compress);
        let payload = if compress {
            deflate(data, 6)
        } else {
            vstd::slice::slice_to_vec(data)
        };
        let method: u16 = if compress {
            8
        } else {
            0
        };
        push_local(out, name.as_str().as_bytes(), method, payload.as_slice(), data.len());
        records.push(IndexRecord { hash: md5_of_path(name.as_str()), offset });
        central.push(
            Entered {
                name: vstd::slice::slice_to_vec(name.as_str().as_bytes()),
                method,
                comp_size: payload.len() as u64,
                offset,
            },
        );
        i = i + 1;
        assert(fs.take(i as int).drop_last() =~= fs.take(i - 1));
        assert(fs.take(i as int).last() == f);
    }
    assert(fs.take(n as int) =~= fs);
    assert(records@ =~= records_of(fs));
    (central, records)
}

/// Writes the central directory's records of the files.
fn push_directory(out: &mut Vec<u8>, central: &Vec<Entered>, Ghost(fs): Ghost<Seq<Packed>>)
    requires
        forall|j: int| 0 <= j < fs.len() ==> enters(#[trigger] central@[j], fs, j),
        central@.len() == fs.len(),
    ensures
        final(out)@ == old(out)@ + directory(fs),
{
    let n: usize = central.len();
    let ghost entries = out@;
    let mut i: usize = 0;
    assert(out@ =~= entries + directory(fs.take(0)));
    while i < n
        invariant
            i <= n,
            n == fs.len(),
            central@.len() == n,
            out@ == entries + directory(fs.take(i as int)),
            forall|j: int| 0 <= j < n ==> enters(#[trigger] central@[j], fs, j),
        decreases n - i,
    {
        let c = &central[i];
        let ghost before = out@;
        push_central(out, c.name.as_slice(), c.method, c.comp_size, c.offset);
        i = i + 1;
        proof {
            let f = fs[i - 1];
            assert(enters(*c, fs, i - 1));
            assert(fs.take(i as int).drop_last() =~= fs.take(i - 1));
            assert(fs.take(i as int).last() == f);
            let e = central_entry(f.name(), f.method(), f.payload().len(), body(fs.take(i - 1)).len());
            assert(out@ == before + e);
            assert(entries + directory(fs.take(i - 1)) + e =~= entries + (directory(
                fs.take(i - 1),
            ) + e));
        }
    }
    assert(fs.take(n as int) =~= fs);
}

/// Builds an archive from files: their paths, their data, and whether each is
/// compressed. The same files give the same bytes. The index is the last entry;
/// `comment` ends the archive.
pub fn write_3tz(files: &[(&str, &[u8], bool)], comment: &[u8]) -> (out: Vec<u8>)
    ensures
        out@ == archive_of(packed(files@), comment@),
        crate::archive_laws::reads_back(packed(files@), comment@),
{
    let ghost fs = packed(files@);
    let mut out: Vec<u8> = Vec::new();
    let (central, records) = push_files(&mut out, files);
    let records = sorting::stable_sort(&records);
    let payload = payload_bytes(&records);
    let index_offset: u64 = out.len() as u64;
    let name = index_name_bytes();
    push_local(&mut out, name.as_slice(), 0, payload.as_slice(), payload.len());
    let cd_offset: usize = out.len();
    let ghost entries = out@;
    push_directory(&mut out, &central, Ghost(fs));
    push_central(&mut out, name.as_slice(), 0, payload.len() as u64, index_offset);
    assert(out@ =~= entries + full_directory(fs));
    let cd_size: u64 = (out.len() - cd_offset) as u64;
    let count: u128 = files.len() as u128 + 1;
    push_end(&mut out, count, cd_size, cd_offset as u64, comment);
    proof {
        crate::archive_laws::written_archives_read_back(fs, comment@);
    }
    out
}

} // verus!
