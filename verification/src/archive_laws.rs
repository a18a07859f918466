//! What reading gives back of an archive that was written.
use crate::archive::{
    archive_in, ask_entry, begun, bounds_found, entry_in, entry_rank, entry_run, held, index_found,
    is_next, open_begun, open_resumed, open_run, opened, prefix, reading_ends, resumed, span,
    suffix, visit, EntryOutcome, EntryState, Model, OpenOutcome, OpenPhase, Phase, LFH_OVERFETCH,
    MAX_ENTRY_SPAN, OPEN_HEAD_BYTES, OPEN_TAIL_BYTES,
};
use crate::archive_write::{
    archive_of, body, central_entry, directory, end_record, full_directory, index_entry,
    index_payload, local_entry, local_start, payload_for, records_of, Packed,
};
use crate::bytes::{
    le_at, le_bytes, le_bytes_read_back, le_value, lemma_le_bytes_len, lemma_pow256_values,
};
use crate::fetch;
use crate::index3tz::{
    hits, lemma_hash_with, lemma_hits_add, lemma_sort_key_injective, normalized, offsets_of,
    path_hash, raw_record, raw_records, sort_key, IndexRecord,
};
use crate::sorting::{of_rank, sorted, stable_order, stably_sorted, Rank, Ranked};
use crate::zip::{
    decoded, eocd_at, eocd_of, header_of, index_cd_at, index_cd_of, index_name, inflated, last_eocd,
    sig, sig_at, ArchiveFault, Header, IndexCdEntry,
};
use vstd::prelude::*;

verus! {

proof fn lemma_le2(v: nat)
    requires
        v <= 0xFFFF,
    ensures
        le_value(le_bytes(v, 2)) == v,
        le_bytes(v, 2).len() == 2,
{
    lemma_pow256_values();
    le_bytes_read_back(v, 2);
}

proof fn lemma_le4(v: nat)
    requires
        v <= 0xFFFF_FFFF,
    ensures
        le_value(le_bytes(v, 4)) == v,
        le_bytes(v, 4).len() == 4,
{
    lemma_pow256_values();
    le_bytes_read_back(v, 4);
}

/// The fields of an entry that was written.
proof fn lemma_local_entry(name: Seq<u8>, method: u16, payload: Seq<u8>, data_len: nat)
    requires
        name.len() <= 0xFFFF,
        payload.len() < 0xFFFF_FFFF,
    ensures
        ({
            let e = local_entry(name, method, payload, data_len);
            let n = name.len() as int;
            &&& e.len() == 30 + n + payload.len()
            &&& sig_at(e, 0, 3, 4)
            &&& le_at(e, 6, 2) == 0
            &&& le_at(e, 8, 2) == method
            &&& le_at(e, 18, 4) == payload.len()
            &&& le_at(e, 26, 2) == n
            &&& le_at(e, 28, 2) == 0
            &&& e.subrange(30, 30 + n) == name
            &&& e.subrange(30 + n, e.len() as int) == payload
        }),
{
    reveal(local_entry);
    let e = local_entry(name, method, payload, data_len);
    let n = name.len() as int;
    lemma_le2(20);
    lemma_le2(0);
    lemma_le2(method as nat);
    lemma_le2(0x2199);
    lemma_le4(0);
    lemma_le4(payload.len());
    lemma_le_bytes_len(data_len, 4);
    lemma_le2(name.len());
    assert(local_start(method).len() == 18);
    assert(e.subrange(0, 4) =~= sig(3, 4));
    assert(e.subrange(6, 8) =~= le_bytes(0, 2));
    assert(e.subrange(8, 10) =~= le_bytes(method as nat, 2));
    assert(e.subrange(18, 22) =~= le_bytes(payload.len(), 4));
    assert(e.subrange(26, 28) =~= le_bytes(name.len(), 2));
    assert(e.subrange(28, 30) =~= le_bytes(0, 2));
    assert(e.subrange(30, 30 + n) =~= name);
    assert(e.subrange(30 + n, e.len() as int) =~= payload);
}

/// The header of an entry that was written.
spec fn header_for(name: Seq<u8>, method: u16, payload: Seq<u8>) -> Header {
    Header {
        method,
        comp_size: Some(payload.len() as u64),
        name,
        data_rel: (30 + name.len()) as u64,
    }
}

/// A window of an archive that starts at an entry: it shows the entry's header,
/// and its data where it reaches that far.
proof fn lemma_window(b: Seq<u8>, at: int, len: int, name: Seq<u8>, method: u16, payload: Seq<u8>, data_len: nat)
    requires
        name.len() <= 0xFFFF,
        payload.len() < 0xFFFF_FFFF,
        0 <= at,
        0 <= len,
        at + len <= b.len(),
        at + 30 + name.len() + payload.len() <= b.len(),
        b.subrange(at, at + 30 + name.len() + payload.len()) == local_entry(
            name,
            method,
            payload,
            data_len,
        ),
    ensures
        ({
            let w = b.subrange(at, at + len);
            let h = header_for(name, method, payload);
            &&& len >= 30 + name.len() ==> header_of(w) == Ok::<Header, ArchiveFault>(h)
            &&& len < 30 + name.len() ==> header_of(w) is Err
            &&& len >= 30 + name.len() + payload.len() ==> held(h, w) == Some(payload)
            &&& len < 30 + name.len() + payload.len() ==> held(h, w) is None
        }),
{
    let e = local_entry(name, method, payload, data_len);
    let w = b.subrange(at, at + len);
    let n = name.len() as int;
    lemma_local_entry(name, method, payload, data_len);
    if len >= 30 {
        assert(w.subrange(0, 4) =~= e.subrange(0, 4));
        assert(w.subrange(6, 8) =~= e.subrange(6, 8));
        assert(w.subrange(8, 10) =~= e.subrange(8, 10));
        assert(w.subrange(18, 22) =~= e.subrange(18, 22));
        assert(w.subrange(26, 28) =~= e.subrange(26, 28));
        assert(w.subrange(28, 30) =~= e.subrange(28, 30));
        assert(0u16 & 8 == 0) by (bit_vector);
    }
    if len >= 30 + n {
        assert(w.subrange(30, 30 + n) =~= name);
    }
    if len >= 30 + n + payload.len() {
        assert(w.subrange(30 + n, 30 + n + payload.len()) =~= payload);
    }
}

/// The fields of the index's record in the central directory.
proof fn lemma_central_entry(comp_size: nat, offset: nat)
    requires
        comp_size < 0xFFFF_FFFF,
        offset < 0xFFFF_FFFF,
    ensures
        ({
            let c = central_entry(index_name(), 0, comp_size, offset);
            &&& c.len() == 61
            &&& sig_at(c, 0, 1, 2)
            &&& le_at(c, 10, 2) == 0
            &&& le_at(c, 20, 4) == comp_size
            &&& le_at(c, 24, 4) == 0
            &&& le_at(c, 28, 2) == 15
            &&& le_at(c, 30, 2) == 0
            &&& le_at(c, 32, 2) == 0
            &&& le_at(c, 42, 4) == offset
            &&& c.subrange(46, 61) == index_name()
        }),
{
    reveal(central_entry);
    let c = central_entry(index_name(), 0, comp_size, offset);
    lemma_le2(20);
    lemma_le2(0);
    lemma_le2(0x2199);
    lemma_le4(0);
    lemma_le4(comp_size);
    lemma_le2(15);
    lemma_le4(offset);
    assert(c.subrange(0, 4) =~= sig(1, 2));
    assert(c.subrange(10, 12) =~= le_bytes(0, 2));
    assert(c.subrange(20, 24) =~= le_bytes(comp_size, 4));
    assert(c.subrange(24, 28) =~= le_bytes(0, 4));
    assert(c.subrange(28, 30) =~= le_bytes(15, 2));
    assert(c.subrange(30, 32) =~= le_bytes(0, 2));
    assert(c.subrange(32, 34) =~= le_bytes(0, 2));
    assert(c.subrange(42, 46) =~= le_bytes(offset, 4));
    assert(c.subrange(46, 61) =~= index_name());
}

/// The fields of the end-of-central-directory record.
proof fn lemma_end_record(count: nat, cd_size: nat, cd_offset: nat, comment: Seq<u8>)
    requires
        cd_size < 0xFFFF_FFFF,
        cd_offset < 0xFFFF_FFFF,
        comment.len() <= 0xFFFF,
    ensures
        ({
            let r = end_record(count, cd_size, cd_offset, comment);
            &&& r.len() == 22 + comment.len()
            &&& sig_at(r, 0, 5, 6)
            &&& le_at(r, 12, 4) == cd_size
            &&& le_at(r, 16, 4) == cd_offset
            &&& le_at(r, 20, 2) == comment.len()
        }),
{
    reveal(end_record);
    let r = end_record(count, cd_size, cd_offset, comment);
    lemma_le2(0);
    lemma_le_bytes_len(count, 2);
    lemma_le4(cd_size);
    lemma_le4(cd_offset);
    lemma_le2(comment.len());
    assert(r.subrange(0, 4) =~= sig(5, 6));
    assert(r.subrange(12, 16) =~= le_bytes(cd_size, 4));
    assert(r.subrange(16, 20) =~= le_bytes(cd_offset, 4));
    assert(r.subrange(20, 22) =~= le_bytes(comment.len(), 2));
}

/// A buffer that ends, `end` bytes in, with the index's record shows it.
proof fn lemma_index_cd(b: Seq<u8>, buf_abs: u64, end_abs: u64, comp_size: nat, offset: nat)
    requires
        comp_size < 0xFFFF_FFFF,
        offset < 0xFFFF_FFFF,
        buf_abs + 61 <= end_abs,
        end_abs - buf_abs <= b.len(),
        b.subrange(end_abs - buf_abs - 61, end_abs - buf_abs) == central_entry(
            index_name(),
            0,
            comp_size,
            offset,
        ),
    ensures
        index_cd_of(b, buf_abs, end_abs) == Ok::<IndexCdEntry, ArchiveFault>(
            IndexCdEntry { method: 0, comp_size: comp_size as u64, local_offset: offset as u64 },
        ),
{
    let c = central_entry(index_name(), 0, comp_size, offset);
    let end = end_abs - buf_abs;
    let pos = end - 61;
    lemma_central_entry(comp_size, offset);
    assert(b.subrange(pos, pos + 4) =~= c.subrange(0, 4));
    assert(b.subrange(pos + 10, pos + 12) =~= c.subrange(10, 12));
    assert(b.subrange(pos + 20, pos + 24) =~= c.subrange(20, 24));
    assert(b.subrange(pos + 24, pos + 28) =~= c.subrange(24, 28));
    assert(b.subrange(pos + 28, pos + 30) =~= c.subrange(28, 30));
    assert(b.subrange(pos + 30, pos + 32) =~= c.subrange(30, 32));
    assert(b.subrange(pos + 32, pos + 34) =~= c.subrange(32, 34));
    assert(b.subrange(pos + 42, pos + 46) =~= c.subrange(42, 46));
    assert(b.subrange(pos + 46, pos + 61) =~= c.subrange(46, 61));
    assert(index_cd_at(b, end, pos));
}

/// The last record with the right end is found, wherever the scan starts.
proof fn lemma_last_eocd(t: Seq<u8>, pos: int, from: int)
    requires
        0 <= pos <= from,
        eocd_at(t, pos),
        forall|p: int| pos < p <= from ==> !eocd_at(t, p),
    ensures
        last_eocd(t, from) == Some(pos),
    decreases from,
{
    if from > pos {
        lemma_last_eocd(t, pos, from - 1);
    }
}

/// An index payload holds its records.
proof fn lemma_index_payload(r: Seq<IndexRecord>)
    ensures
        index_payload(r).len() == 24 * r.len(),
        raw_records(index_payload(r)) == r,
    decreases r.len(),
{
    let p = index_payload(r);
    if r.len() == 0 {
        assert(raw_records(p) =~= r);
    } else {
        let rest = r.drop_last();
        let q = index_payload(rest);
        let last = r.last();
        lemma_index_payload(rest);
        lemma_pow256_values();
        le_bytes_read_back(last.offset as nat, 8);
        let m = rest.len() as int;
        assert(p.len() == 24 * r.len());
        assert forall|i: int| 0 <= i < r.len() implies raw_record(p, i) == r[i] by {
            if i < m {
                assert(p.subrange(24 * i, 24 * i + 16) =~= q.subrange(24 * i, 24 * i + 16));
                assert(p.subrange(24 * i + 16, 24 * i + 24) =~= q.subrange(
                    24 * i + 16,
                    24 * i + 24,
                ));
                assert(raw_records(q)[i] == raw_record(q, i));
                assert(rest[i] == r[i]);
            } else {
                assert(p.subrange(24 * i, 24 * i + 16) =~= last.hash@);
                assert(p.subrange(24 * i + 16, 24 * i + 24) =~= le_bytes(last.offset as nat, 8));
                lemma_hash_with(last.hash);
            }
        }
        assert(raw_records(p) =~= r);
    }
}

/// There is no second end-of-central-directory record in the comment: none
/// starts past the real one and ends where the archive ends.
pub open spec fn comment_is_plain(files: Seq<Packed>, comment: Seq<u8>) -> bool {
    let b = archive_of(files, comment);
    forall|p: int| b.len() - 22 - comment.len() < p <= b.len() - 22 ==> !eocd_at(b, p)
}

/// The archive of the files fits the format: its size and the lengths of its
/// names and of its comment fit their fields.
pub open spec fn fits(files: Seq<Packed>, comment: Seq<u8>) -> bool {
    &&& archive_of(files, comment).len() < 0xFFFF_FFFF
    &&& comment.len() <= 0xFFFF
    &&& forall|i: int| 0 <= i < files.len() ==> (#[trigger] files[i]).name().len() <= 0xFFFF
}

/// The archive of the files, opened.
pub open spec fn model_of(files: Seq<Packed>, comment: Seq<u8>) -> Model {
    let b = archive_of(files, comment);
    let records = stable_order(records_of(files));
    Model {
        size: b.len() as u64,
        records,
        head: prefix(b, OPEN_HEAD_BYTES),
        offsets: stable_order(offsets_of(records).push(body(files).len() as u64)),
    }
}

/// What the parts of an archive are, and where they stand.
proof fn lemma_layout(files: Seq<Packed>, comment: Seq<u8>)
    requires
        fits(files, comment),
    ensures
        ({
            let b = archive_of(files, comment);
            let l = body(files).len() as int;
            let p = payload_for(files);
            let c = l + 45 + p.len();
            let d = full_directory(files).len() as int;
            &&& p.len() < 0xFFFF_FFFF
            &&& d >= 61
            &&& b.len() == c + d + 22 + comment.len()
            &&& b.subrange(0, l) == body(files)
            &&& b.subrange(l, c) == index_entry(files)
            &&& b.subrange(c + d - 61, c + d) == central_entry(index_name(), 0, p.len(), l as nat)
            &&& sig_at(b, c + d, 5, 6)
            &&& le_at(b, c + d + 12, 4) == d
            &&& le_at(b, c + d + 16, 4) == c
            &&& le_at(b, c + d + 20, 2) == comment.len()
        }),
{
    let b = archive_of(files, comment);
    let l = body(files).len() as int;
    let p = payload_for(files);
    let entries = body(files) + index_entry(files);
    let dir = full_directory(files);
    let last = central_entry(index_name(), 0, p.len(), l as nat);
    let end = end_record(files.len() + 1, dir.len(), entries.len(), comment);
    assert(index_entry(files).len() >= p.len()) by {
        reveal(local_entry);
    }
    lemma_local_entry(index_name(), 0, p, p.len());
    lemma_central_entry(p.len(), l as nat);
    lemma_end_record(files.len() + 1, dir.len(), entries.len(), comment);
    let c = entries.len() as int;
    let d = dir.len() as int;
    assert(b.subrange(0, l) =~= body(files));
    assert(b.subrange(l, c) =~= index_entry(files));
    assert(b.subrange(c + d - 61, c + d) =~= last);
    assert(b.subrange(c + d, c + d + 4) =~= end.subrange(0, 4));
    assert(b.subrange(c + d + 12, c + d + 16) =~= end.subrange(12, 16));
    assert(b.subrange(c + d + 16, c + d + 20) =~= end.subrange(16, 20));
    assert(b.subrange(c + d + 20, c + d + 22) =~= end.subrange(20, 22));
}

/// The end-of-central-directory record of an archive is found in its tail.
proof fn lemma_eocd_found(files: Seq<Packed>, comment: Seq<u8>)
    requires
        fits(files, comment),
        comment_is_plain(files, comment),
    ensures
        ({
            let b = archive_of(files, comment);
            let t = suffix(b, OPEN_TAIL_BYTES);
            let c = body(files).len() + 45 + payload_for(files).len();
            let d = full_directory(files).len();
            &&& eocd_of(t, (b.len() - t.len()) as u64) matches Ok(e) && e.abs == c + d
                && e.cd_offset == c && e.cd_size == d
        }),
{
    let b = archive_of(files, comment);
    let t = suffix(b, OPEN_TAIL_BYTES);
    lemma_layout(files, comment);
    let c = (body(files).len() + 45 + payload_for(files).len()) as int;
    let d = full_directory(files).len() as int;
    let back = b.len() - t.len();
    let e = c + d - back;
    assert(t == b.subrange(back, b.len() as int)) by {
        assert(b.subrange(0, b.len() as int) =~= b);
    }
    assert forall|p: int| 0 <= p <= t.len() - 22 implies eocd_at(t, p) == eocd_at(b, p + back) by {
        assert(t.subrange(p, p + 4) =~= b.subrange(p + back, p + back + 4));
        assert(t.subrange(p + 20, p + 22) =~= b.subrange(p + back + 20, p + back + 22));
    }
    assert(eocd_at(b, c + d));
    assert(eocd_at(t, e));
    lemma_last_eocd(t, e, t.len() - 22);
    assert(t.subrange(e + 12, e + 16) =~= b.subrange(c + d + 12, c + d + 16));
    assert(t.subrange(e + 16, e + 20) =~= b.subrange(c + d + 16, c + d + 20));
}

proof fn lemma_stable_twice<T: Ranked>(s: Seq<T>)
    requires
        sorted(s),
    ensures
        stable_order(s) == s,
{
    crate::sorting::lemma_stable_order(s, s);
}

/// With its index's payload, an archive is opened.
proof fn lemma_opened(files: Seq<Packed>, comment: Seq<u8>)
    requires
        fits(files, comment),
    ensures
        ({
            let p = payload_for(files);
            let l = body(files).len();
            let entry = IndexCdEntry {
                method: 0,
                comp_size: p.len() as u64,
                local_offset: l as u64,
            };
            let m = model_of(files, comment);
            opened(entry, p) == OpenOutcome::Done(Ok((m.records, m.offsets)))
        }),
{
    let p = payload_for(files);
    let r = stable_order(records_of(files));
    lemma_layout(files, comment);
    lemma_index_payload(r);
    lemma_records_sorted(files);
    lemma_stable_twice(r);
}

/// The records of an index are sorted, and those of one hash keep their order.
proof fn lemma_records_sorted(files: Seq<Packed>)
    ensures
        stably_sorted(stable_order(records_of(files)), records_of(files)),
{
    crate::sorting::lemma_stable_order_exists(records_of(files));
}

/// The index's record in the central directory of an archive.
spec fn index_record(files: Seq<Packed>) -> IndexCdEntry {
    IndexCdEntry {
        method: 0,
        comp_size: payload_for(files).len() as u64,
        local_offset: body(files).len() as u64,
    }
}

/// The index's record is found, in the tail or in a read of its own.
proof fn lemma_open_directory(files: Seq<Packed>, comment: Seq<u8>)
    requires
        fits(files, comment),
        comment_is_plain(files, comment),
    ensures
        ({
            let b = archive_of(files, comment);
            let t = suffix(b, OPEN_TAIL_BYTES);
            open_run(b, open_begun(t, b.len() as u64)) == open_run(
                b,
                index_found(t, b.len() as u64, Ok(index_record(files))),
            )
        }),
{
    let b = archive_of(files, comment);
    let size = b.len() as u64;
    let t = suffix(b, OPEN_TAIL_BYTES);
    let back = b.len() - t.len();
    let p = payload_for(files);
    let l = body(files).len() as int;
    let c = l + 45 + p.len();
    let d = full_directory(files).len() as int;
    let entry = IndexCdEntry { method: 0, comp_size: p.len() as u64, local_offset: l as u64 };
    lemma_layout(files, comment);
    assert(t == b.subrange(back, b.len() as int)) by {
        assert(b.subrange(0, b.len() as int) =~= b);
    }
    lemma_eocd_found(files, comment);
    let first = open_begun(t, size);
    assert(first == bounds_found(t, size, c as u64, (c + d) as u64));
    if c >= back {
        assert(t.subrange(c + d - back - 61, c + d - back) =~= b.subrange(c + d - 61, c + d));
        lemma_index_cd(t, back as u64, (c + d) as u64, p.len(), l as nat);
    } else {
        let lo = if c >= c + d - OPEN_TAIL_BYTES {
            c
        } else {
            c + d - OPEN_TAIL_BYTES
        };
        let w = b.subrange(lo, c + d);
        assert(w.subrange(w.len() - 61, w.len() as int) =~= b.subrange(c + d - 61, c + d));
        lemma_index_cd(w, lo as u64, (c + d) as u64, p.len(), l as nat);
        let phase = OpenPhase::Directory { scan_start: lo as u64, cd_end_abs: (c + d) as u64 };
        assert(first == OpenOutcome::Need { start: lo as u64, len: (c + d - lo) as u64, phase });
        assert(fetch::range_reply(b, lo as u64, (c + d - lo) as u64) == Ok::<
            Seq<u8>,
            fetch::FetchFault,
        >(w));
        assert(open_resumed(t, size, phase, Ok(w)) == index_found(t, size, Ok(entry)));
    }
}

/// An index entry at `l` of `b` stores the payload `p`.
spec fn index_stands(b: Seq<u8>, l: int, p: Seq<u8>) -> bool {
    &&& 0 <= l
    &&& p.len() < 0xFFFF_FFFF
    &&& l + 45 + p.len() <= b.len() < 0xFFFF_FFFF
    &&& b.subrange(l, l + 45 + p.len()) == local_entry(index_name(), 0, p, p.len())
}

proof fn lemma_index_data(b: Seq<u8>, l: int, p: Seq<u8>)
    requires
        index_stands(b, l, p),
    ensures
        b.subrange(l + 45, l + 45 + p.len()) == p,
{
    lemma_local_entry(index_name(), 0, p, p.len());
    let whole = b.subrange(l, l + 45 + p.len());
    assert(b.subrange(l + 45, l + 45 + p.len()) =~= whole.subrange(45, 45 + p.len() as int));
}

proof fn lemma_index_in_tail(b: Seq<u8>, l: int, p: Seq<u8>)
    requires
        index_stands(b, l, p),
        l >= b.len() - suffix(b, OPEN_TAIL_BYTES).len(),
    ensures
        ({
            let entry = IndexCdEntry {
                method: 0,
                comp_size: p.len() as u64,
                local_offset: l as u64,
            };
            index_found(suffix(b, OPEN_TAIL_BYTES), b.len() as u64, Ok(entry)) == opened(entry, p)
        }),
{
    let t = suffix(b, OPEN_TAIL_BYTES);
    let back = b.len() - t.len();
    let at = l - back;
    assert(b.subrange(0, b.len() as int) =~= b);
    assert(t.subrange(at, t.len() as int) =~= b.subrange(l, l + (t.len() - at)));
    lemma_window(b, l, t.len() - at, index_name(), 0, p, p.len());
    lemma_index_data(b, l, p);
    assert(t.subrange(at + 45, at + 45 + p.len()) =~= b.subrange(l + 45, l + 45 + p.len()));
}

/// The replies that the index takes when it is not in the tail.
proof fn lemma_index_in_reads(b: Seq<u8>, t: Seq<u8>, l: int, p: Seq<u8>, n: int)
    requires
        index_stands(b, l, p),
        45 <= n <= b.len() - l,
        n == LFH_OVERFETCH || n == b.len() - l,
    ensures
        ({
            let entry = IndexCdEntry {
                method: 0,
                comp_size: p.len() as u64,
                local_offset: l as u64,
            };
            let phase = OpenPhase::Index { entry };
            let w = fetch::range_reply(b, l as u64, n as u64);
            let data = OpenPhase::IndexData { entry, comp_size: p.len() as u64 };
            let d = fetch::range_reply(b, (l + 45) as u64, p.len() as u64);
            let next = open_resumed(t, b.len() as u64, phase, w);
            &&& next == opened(entry, p) || next == (OpenOutcome::Need {
                start: (l + 45) as u64,
                len: p.len() as u64,
                phase: data,
            })
            &&& open_resumed(t, b.len() as u64, data, d) == opened(entry, p)
        }),
{
    lemma_window(b, l, n, index_name(), 0, p, p.len());
    lemma_index_data(b, l, p);
}

/// The index is read, in the tail or in reads of its own.
proof fn lemma_open_index(b: Seq<u8>, l: int, p: Seq<u8>)
    requires
        index_stands(b, l, p),
    ensures
        ({
            let entry = IndexCdEntry {
                method: 0,
                comp_size: p.len() as u64,
                local_offset: l as u64,
            };
            let t = suffix(b, OPEN_TAIL_BYTES);
            open_run(b, index_found(t, b.len() as u64, Ok(entry))) == open_run(b, opened(entry, p))
        }),
{
    let t = suffix(b, OPEN_TAIL_BYTES);
    let size = b.len() as u64;
    let entry = IndexCdEntry { method: 0, comp_size: p.len() as u64, local_offset: l as u64 };
    if l >= b.len() - t.len() {
        lemma_index_in_tail(b, l, p);
    } else {
        let n = if LFH_OVERFETCH <= b.len() - l {
            LFH_OVERFETCH as int
        } else {
            b.len() - l
        };
        lemma_index_in_reads(b, t, l, p, n);
        let phase = OpenPhase::Index { entry };
        let found = index_found(t, size, Ok(entry));
        assert(found == OpenOutcome::Need { start: l as u64, len: n as u64, phase });
        let next = open_resumed(t, size, phase, fetch::range_reply(b, l as u64, n as u64));
        assert(open_run(b, found) == open_run(b, next));
        if next != opened(entry, p) {
            let data = OpenPhase::IndexData { entry, comp_size: p.len() as u64 };
            assert(open_run(b, next) == open_run(
                b,
                open_resumed(
                    t,
                    size,
                    data,
                    fetch::range_reply(b, (l + 45) as u64, p.len() as u64),
                ),
            ));
        }
    }
}

/// Opening the archive of files yields their index.
proof fn lemma_open(files: Seq<Packed>, comment: Seq<u8>)
    requires
        fits(files, comment),
        comment_is_plain(files, comment),
    ensures
        archive_in(archive_of(files, comment)) == Ok::<Model, ArchiveFault>(
            model_of(files, comment),
        ),
{
    let p = payload_for(files);
    lemma_layout(files, comment);
    lemma_open_directory(files, comment);
    lemma_open_index(archive_of(files, comment), body(files).len() as int, p);
    lemma_opened(files, comment);
}

/// The entry of `f` stands at `at` of `b`.
spec fn stands(b: Seq<u8>, at: int, f: Packed) -> bool {
    &&& 0 <= at
    &&& f.name().len() <= 0xFFFF
    &&& at + f.entry().len() <= b.len() < 0xFFFF_FFFF
    &&& b.subrange(at, at + f.entry().len()) == f.entry()
}

/// The length of an entry.
proof fn lemma_entry_len(f: Packed)
    ensures
        f.entry().len() == 30 + f.name().len() + f.payload().len(),
{
    reveal(local_entry);
    lemma_le_bytes_len(20, 2);
    lemma_le_bytes_len(0, 2);
    lemma_le_bytes_len(f.method() as nat, 2);
    lemma_le_bytes_len(0x2199, 2);
    lemma_le_bytes_len(0, 4);
    lemma_le_bytes_len(f.payload().len(), 4);
    lemma_le_bytes_len(f.data.len(), 4);
    lemma_le_bytes_len(f.name().len(), 2);
}

/// The window of `n` bytes at an entry.
proof fn lemma_entry_window(b: Seq<u8>, at: int, f: Packed, n: int)
    requires
        stands(b, at, f),
        0 <= n <= b.len() - at,
    ensures
        ({
            let w = b.subrange(at, at + n);
            let h = header_for(f.name(), f.method(), f.payload());
            &&& n >= 30 + f.name().len() ==> header_of(w) == Ok::<Header, ArchiveFault>(h)
            &&& n < 30 + f.name().len() ==> header_of(w) is Err
            &&& n >= f.entry().len() ==> held(h, w) == Some(f.payload())
            &&& n < f.entry().len() ==> held(h, w) is None
            &&& b.subrange(at + 30 + f.name().len(), at + f.entry().len()) == f.payload()
            &&& f.entry().len() == 30 + f.name().len() + f.payload().len()
        }),
{
    lemma_entry_len(f);
    lemma_window(b, at, n, f.name(), f.method(), f.payload(), f.data.len());
    lemma_local_entry(f.name(), f.method(), f.payload(), f.data.len());
    let m = 30 + f.name().len() as int;
    assert(b.subrange(at + m, at + f.entry().len()) =~= b.subrange(
        at,
        at + f.entry().len(),
    ).subrange(m, f.entry().len() as int));
}

/// What the archive knows of an entry's place: it was opened from `b`, and the
/// entry's length is known where it is not too great.
spec fn knows(ar: Model, b: Seq<u8>, at: int, f: Packed) -> bool {
    &&& ar.size == b.len()
    &&& ar.head == prefix(b, OPEN_HEAD_BYTES)
    &&& span(ar.offsets, at as u64) == (if f.entry().len() <= MAX_ENTRY_SPAN {
        Some(f.entry().len() as u64)
    } else {
        None
    })
}

/// The header of a file's entry can be read: the entry is short enough to be
/// read whole, or its name short enough for the window of fixed length.
pub open spec fn reachable(f: Packed) -> bool {
    f.entry().len() <= MAX_ENTRY_SPAN || 30 + f.name().len() <= LFH_OVERFETCH
}

/// What a candidate comes to: its data where the name is right, else the next
/// candidate.
spec fn settles(ar: Model, b: Seq<u8>, name: Seq<char>, cands: Seq<u64>, c: int, f: Packed, next: EntryOutcome) -> bool {
    entry_run(ar, b, next) == if f.name() == vstd::utf8::encode_utf8(name) {
        decoded(f.method(), f.payload())
    } else {
        entry_run(ar, b, visit(ar, name, cands, c + 1))
    }
}

proof fn lemma_candidate_span(ar: Model, b: Seq<u8>, name: Seq<char>, cands: Seq<u64>, c: int, f: Packed)
    requires
        0 <= c < cands.len(),
        stands(b, cands[c] as int, f),
        knows(ar, b, cands[c] as int, f),
        f.entry().len() <= MAX_ENTRY_SPAN,
    ensures
        settles(ar, b, name, cands, c, f, ask_entry(ar, name, cands, c)),
{
    let at = cands[c] as int;
    let n = f.entry().len() as int;
    lemma_entry_window(b, at, f, n);
    let st = EntryState { name, candidates: cands, at: c, phase: Phase::Span };
    let next = ask_entry(ar, name, cands, c);
    assert(next == EntryOutcome::Need { start: at as u64, len: n as u64, state: st });
    let reply = fetch::range_reply(b, at as u64, n as u64);
    assert(entry_run(ar, b, next) == entry_run(ar, b, resumed(ar, st, reply)));
}

proof fn lemma_candidate_window(ar: Model, b: Seq<u8>, name: Seq<char>, cands: Seq<u64>, c: int, f: Packed)
    requires
        0 <= c < cands.len(),
        stands(b, cands[c] as int, f),
        knows(ar, b, cands[c] as int, f),
        f.entry().len() > MAX_ENTRY_SPAN,
        30 + f.name().len() <= LFH_OVERFETCH,
    ensures
        settles(ar, b, name, cands, c, f, ask_entry(ar, name, cands, c)),
{
    let at = cands[c] as int;
    let n = LFH_OVERFETCH as int;
    lemma_entry_window(b, at, f, n);
    let st = EntryState { name, candidates: cands, at: c, phase: Phase::Window };
    let next = ask_entry(ar, name, cands, c);
    assert(next == EntryOutcome::Need { start: at as u64, len: n as u64, state: st });
    let reply = fetch::range_reply(b, at as u64, n as u64);
    let then = resumed(ar, st, reply);
    assert(entry_run(ar, b, next) == entry_run(ar, b, then));
    if f.name() == vstd::utf8::encode_utf8(name) {
        let p = f.payload();
        let st2 = EntryState {
            phase: Phase::WindowData { method: f.method(), comp_size: p.len() as u64 },
            ..st
        };
        let start = at + 30 + f.name().len();
        assert(then == EntryOutcome::Need {
            start: start as u64,
            len: p.len() as u64,
            state: st2,
        });
        let reply2 = fetch::range_reply(b, start as u64, p.len() as u64);
        assert(entry_run(ar, b, then) == entry_run(ar, b, resumed(ar, st2, reply2)));
    }
}

/// A candidate is settled, from the head or by reads.
proof fn lemma_candidate(ar: Model, b: Seq<u8>, name: Seq<char>, cands: Seq<u64>, c: int, f: Packed)
    requires
        0 <= c < cands.len(),
        stands(b, cands[c] as int, f),
        knows(ar, b, cands[c] as int, f),
        reachable(f),
    ensures
        settles(ar, b, name, cands, c, f, visit(ar, name, cands, c)),
{
    let at = cands[c] as int;
    let nm = vstd::utf8::encode_utf8(name);
    if f.entry().len() <= MAX_ENTRY_SPAN {
        lemma_candidate_span(ar, b, name, cands, c, f);
    } else {
        lemma_candidate_window(ar, b, name, cands, c, f);
    }
    if at < ar.head.len() {
        let n = ar.head.len() - at;
        assert(b.subrange(0, b.len() as int) =~= b);
        assert(ar.head.subrange(at, ar.head.len() as int) =~= b.subrange(at, at + n));
        lemma_entry_window(b, at, f, n);
    }
}

/// The bytes of the first files open the bytes of all.
proof fn lemma_body_prefix(files: Seq<Packed>, i: int)
    requires
        0 <= i <= files.len(),
    ensures
        body(files.take(i)).len() <= body(files).len(),
        body(files).subrange(0, body(files.take(i)).len() as int) == body(files.take(i)),
    decreases files.len() - i,
{
    if i == files.len() {
        assert(files.take(i) =~= files);
        assert(body(files).subrange(0, body(files).len() as int) =~= body(files));
    } else {
        lemma_body_prefix(files, i + 1);
        lemma_body_step(files, i);
        let a = body(files.take(i));
        let n = body(files.take(i + 1));
        assert(body(files).subrange(0, a.len() as int) =~= body(files).subrange(
            0,
            n.len() as int,
        ).subrange(0, a.len() as int));
        assert(n.subrange(0, a.len() as int) =~= a);
    }
}

proof fn lemma_body_step(files: Seq<Packed>, i: int)
    requires
        0 <= i < files.len(),
    ensures
        body(files.take(i + 1)) == body(files.take(i)) + files[i].entry(),
        files[i].entry().len() >= 30,
{
    assert(files.take(i + 1).drop_last() =~= files.take(i));
    assert(files.take(i + 1).last() == files[i]);
    lemma_entry_len(files[i]);
}

/// Where file `i` starts.
spec fn starts(files: Seq<Packed>, i: int) -> int {
    body(files.take(i)).len() as int
}

proof fn lemma_starts_grow(files: Seq<Packed>, i: int, j: int)
    requires
        0 <= i < j <= files.len(),
    ensures
        starts(files, i) + files[i].entry().len() <= starts(files, j),
        files[i].entry().len() >= 30,
        j == i + 1 ==> starts(files, i) + files[i].entry().len() == starts(files, j),
    decreases j,
{
    lemma_body_step(files, j - 1);
    if i < j - 1 {
        lemma_starts_grow(files, i, j - 1);
    }
}

/// Each file's entry stands where its record says.
proof fn lemma_file_stands(files: Seq<Packed>, comment: Seq<u8>, i: int)
    requires
        fits(files, comment),
        0 <= i < files.len(),
    ensures
        stands(archive_of(files, comment), starts(files, i), files[i]),
        records_of(files)[i].offset == starts(files, i),
{
    let b = archive_of(files, comment);
    lemma_layout(files, comment);
    lemma_body_prefix(files, i + 1);
    lemma_body_step(files, i);
    let a = starts(files, i);
    let e = files[i].entry();
    let whole = body(files);
    assert(b.subrange(a, a + e.len()) =~= whole.subrange(a, a + e.len()));
    assert(whole.subrange(a, a + e.len()) =~= whole.subrange(0, a + e.len()).subrange(
        a,
        a + e.len(),
    ));
    assert((body(files.take(i)) + e).subrange(a, a + e.len()) =~= e);
}

proof fn lemma_same_members<T>(a: Seq<T>, b: Seq<T>, x: T)
    requires
        a.to_multiset() == b.to_multiset(),
    ensures
        a.contains(x) <==> b.contains(x),
{
    broadcast use vstd::seq_lib::group_to_multiset_ensures;

    assert(a.contains(x) <==> a.to_multiset().count(x) > 0);
    assert(b.contains(x) <==> b.to_multiset().count(x) > 0);
}

/// The offsets of an opened archive are where the files and the index start.
proof fn lemma_offsets(files: Seq<Packed>, comment: Seq<u8>, o: u64)
    requires
        fits(files, comment),
    ensures
        model_of(files, comment).offsets.contains(o) <==> exists|j: int|
            0 <= j <= files.len() && #[trigger] starts(files, j) == o,
{
    let recs = records_of(files);
    let r = stable_order(recs);
    let l = body(files).len() as u64;
    let all = offsets_of(r).push(l);
    lemma_records_sorted(files);
    crate::sorting::lemma_stable_order_exists(all);
    lemma_same_members(model_of(files, comment).offsets, all, o);
    assert(files.take(files.len() as int) =~= files);
    lemma_layout(files, comment);
    if all.contains(o) {
        let k = choose|k: int| 0 <= k < all.len() && all[k] == o;
        if k < r.len() {
            lemma_same_members(r, recs, r[k]);
            assert(r.contains(r[k]));
            let j = choose|j: int| 0 <= j < recs.len() && recs[j] == r[k];
            lemma_file_stands(files, comment, j);
            assert(starts(files, j) == o);
        } else {
            assert(starts(files, files.len() as int) == o);
        }
    }
    if exists|j: int| 0 <= j <= files.len() && #[trigger] starts(files, j) == o {
        let j = choose|j: int| 0 <= j <= files.len() && #[trigger] starts(files, j) == o;
        if j < files.len() {
            lemma_file_stands(files, comment, j);
            lemma_same_members(r, recs, recs[j]);
            assert(recs.contains(recs[j]));
            let k = choose|k: int| 0 <= k < r.len() && r[k] == recs[j];
            assert(all[k] == o);
        } else {
            assert(all[r.len() as int] == o);
        }
    }
}

/// The length of each file's entry is known, from where the next one starts.
proof fn lemma_knows(files: Seq<Packed>, comment: Seq<u8>, i: int)
    requires
        fits(files, comment),
        0 <= i < files.len(),
    ensures
        knows(model_of(files, comment), archive_of(files, comment), starts(files, i), files[i]),
{
    let offsets = model_of(files, comment).offsets;
    let at = starts(files, i) as u64;
    lemma_file_stands(files, comment, i);
    lemma_starts_grow(files, i, i + 1);
    let next = starts(files, i + 1) as u64;
    lemma_layout(files, comment);
    lemma_body_prefix(files, i + 1);
    lemma_offsets(files, comment, next);
    lemma_offsets(files, comment, at);
    assert forall|o: u64| #[trigger] offsets.contains(o) && o > at implies next <= o by {
        lemma_offsets(files, comment, o);
        let j = choose|j: int| 0 <= j <= files.len() && #[trigger] starts(files, j) == o;
        if j <= i {
            if j < i {
                lemma_starts_grow(files, j, i);
            }
        } else if i + 1 < j {
            lemma_starts_grow(files, i + 1, j);
        }
    }
    assert(is_next(offsets, at, next));
    let n = choose|n: u64| is_next(offsets, at, n);
    assert(is_next(offsets, at, n));
    assert(offsets.contains(n) && offsets.contains(next));
    assert(n == next);
}

/// The records of one hash keep their order in the index.
proof fn lemma_hits_sorted(s: Seq<IndexRecord>, h: [u8; 16])
    ensures
        hits(stable_order(s), h) == hits(s, h),
{
    let k = sort_key(h@);
    let rank: Rank = (k.0, k.1, 0, 0, 0);
    crate::sorting::lemma_stable_order_exists(s);
    assert(of_rank(stable_order(s), rank) == of_rank(s, rank));
    lemma_hits_by_rank(s, h);
    lemma_hits_by_rank(stable_order(s), h);
}

proof fn lemma_hits_by_rank(s: Seq<IndexRecord>, h: [u8; 16])
    ensures
        ({
            let k = sort_key(h@);
            hits(s, h) == offsets_of(of_rank(s, (k.0, k.1, 0, 0, 0)))
        }),
    decreases s.len(),
{
    let k = sort_key(h@);
    let rank: Rank = (k.0, k.1, 0, 0, 0);
    if s.len() > 0 {
        lemma_hits_by_rank(s.drop_last(), h);
        if s.last().rank() == rank {
            lemma_sort_key_injective(s.last().hash, h);
        }
        assert(hits(s, h) =~= offsets_of(of_rank(s, rank)));
    } else {
        assert(hits(s, h) =~= offsets_of(of_rank(s, rank)));
    }
}

/// The data of the first file, from `j` on, with the normalized path `name`.
pub open spec fn first_named(files: Seq<Packed>, name: Seq<char>, j: int) -> Option<Seq<u8>>
    decreases files.len() - j,
{
    if j < 0 || j >= files.len() {
        None
    } else if normalized(files[j].path) == name {
        Some(files[j].data)
    } else {
        first_named(files, name, j + 1)
    }
}

/// What reading should give.
pub open spec fn wanted(files: Seq<Packed>, name: Seq<char>, j: int) -> Result<
    Seq<u8>,
    ArchiveFault,
> {
    match first_named(files, name, j) {
        Some(data) => Ok(data),
        None => Err(ArchiveFault::EntryNotFound(name)),
    }
}

/// Compressed data is read back.
pub open spec fn inflates(f: Packed) -> bool {
    f.deflate ==> (inflated(f.payload()) matches Ok(d) && d == f.data)
}

/// Reading goes on at candidate `c` with the files from `j` on.
proof fn lemma_read(files: Seq<Packed>, comment: Seq<u8>, name: Seq<char>, j: int, c: int)
    requires
        fits(files, comment),
        forall|i: int| 0 <= i < files.len() ==> inflates(#[trigger] files[i]),
        forall|i: int|
            0 <= i < files.len() && path_hash(normalized((#[trigger] files[i]).path)) == path_hash(
                name,
            ) ==> reachable(files[i]),
        0 <= j <= files.len(),
        0 <= c <= hits(records_of(files), path_hash(name)).len(),
        hits(records_of(files), path_hash(name)).skip(c) == hits(
            records_of(files).skip(j),
            path_hash(name),
        ),
    ensures
        ({
            let ar = model_of(files, comment);
            let b = archive_of(files, comment);
            let cands = hits(records_of(files), path_hash(name));
            entry_run(ar, b, visit(ar, name, cands, c)) == wanted(files, name, j)
        }),
    decreases files.len() - j,
{
    let ar = model_of(files, comment);
    let b = archive_of(files, comment);
    let recs = records_of(files);
    let h = path_hash(name);
    let cands = hits(recs, h);
    if j == files.len() {
        assert(recs.skip(j) =~= Seq::<IndexRecord>::empty());
        assert(cands.skip(c).len() == 0);
    } else {
        let rest = recs.skip(j + 1);
        let one = seq![recs[j]];
        assert(recs.skip(j) =~= one + rest);
        lemma_hits_add(one, rest, h);
        assert(one.drop_last() =~= Seq::<IndexRecord>::empty());
        assert(hits(one.drop_last(), h) == Seq::<u64>::empty());
        assert(one.last() == recs[j]);
        if recs[j].hash != h {
            assert(hits(one, h) =~= Seq::<u64>::empty());
            assert(hits(one, h) + hits(rest, h) =~= hits(rest, h));
            lemma_read(files, comment, name, j + 1, c);
        } else {
            assert(hits(one, h) =~= seq![recs[j].offset]);
            let f = files[j];
            assert(cands.skip(c).len() == cands.len() - c);
            assert(cands.skip(c) == seq![recs[j].offset] + hits(rest, h));
            assert(cands.skip(c)[0] == recs[j].offset);
            assert(cands[c] == recs[j].offset);
            assert(cands.skip(c + 1) =~= cands.skip(c).drop_first());
            assert((hits(one, h) + hits(rest, h)).drop_first() =~= hits(rest, h));
            lemma_file_stands(files, comment, j);
            lemma_knows(files, comment, j);
            assert(reachable(f));
            assert(inflates(f));
            lemma_candidate(ar, b, name, cands, c, f);
            lemma_read(files, comment, name, j + 1, c + 1);
            vstd::utf8::encode_utf8_decode_utf8(name);
            vstd::utf8::encode_utf8_decode_utf8(normalized(f.path));
        }
    }
}

/// Reading an archive gives back what was written: opening it succeeds, and
/// each path reads as the data of the first file of that normalized path, or is
/// not found where there is none. It holds of an archive that fits the format,
/// whose comment holds no end record of its own, and whose entries of the
/// path's hash can be reached.
pub open spec fn reads_back(files: Seq<Packed>, comment: Seq<u8>) -> bool {
    let b = archive_of(files, comment);
    fits(files, comment) && comment_is_plain(files, comment) ==> {
        &&& archive_in(b) == Ok::<Model, ArchiveFault>(model_of(files, comment))
        &&& forall|path: Seq<char>|
            (forall|i: int|
                0 <= i < files.len() && path_hash(normalized((#[trigger] files[i]).path))
                    == path_hash(normalized(path)) ==> reachable(files[i])) ==> #[trigger] entry_in(
                model_of(files, comment),
                b,
                path,
            ) == wanted(files, normalized(path), 0)
    }
}

/// What was written is read back.
pub proof fn written_archives_read_back(files: Seq<Packed>, comment: Seq<u8>)
    requires
        forall|i: int| 0 <= i < files.len() ==> inflates(#[trigger] files[i]),
    ensures
        reads_back(files, comment),
{
    if fits(files, comment) && comment_is_plain(files, comment) {
        lemma_open(files, comment);
        let ar = model_of(files, comment);
        let b = archive_of(files, comment);
        assert forall|path: Seq<char>|
            (forall|i: int|
                0 <= i < files.len() && path_hash(normalized((#[trigger] files[i]).path))
                    == path_hash(normalized(path)) ==> reachable(files[i])) implies #[trigger] entry_in(
            ar,
            b,
            path,
        ) == wanted(files, normalized(path), 0) by {
            let name = normalized(path);
            let recs = records_of(files);
            let h = path_hash(name);
            lemma_hits_sorted(recs, h);
            assert(hits(recs, h).skip(0) =~= hits(recs, h));
            assert(recs.skip(0) =~= recs);
            lemma_read(files, comment, name, 0, 0);
        }
    }
}

/// An archive opens with nothing but its tail, where the tail holds the index
/// and all that follows it.
pub proof fn archives_open_from_their_tail(files: Seq<Packed>, comment: Seq<u8>)
    requires
        fits(files, comment),
        comment_is_plain(files, comment),
        archive_of(files, comment).len() - body(files).len() <= OPEN_TAIL_BYTES,
    ensures
        ({
            let b = archive_of(files, comment);
            let m = model_of(files, comment);
            open_begun(suffix(b, OPEN_TAIL_BYTES), b.len() as u64) == OpenOutcome::Done(
                Ok((m.records, m.offsets)),
            )
        }),
{
    let b = archive_of(files, comment);
    let t = suffix(b, OPEN_TAIL_BYTES);
    let back = b.len() - t.len();
    let p = payload_for(files);
    let l = body(files).len() as int;
    let c = l + 45 + p.len();
    let d = full_directory(files).len() as int;
    lemma_layout(files, comment);
    assert(t == b.subrange(back, b.len() as int)) by {
        assert(b.subrange(0, b.len() as int) =~= b);
    }
    lemma_eocd_found(files, comment);
    assert(t.subrange(c + d - back - 61, c + d - back) =~= b.subrange(c + d - 61, c + d));
    lemma_index_cd(t, back as u64, (c + d) as u64, p.len(), l as nat);
    lemma_index_in_tail(b, l, p);
    lemma_opened(files, comment);
}

/// How many reads an entry takes when the archive's bytes are `b`.
pub open spec fn requests(ar: Model, b: Seq<u8>, next: EntryOutcome) -> nat
    decreases entry_rank(next),
{
    match next {
        EntryOutcome::Done(_) => 0,
        EntryOutcome::Need { start, len, state } => if 0 <= state.at < state.candidates.len() {
            let reply = fetch::range_reply(b, start, len);
            proof {
                reading_ends(ar, state, reply);
            }
            1 + requests(ar, b, resumed(ar, state, reply))
        } else {
            1
        },
    }
}

/// An entry that the head holds takes no read, and any other takes exactly one,
/// where its hash is its own and its length is not too great.
pub proof fn entries_take_one_request(files: Seq<Packed>, comment: Seq<u8>, i: int)
    requires
        fits(files, comment),
        0 <= i < files.len(),
        files[i].entry().len() <= MAX_ENTRY_SPAN,
        forall|j: int|
            0 <= j < files.len() && j != i ==> path_hash(normalized((#[trigger] files[j]).path))
                != path_hash(normalized(files[i].path)),
    ensures
        ({
            let ar = model_of(files, comment);
            let b = archive_of(files, comment);
            let end = records_of(files)[i].offset + files[i].entry().len();
            requests(ar, b, begun(ar, files[i].path)) == if end <= OPEN_HEAD_BYTES {
                0nat
            } else {
                1
            }
        }),
{
    let ar = model_of(files, comment);
    let b = archive_of(files, comment);
    let f = files[i];
    let name = normalized(f.path);
    let recs = records_of(files);
    let h = path_hash(name);
    let at = recs[i].offset;
    lemma_hits_sorted(recs, h);
    lemma_only_hit(recs, h, i);
    let cands = hits(recs, h);
    assert(cands =~= seq![at]);
    assert(begun(ar, f.path) == visit(ar, name, cands, 0));
    lemma_file_stands(files, comment, i);
    lemma_knows(files, comment, i);
    let n = f.entry().len() as int;
    lemma_entry_window(b, at as int, f, n);
    if at < ar.head.len() {
        let k = ar.head.len() - at;
        assert(b.subrange(0, b.len() as int) =~= b);
        assert(ar.head.subrange(at as int, ar.head.len() as int) =~= b.subrange(at as int, at + k));
        lemma_entry_window(b, at as int, f, k);
    }
    let st = EntryState { name, candidates: cands, at: 0, phase: Phase::Span };
    let next = ask_entry(ar, name, cands, 0);
    assert(next == EntryOutcome::Need { start: at, len: n as u64, state: st });
    let reply = fetch::range_reply(b, at, n as u64);
    assert(resumed(ar, st, reply) is Done);
    assert(requests(ar, b, resumed(ar, st, reply)) == 0);
    assert(requests(ar, b, next) == 1 + requests(ar, b, resumed(ar, st, reply)));
}

/// A hash that one record has is found once.
proof fn lemma_only_hit(s: Seq<IndexRecord>, h: [u8; 16], i: int)
    requires
        0 <= i < s.len(),
        s[i].hash == h,
        forall|j: int| 0 <= j < s.len() && j != i ==> (#[trigger] s[j]).hash != h,
    ensures
        hits(s, h) == seq![s[i].offset],
    decreases s.len(),
{
    let before = s.drop_last();
    if i == s.len() - 1 {
        lemma_no_hit(before, h);
        assert(hits(s, h) =~= seq![s[i].offset]);
    } else {
        assert(before[i] == s[i]);
        lemma_only_hit(before, h, i);
        assert(s.last() == s[s.len() - 1]);
    }
}

proof fn lemma_no_hit(s: Seq<IndexRecord>, h: [u8; 16])
    requires
        forall|j: int| 0 <= j < s.len() ==> (#[trigger] s[j]).hash != h,
    ensures
        hits(s, h) == Seq::<u64>::empty(),
    decreases s.len(),
{
    if s.len() > 0 {
        assert(s.last() == s[s.len() - 1]);
        lemma_no_hit(s.drop_last(), h);
    }
}

} // verus!
