//! Where the fields of the binary formats stand, byte by byte.
use crate::bytes::{le_at, le_value};
use crate::glb::{
    extract_declined, last_chunk, marks_of, overrun, split_of, unextractable,
    would_decline,
};
use crate::gltf_laws::{four, lemma_le_digits, two};
use crate::index3tz::{normalized, raw_record, slashed, sort_key, IndexRecord};
use crate::zip::{eocd_read, header_of};
use vstd::prelude::*;

verus! {

/// Eight bytes as a number, the lowest first.
pub open spec fn eight(b: Seq<u8>, p: int) -> int {
    four(b, p) + 0x1_0000_0000 * four(b, p + 4)
}

proof fn lemma_le_eight(b: Seq<u8>, p: int)
    requires
        0 <= p,
        p + 8 <= b.len(),
    ensures
        le_at(b, p, 8) == eight(b, p),
        eight(b, p) <= u64::MAX,
{
    reveal_with_fuel(le_value, 5);
    let s = b.subrange(p, p + 8);
    let a = s.drop_first();
    let c = a.drop_first();
    let d = c.drop_first();
    let e = d.drop_first();
    assert(e =~= b.subrange(p + 4, p + 8));
    assert(s[0] == b[p] && a[0] == b[p + 1] && c[0] == b[p + 2] && d[0] == b[p + 3]);
    assert(le_value(s) == s[0] as nat + 256 * le_value(a));
    assert(le_value(a) == a[0] as nat + 256 * le_value(c));
    assert(le_value(c) == c[0] as nat + 256 * le_value(d));
    assert(le_value(d) == d[0] as nat + 256 * le_value(e));
    lemma_le_digits(b, p + 4);
}

/// The index of an archive is ordered by its hashes read as two numbers, the
/// lowest byte of each first.
pub proof fn hashes_are_ordered_by_two_numbers(h: Seq<u8>)
    requires
        h.len() == 16,
    ensures
        sort_key(h).0 == eight(h, 0),
        sort_key(h).1 == eight(h, 8),
{
    lemma_le_eight(h, 0);
    lemma_le_eight(h, 8);
}

/// A record of the index is sixteen bytes of hash and eight of offset.
pub proof fn index_records_are_a_hash_and_an_offset(b: Seq<u8>, i: int, r: IndexRecord)
    requires
        0 <= i,
        24 * i + 24 <= b.len(),
        forall|j: int| 0 <= j < 16 ==> #[trigger] r.hash@[j] == b[24 * i + j],
        r.offset == eight(b, 24 * i + 16),
    ensures
        raw_record(b, i) == r,
{
    lemma_le_eight(b, 24 * i + 16);
    let s = b.subrange(24 * i, 24 * i + 16);
    assert(r.hash@ =~= s);
    let h = crate::index3tz::hash_with(s);
    assert(h@ == s);
    assert(h == r.hash) by {
        assert(h@ =~= r.hash@);
        assert(h =~= r.hash);
    }
}

/// The record that ends an archive's directory names the size of the directory
/// behind twelve bytes and its start behind sixteen; a locator just before it
/// names the longer record.
pub proof fn end_records_name_the_directory(t: Seq<u8>, tail_abs: u64, pos: int)
    requires
        0 <= pos,
        pos + 22 <= t.len(),
        tail_abs + pos <= u64::MAX,
    ensures
        ({
            let e = eocd_read(t, tail_abs, pos);
            let located = pos >= 20 && t[pos - 20] == 0x50 && t[pos - 19] == 0x4B && t[pos - 18]
                == 6 && t[pos - 17] == 7;
            &&& e.abs == tail_abs + pos
            &&& e.cd_size == four(t, pos + 12)
            &&& e.cd_offset == four(t, pos + 16)
            &&& match e.zip64_record_abs {
                Some(v) => located && v == eight(t, pos - 12),
                None => !located,
            }
        }),
{
    lemma_le_digits(t, pos + 12);
    lemma_le_digits(t, pos + 16);
    if pos >= 20 {
        lemma_le_eight(t, pos - 12);
        let s = t.subrange(pos - 20, pos - 16);
        let k = crate::zip::sig(6, 7);
        assert(s[0] == t[pos - 20] && s[1] == t[pos - 19] && s[2] == t[pos - 18] && s[3] == t[pos
            - 17]);
        assert(k[0] == 0x50 && k[1] == 0x4B && k[2] == 6 && k[3] == 7);
        if s[0] == 0x50 && s[1] == 0x4B && s[2] == 6 && s[3] == 7 {
            assert(s =~= k);
        }
    }
}

/// A local file header names the method behind eight bytes, the size behind
/// eighteen, and ends with the name and the extra fields; the data follows.
pub proof fn local_headers_stand_before_their_data(b: Seq<u8>)
    requires
        header_of(b) is Ok,
    ensures
        ({
            let h = header_of(b)->Ok_0;
            &&& b.len() >= 30 + two(b, 26)
            &&& b[0] == 0x50 && b[1] == 0x4B && b[2] == 3 && b[3] == 4
            &&& h.method == two(b, 8)
            &&& h.name == b.subrange(30, 30 + two(b, 26))
            &&& h.data_rel == 30 + two(b, 26) + two(b, 28)
            &&& 0 < four(b, 18) < 0xFFFF_FFFF ==> h.comp_size == Some(four(b, 18) as u64)
            &&& four(b, 18) == 0xFFFF_FFFF ==> h.comp_size is Some
        }),
{
    lemma_le_digits(b, 8);
    lemma_le_digits(b, 18);
    lemma_le_digits(b, 26);
    lemma_le_digits(b, 28);
    let s = b.subrange(0, 4);
    let k = crate::zip::sig(3, 4);
    assert(s[0] == b[0] && s[1] == b[1] && s[2] == b[2] && s[3] == b[3]);
    assert(k[0] == 0x50 && k[1] == 0x4B && k[2] == 3 && k[3] == 4);
}

/// A local file header with its name in reach, and a size that is not full, is
/// read.
pub proof fn sound_local_headers_are_read(b: Seq<u8>)
    requires
        b.len() >= 30,
        b[0] == 0x50 && b[1] == 0x4B && b[2] == 3 && b[3] == 4,
        30 + two(b, 26) <= b.len(),
        four(b, 18) != 0xFFFF_FFFF,
    ensures
        header_of(b) is Ok,
{
    lemma_le_digits(b, 18);
    lemma_le_digits(b, 26);
    let s = b.subrange(0, 4);
    let k = crate::zip::sig(3, 4);
    assert(s =~= k);
}

/// Normalizing drops one leading slash after the other, takes a backslash for a
/// slash, and changes nothing else.
pub proof fn normalizing_only_touches_slashes(path: Seq<char>, i: int)
    ensures
        (path.len() == 0 || path[0] != '/') && !path.contains('\\') ==> normalized(path) == path,
        normalized(seq!['/'] + path) == normalized(path),
        0 <= i < path.len() && path[i] == '\\' ==> normalized(path.update(i, '/')) == normalized(
            path,
        ),
{
    if (path.len() == 0 || path[0] != '/') && !path.contains('\\') {
        assert(slashed(path) =~= path) by {
            assert forall|j: int| 0 <= j < path.len() implies slashed(path)[j] == path[j] by {
                assert(path.contains(path[j]));
            }
        }
    }
    let longer = seq!['/'] + path;
    assert(slashed(longer)[0] == '/');
    assert(slashed(longer).drop_first() =~= slashed(path));
    if 0 <= i < path.len() && path[i] == '\\' {
        assert(slashed(path.update(i, '/')) =~= slashed(path));
    }
}

/// `k` are the bytes at `p`.
pub open spec fn stands_at(b: Seq<u8>, p: int, k: Seq<u8>) -> bool {
    p + k.len() <= b.len() && b.subrange(p, p + k.len()) == k
}

/// A container of a JSON chunk and a binary chunk, each behind its length and
/// its type, splits into the two.
pub proof fn containers_split_into_their_chunks(b: Seq<u8>, json: Seq<u8>, bin: Seq<u8>)
    requires
        b.len() == 28 + json.len() + bin.len(),
        stands_at(b, 0, seq![0x67u8, 0x6C, 0x54, 0x46]),
        four(b, 12) == json.len(),
        stands_at(b, 16, seq![0x4Au8, 0x53, 0x4F, 0x4E]),
        stands_at(b, 20, json),
        four(b, 20 + json.len() as int) == bin.len(),
        stands_at(b, 24 + json.len() as int, seq![0x42u8, 0x49, 0x4E, 0]),
        stands_at(b, 28 + json.len() as int, bin),
    ensures
        split_of(b) == Ok::<(Seq<u8>, Option<Seq<u8>>), Seq<char>>((json, Some(bin))),
{
    let at = 20 + json.len() as int;
    let end = b.len() as int;
    lemma_le_digits(b, 12);
    lemma_le_digits(b, at);
    let j = crate::glb::json_kind();
    let k = crate::glb::bin_kind();
    assert(j[0] != k[0]);
    assert(crate::glb::chunk_end(b, 12) == at);
    assert(crate::glb::chunk_end(b, at) == end);
    assert(overrun(b, end) is None);
    assert(overrun(b, at) is None);
    assert(overrun(b, 12) is None);
    assert(last_chunk(b, end, j) is None);
    assert(last_chunk(b, end, k) is None);
    assert(b.subrange(at + 4, at + 8) == k);
    assert(b.subrange(16, 20) == j);
    assert(b.subrange(at + 4, at + 8) != j);
    assert(last_chunk(b, at, j) is None);
    assert(last_chunk(b, at, k) == Some(b.subrange(at + 8, end)));
    assert(last_chunk(b, 12, j) == Some(b.subrange(20, at)));
}

/// `word` stands somewhere in the text.
pub open spec fn is_said(json: Seq<u8>, word: Seq<char>) -> bool {
    exists|i: int|
        0 <= i && #[trigger] stands_at(json, i, vstd::utf8::encode_utf8(word))
}

proof fn lemma_said(json: Seq<u8>, word: Seq<char>)
    ensures
        crate::glb::mentions(json, word) <==> is_said(json, word),
{
    let w = vstd::utf8::encode_utf8(word);
    if crate::glb::mentions(json, word) {
        let i = choose|i: int|
            0 <= i <= json.len() - w.len() && #[trigger] json.subrange(i, i + w.len()) == w;
        assert(stands_at(json, i, w));
    }
    if is_said(json, word) {
        let i = choose|i: int| 0 <= i && #[trigger] stands_at(json, i, w);
        assert(json.subrange(i, i + w.len()) == w);
    }
}

/// Each mark is set exactly where the text names its extension.
pub proof fn marks_are_what_is_named(json: Seq<u8>)
    ensures
        marks_of(json).splat == is_said(json, "KHR_gaussian_splatting"@),
        marks_of(json).draco == is_said(json, "KHR_draco_mesh_compression"@),
        marks_of(json).rtc == is_said(json, "CESIUM_RTC"@),
        marks_of(json).copyright == is_said(json, "copyright"@),
        marks_of(json).meshopt == is_said(json, "EXT_meshopt_compression"@),
        marks_of(json).basisu == is_said(json, "KHR_texture_basisu"@),
        marks_of(json).features == is_said(json, "EXT_mesh_features"@),
        unextractable(json) == (is_said(json, "\"images\""@) || is_said(json, "\"textures\""@)
            || is_said(json, "\"extensionsRequired\""@)),
{
    lemma_said(json, "KHR_gaussian_splatting"@);
    lemma_said(json, "KHR_draco_mesh_compression"@);
    lemma_said(json, "CESIUM_RTC"@);
    lemma_said(json, "copyright"@);
    lemma_said(json, "EXT_meshopt_compression"@);
    lemma_said(json, "KHR_texture_basisu"@);
    lemma_said(json, "EXT_mesh_features"@);
    lemma_said(json, "\"images\""@);
    lemma_said(json, "\"textures\""@);
    lemma_said(json, "\"extensionsRequired\""@);
}

/// Preparation leaves to its caller what needs a decoder of the platform, and
/// what needs nothing at all; it takes any other tile on.
pub proof fn tiles_are_declined_for_a_reason(b: Seq<u8>, json: Seq<u8>, bin: Option<Seq<u8>>, georeferenced: bool)
    requires
        split_of(b) == Ok::<(Seq<u8>, Option<Seq<u8>>), Seq<char>>((json, bin)),
    ensures
        is_said(json, "KHR_draco_mesh_compression"@) || is_said(json, "KHR_gaussian_splatting"@)
            ==> would_decline(b, georeferenced) && extract_declined(b, georeferenced),
        !is_said(json, "KHR_draco_mesh_compression"@) && !is_said(json, "KHR_gaussian_splatting"@)
            ==> {
            let idle = !georeferenced && !is_said(json, "CESIUM_RTC"@) && !is_said(
                json,
                "copyright"@,
            ) && !is_said(json, "EXT_meshopt_compression"@) && !is_said(json, "KHR_texture_basisu"@)
                && !is_said(json, "EXT_mesh_features"@);
            &&& would_decline(b, georeferenced) == idle
            &&& extract_declined(b, georeferenced) == (idle && (is_said(json, "\"images\""@)
                || is_said(json, "\"textures\""@) || is_said(json, "\"extensionsRequired\""@)))
        },
{
    marks_are_what_is_named(json);
}

} // verus!
