//! The GLB container and the marker scan that routes a tile.
use crate::bytes::{le32, le_at, le_bytes, push_le};
use crate::text;
use vstd::prelude::*;

verus! {

/// Whether `needle` occurs in `haystack` as a run of bytes.
pub open spec fn contains_bytes(haystack: Seq<u8>, needle: Seq<u8>) -> bool {
    exists|i: int|
        0 <= i <= haystack.len() - needle.len() && #[trigger] haystack.subrange(
            i,
            i + needle.len(),
        ) == needle
}

/// Whether `needle` occurs in `haystack`.
pub fn memmem(haystack: &[u8], needle: &[u8]) -> (r: bool)
    requires
        needle@.len() > 0,
    ensures
        r == contains_bytes(haystack@, needle@),
{
    let n: usize = haystack.len();
    let k: usize = needle.len();
    if k > n {
        return false;
    }
    let mut i: usize = 0;
    while i <= n - k
        invariant
            i <= n - k + 1,
            0 < k <= n,
            n == haystack@.len(),
            k == needle@.len(),
            forall|j: int| 0 <= j < i ==> #[trigger] haystack@.subrange(j, j + k) != needle@,
        decreases n - i,
    {
        if text::same_bytes(&haystack[i..i + k], needle) {
            return true;
        }
        i = i + 1;
    }
    false
}

/// Whether the text `word` occurs in `json`.
pub open spec fn mentions(json: Seq<u8>, word: Seq<char>) -> bool {
    contains_bytes(json, vstd::utf8::encode_utf8(word))
}

pub(crate) fn scan_for(json: &[u8], word: &str) -> (r: bool)
    requires
        word@.len() > 0,
    ensures
        r == mentions(json@, word@),
{
    proof {
        vstd::utf8::char_is_scalar(word@[0]);
        assert(vstd::utf8::encode_utf8(word@).len() > 0);
    }
    memmem(json, word.as_bytes())
}

/// Which passes a tile needs, from one scan of its JSON for the names of
/// extensions. The scan reads the raw text: content that uses an extension
/// without declaring it is still found.
#[derive(Debug, Clone, Copy)]
pub struct Marks {
    pub splat: bool,
    pub draco: bool,
    pub rtc: bool,
    pub copyright: bool,
    pub meshopt: bool,
    pub basisu: bool,
    pub features: bool,
}

/// The marks of a JSON text.
pub open spec fn marks_of(json: Seq<u8>) -> Marks {
    Marks {
        splat: mentions(json, "KHR_gaussian_splatting"@),
        draco: mentions(json, "KHR_draco_mesh_compression"@),
        rtc: mentions(json, "CESIUM_RTC"@),
        copyright: mentions(json, "copyright"@),
        meshopt: mentions(json, "EXT_meshopt_compression"@),
        basisu: mentions(json, "KHR_texture_basisu"@),
        features: mentions(json, "EXT_mesh_features"@),
    }
}

impl Marks {
    /// No mark is set.
    pub open spec fn none(self) -> bool {
        !(self.splat || self.draco || self.rtc || self.copyright || self.meshopt || self.basisu
            || self.features)
    }

    pub fn scan(json: &[u8]) -> (m: Self)
        ensures
            m == marks_of(json@),
    {
        proof {
            reveal_strlit("KHR_gaussian_splatting");
            reveal_strlit("KHR_draco_mesh_compression");
            reveal_strlit("CESIUM_RTC");
            reveal_strlit("copyright");
            reveal_strlit("EXT_meshopt_compression");
            reveal_strlit("KHR_texture_basisu");
            reveal_strlit("EXT_mesh_features");
        }
        Marks {
            splat: scan_for(json, "KHR_gaussian_splatting"),
            draco: scan_for(json, "KHR_draco_mesh_compression"),
            rtc: scan_for(json, "CESIUM_RTC"),
            copyright: scan_for(json, "copyright"),
            meshopt: scan_for(json, "EXT_meshopt_compression"),
            basisu: scan_for(json, "KHR_texture_basisu"),
            features: scan_for(json, "EXT_mesh_features"),
        }
    }

    /// Nothing to rewrite and nothing to extract beside the geometry.
    pub fn vanilla(&self) -> (r: bool)
        ensures
            r == self.none(),
    {
        !(self.splat || self.draco || self.rtc || self.copyright || self.meshopt || self.basisu
            || self.features)
    }
}

/// The four bytes that open a GLB container.
pub open spec fn magic() -> Seq<u8> {
    seq![0x67u8, 0x6C, 0x54, 0x46]
}

/// The type of a JSON chunk.
pub open spec fn json_kind() -> Seq<u8> {
    seq![0x4Au8, 0x53, 0x4F, 0x4E]
}

/// The type of a binary chunk.
pub open spec fn bin_kind() -> Seq<u8> {
    seq![0x42u8, 0x49, 0x4E, 0]
}

pub open spec fn has_magic(b: Seq<u8>) -> bool {
    b.len() >= 4 && b.subrange(0, 4) == magic()
}

/// Where the chunk that starts at `at` ends.
pub open spec fn chunk_end(b: Seq<u8>, at: int) -> int {
    at + 8 + le_at(b, at, 4)
}

/// The start of the first chunk, from `at` on, that ends past the bytes.
pub open spec fn overrun(b: Seq<u8>, at: int) -> Option<int>
    decreases b.len() - at,
{
    if at + 8 > b.len() {
        None
    } else if chunk_end(b, at) > b.len() {
        Some(at)
    } else {
        overrun(b, chunk_end(b, at))
    }
}

/// The body of the last chunk of type `kind`, from `at` on.
pub open spec fn last_chunk(b: Seq<u8>, at: int, kind: Seq<u8>) -> Option<Seq<u8>>
    decreases b.len() - at,
{
    if at + 8 > b.len() || chunk_end(b, at) > b.len() {
        None
    } else {
        match last_chunk(b, chunk_end(b, at), kind) {
            Some(body) => Some(body),
            None => if b.subrange(at + 4, at + 8) == kind {
                Some(b.subrange(at + 8, chunk_end(b, at)))
            } else {
                None
            },
        }
    }
}

/// The JSON chunk and the optional binary chunk of a container, or why there
/// are none. Bytes without the magic are the JSON themselves.
pub open spec fn split_of(b: Seq<u8>) -> Result<(Seq<u8>, Option<Seq<u8>>), Seq<char>> {
    if !has_magic(b) {
        Ok((b, None))
    } else if b.len() < 12 {
        Err("glb truncated before header end"@)
    } else {
        match overrun(b, 12) {
            Some(at) => Err(
                "glb chunk at "@ + text::decimal_chars(at as nat) + " overruns the buffer"@,
            ),
            None => match last_chunk(b, 12, json_kind()) {
                None => Err("glb has no JSON chunk"@),
                Some(json) => Ok((json, last_chunk(b, 12, bin_kind()))),
            },
        }
    }
}

/// The contents of an optional slice.
pub open spec fn opt_bytes(b: Option<&[u8]>) -> Option<Seq<u8>> {
    match b {
        Some(b) => Some(b@),
        None => None,
    }
}

fn is_kind(b: &[u8], at: usize, k0: u8, k1: u8, k2: u8, k3: u8) -> (r: bool)
    requires
        at + 4 <= b@.len(),
    ensures
        r == (b@.subrange(at as int, at + 4) == seq![k0, k1, k2, k3]),
{
    let n: usize = b.len();
    let r = b[at] == k0 && b[at + 1] == k1 && b[at + 2] == k2 && b[at + 3] == k3;
    proof {
        let s = b@.subrange(at as int, at + 4);
        let k = seq![k0, k1, k2, k3];
        if r {
            assert(s =~= k);
        } else {
            assert(s[0] != k[0] || s[1] != k[1] || s[2] != k[2] || s[3] != k[3]);
        }
    }
    r
}

/// Splits a GLB container into its JSON chunk and its optional binary chunk.
/// Bytes without the magic are taken as a bare JSON document.
pub fn split_glb(bytes: &[u8]) -> (r: Result<(&[u8], Option<&[u8]>), String>)
    ensures
        match r {
            Ok((json, bin)) => split_of(bytes@) == Ok::<(Seq<u8>, Option<Seq<u8>>), Seq<char>>(
                (json@, opt_bytes(bin)),
            ),
            Err(e) => split_of(bytes@) == Err::<(Seq<u8>, Option<Seq<u8>>), Seq<char>>(e@),
        },
{
    let n: usize = bytes.len();
    if n < 4 || !is_kind(bytes, 0, 0x67, 0x6C, 0x54, 0x46) {
        return Ok((bytes, None));
    }
    if n < 12 {
        return Err(String::from_str("glb truncated before header end"));
    }
    let mut at: usize = 12;
    let mut json: Option<&[u8]> = None;
    let mut bin: Option<&[u8]> = None;
    while n - at >= 8
        invariant
            n == bytes@.len(),
            12 <= at <= n,
            has_magic(bytes@),
            overrun(bytes@, 12) == overrun(bytes@, at as int),
            last_chunk(bytes@, 12, json_kind()) == (match last_chunk(
                bytes@,
                at as int,
                json_kind(),
            ) {
                Some(b) => Some(b),
                None => opt_bytes(json),
            }),
            last_chunk(bytes@, 12, bin_kind()) == (match last_chunk(
                bytes@,
                at as int,
                bin_kind(),
            ) {
                Some(b) => Some(b),
                None => opt_bytes(bin),
            }),
        decreases n - at,
    {
        let len: u32 = le32(bytes, at);
        if len as u64 > (n - at - 8) as u64 {
            return Err(
                text::join3(
                    "glb chunk at ",
                    text::decimal(at as u64).as_str(),
                    " overruns the buffer",
                ),
            );
        }
        let end: usize = at + 8 + len as usize;
        proof {
            assert(json_kind() != bin_kind()) by {
                assert(json_kind()[0] != bin_kind()[0]);
            }
        }
        let body = &bytes[at + 8..end];
        if is_kind(bytes, at + 4, 0x4A, 0x53, 0x4F, 0x4E) {
            json = Some(body);
        } else if is_kind(bytes, at + 4, 0x42, 0x49, 0x4E, 0) {
            bin = Some(body);
        }
        at = end;
    }
    match json {
        Some(json) => Ok((json, bin)),
        None => Err(String::from_str("glb has no JSON chunk")),
    }
}

/// `s` padded to a multiple of four bytes with `fill`.
pub open spec fn padded(s: Seq<u8>, fill: u8) -> Seq<u8> {
    s + Seq::new(((4 - s.len() % 4) % 4) as nat, |i: int| fill)
}

/// The container of a JSON text and a binary chunk, which is left out when it
/// is empty.
pub open spec fn glb_of(json: Seq<u8>, bin: Seq<u8>) -> Seq<u8> {
    let j = padded(json, 0x20);
    let b = padded(bin, 0);
    let tail = if bin.len() == 0 {
        Seq::empty()
    } else {
        le_bytes(b.len(), 4) + bin_kind() + b
    };
    magic() + le_bytes(2, 4) + le_bytes(12 + 8 + j.len() + tail.len(), 4) + le_bytes(j.len(), 4)
        + json_kind() + j + tail
}

fn padded_len(s: &[u8]) -> (n: u128)
    ensures
        n == padded(s@, 0).len(),
        n <= usize::MAX + 3,
{
    let n: usize = s.len();
    n as u128 + ((4 - n % 4) % 4) as u128
}

fn push_padded(out: &mut Vec<u8>, s: &[u8], fill: u8)
    ensures
        final(out)@ == old(out)@ + padded(s@, fill),
{
    out.extend_from_slice(s);
    let k: usize = (4 - s.len() % 4) % 4;
    let mut i: usize = 0;
    while i < k
        invariant
            i <= k,
            out@ == old(out)@ + s@ + Seq::new(i as nat, |j: int| fill),
        decreases k - i,
    {
        out.push(fill);
        i = i + 1;
        assert(out@ =~= old(out)@ + s@ + Seq::new(i as nat, |j: int| fill));
    }
    assert(out@ =~= old(out)@ + padded(s@, fill));
}

fn push4(out: &mut Vec<u8>, k0: u8, k1: u8, k2: u8, k3: u8)
    ensures
        final(out)@ == old(out)@ + seq![k0, k1, k2, k3],
{
    out.push(k0);
    out.push(k1);
    out.push(k2);
    out.push(k3);
    assert(out@ =~= old(out)@ + seq![k0, k1, k2, k3]);
}

/// Assembles a GLB container from a JSON text and a binary chunk, each padded
/// to a multiple of four bytes.
pub fn assemble_glb(json_bytes: &[u8], bin: &[u8]) -> (glb: Vec<u8>)
    ensures
        glb@ == glb_of(json_bytes@, bin@),
{
    let mut glb: Vec<u8> = Vec::new();
    let json_len: u128 = padded_len(json_bytes);
    let bin_len: u128 = padded_len(bin);
    let tail_len: u128 = if bin.len() == 0 {
        0
    } else {
        8 + bin_len
    };
    push4(&mut glb, 0x67, 0x6C, 0x54, 0x46);
    push_le(&mut glb, 2, 4);
    push_le(&mut glb, 12 + 8 + json_len + tail_len, 4);
    push_le(&mut glb, json_len, 4);
    push4(&mut glb, 0x4A, 0x53, 0x4F, 0x4E);
    push_padded(&mut glb, json_bytes, 0x20);
    proof {
        crate::bytes::lemma_le_bytes_len(bin_len as nat, 4);
    }
    if bin.len() != 0 {
        push_le(&mut glb, bin_len, 4);
        push4(&mut glb, 0x42, 0x49, 0x4E, 0);
        push_padded(&mut glb, bin, 0);
    }
    assert(glb@ =~= glb_of(json_bytes@, bin@));
    glb
}

/// Splitting an assembled container gives back its JSON text and its binary
/// chunk, each with its padding; an empty binary chunk comes back as none.
pub proof fn split_of_assembled(json: Seq<u8>, bin: Seq<u8>)
    requires
        json.len() + 3 < 0x1_0000_0000,
        bin.len() + 3 < 0x1_0000_0000,
    ensures
        split_of(glb_of(json, bin)) == Ok::<(Seq<u8>, Option<Seq<u8>>), Seq<char>>(
            (
                padded(json, 0x20),
                if bin.len() == 0 {
                    None
                } else {
                    Some(padded(bin, 0))
                },
            ),
        ),
{
    let b = glb_of(json, bin);
    let j = padded(json, 0x20);
    let p = padded(bin, 0);
    crate::bytes::lemma_pow256_values();
    crate::bytes::lemma_le_bytes_len(2, 4);
    let total = 12 + 8 + j.len() + (if bin.len() == 0 {
        0
    } else {
        8 + p.len()
    });
    crate::bytes::lemma_le_bytes_len(p.len(), 4);
    crate::bytes::lemma_le_bytes_len(total as nat, 4);
    crate::bytes::le_bytes_read_back(j.len(), 4);
    crate::bytes::le_bytes_read_back(p.len(), 4);
    let mid: int = 20 + j.len() as int;
    assert(b.len() == total);
    assert(b.subrange(0, 4) =~= magic());
    assert(b.subrange(12, 16) =~= le_bytes(j.len(), 4));
    assert(b.subrange(16, 20) =~= json_kind());
    assert(b.subrange(20, mid) =~= j);
    assert(chunk_end(b, 12) == mid);
    assert(json_kind()[0] != bin_kind()[0]);
    reveal_with_fuel(overrun, 3);
    reveal_with_fuel(last_chunk, 3);
    if bin.len() != 0 {
        assert(b.subrange(mid, mid + 4) =~= le_bytes(p.len(), 4));
        assert(b.subrange(mid + 4, mid + 8) =~= bin_kind());
        assert(b.subrange(mid + 8, mid + 8 + p.len()) =~= p);
        assert(chunk_end(b, mid) == b.len());
    }
}

/// The bytes of a tile come back unchanged or unread from preparation: they
/// need a decoder of the platform, or there is nothing to do.
pub open spec fn declined(marks: Marks, georeferenced: bool) -> bool {
    marks.draco || marks.splat || (!georeferenced && marks.none())
}

/// Whether preparation leaves a tile with these marks to its caller.
pub fn declines(marks: &Marks, georeferenced: bool) -> (r: bool)
    ensures
        r == declined(*marks, georeferenced),
{
    marks.draco || marks.splat || (!georeferenced && marks.vanilla())
}

/// What `prepare_would_decline` answers.
pub open spec fn would_decline(bytes: Seq<u8>, georeferenced: bool) -> bool {
    match split_of(bytes) {
        Ok((json, _)) => declined(marks_of(json), georeferenced),
        Err(_) => false,
    }
}

/// Whether preparing these bytes would hand them straight back, unread or
/// unchanged. Bytes that are no container answer no.
pub fn prepare_would_decline(bytes: &[u8], georeferenced: bool) -> (r: bool)
    ensures
        r == would_decline(bytes@, georeferenced),
{
    match split_glb(bytes) {
        Ok((json, _)) => declines(&Marks::scan(json), georeferenced),
        Err(_) => false,
    }
}

/// The JSON names something that geometry extraction never takes.
pub open spec fn unextractable(json: Seq<u8>) -> bool {
    mentions(json, "\"images\""@) || mentions(json, "\"textures\""@) || mentions(
        json,
        "\"extensionsRequired\""@,
    )
}

/// What `extract_would_decline` answers.
pub open spec fn extract_declined(bytes: Seq<u8>, georeferenced: bool) -> bool {
    match split_of(bytes) {
        Ok((json, _)) => {
            let marks = marks_of(json);
            declined(marks, georeferenced) && (unextractable(json) || marks.draco || marks.splat)
        },
        Err(_) => false,
    }
}

/// [`prepare_would_decline`] for a caller that also wants the geometry: a tile
/// with nothing to rewrite is worth the trip, unless its JSON already shows
/// that its geometry cannot be extracted.
pub fn extract_would_decline(bytes: &[u8], georeferenced: bool) -> (r: bool)
    ensures
        r == extract_declined(bytes@, georeferenced),
{
    match split_glb(bytes) {
        Ok((json, _)) => {
            let marks = Marks::scan(json);
            proof {
                reveal_strlit("\"images\"");
                reveal_strlit("\"textures\"");
                reveal_strlit("\"extensionsRequired\"");
            }
            let unextractable = scan_for(json, "\"images\"") || scan_for(json, "\"textures\"")
                || scan_for(json, "\"extensionsRequired\"");
            declines(&marks, georeferenced) && (unextractable || marks.draco || marks.splat)
        },
        Err(_) => false,
    }
}

/// The triage for extraction only ever relaxes the triage for preparation: what
/// it declines, preparation declines too, and the one kind of tile on which
/// they differ is a tile without marks whose JSON names nothing unextractable.
pub proof fn extraction_relaxes_preparation(bytes: Seq<u8>, georeferenced: bool)
    ensures
        extract_declined(bytes, georeferenced) ==> would_decline(bytes, georeferenced),
        would_decline(bytes, georeferenced) && !extract_declined(bytes, georeferenced) ==> (
        split_of(bytes) matches Ok((json, _)) && marks_of(json).none() && !unextractable(json)),
{
}

} // verus!
