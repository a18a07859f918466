//! What reading glTF gives back of the bytes that a document is over.
use crate::bytes::{le_at, le_value};
use crate::gltf::{
    accessor_of, buffer_view, component_at, element_at, first_outside, layout_of, sliced, Component,
};
use crate::json::Tree;
use vstd::prelude::*;

verus! {

/// How many bytes a number of glTF type `code` takes.
pub open spec fn bytes_of(code: u64) -> int {
    if code == 5120 || code == 5121 {
        1
    } else if code == 5122 || code == 5123 {
        2
    } else {
        4
    }
}

/// A glTF type of numbers.
pub open spec fn is_number_type(code: u64) -> bool {
    code == 5120 || code == 5121 || code == 5122 || code == 5123 || code == 5125 || code == 5126
}

/// Two bytes as a number, the low one first.
pub open spec fn two(b: Seq<u8>, p: int) -> int {
    b[p] + 0x100 * b[p + 1]
}

/// Four bytes as a number, the lowest first.
pub open spec fn four(b: Seq<u8>, p: int) -> int {
    b[p] + 0x100 * b[p + 1] + 0x1_0000 * b[p + 2] + 0x100_0000 * b[p + 3]
}

/// The bytes at `p` store the number `c` of glTF type `code`; signed numbers are
/// stored in two's complement.
pub open spec fn stores(b: Seq<u8>, p: int, code: u64, normalized: bool, c: Component) -> bool {
    match c {
        Component::F32(v) => code == 5126 && v == four(b, p),
        Component::U32(v) => code == 5125 && v == four(b, p),
        Component::U8(v, n) => code == 5121 && n == normalized && v == b[p],
        Component::U16(v, n) => code == 5123 && n == normalized && v == two(b, p),
        Component::I8(v, n) => code == 5120 && n == normalized && v == if b[p] < 0x80 {
            b[p] as int
        } else {
            b[p] - 0x100
        },
        Component::I16(v, n) => code == 5122 && n == normalized && v == if b[p + 1] < 0x80 {
            two(b, p)
        } else {
            two(b, p) - 0x1_0000
        },
    }
}

pub proof fn lemma_le_digits(b: Seq<u8>, p: int)
    requires
        0 <= p,
    ensures
        p + 1 <= b.len() ==> le_at(b, p, 1) == b[p],
        p + 2 <= b.len() ==> le_at(b, p, 2) == two(b, p),
        p + 4 <= b.len() ==> le_at(b, p, 4) == four(b, p),
{
    reveal_with_fuel(le_value, 5);
    if p + 1 <= b.len() {
        let s = b.subrange(p, p + 1);
        assert(s.drop_first() =~= Seq::<u8>::empty());
    }
    if p + 2 <= b.len() {
        let s = b.subrange(p, p + 2);
        assert(s.drop_first() =~= seq![b[p + 1]]);
        assert(s.drop_first().drop_first() =~= Seq::<u8>::empty());
    }
    if p + 4 <= b.len() {
        let s = b.subrange(p, p + 4);
        assert(s.drop_first() =~= seq![b[p + 1], b[p + 2], b[p + 3]]);
        assert(s.drop_first().drop_first() =~= seq![b[p + 2], b[p + 3]]);
        assert(s.drop_first().drop_first().drop_first() =~= seq![b[p + 3]]);
        assert(s.drop_first().drop_first().drop_first().drop_first() =~= Seq::<u8>::empty());
    }
}

/// A number is read as it is stored, all of its bytes.
pub proof fn numbers_are_read_whole(b: Seq<u8>, p: int, code: u64, normalized: bool)
    requires
        is_number_type(code),
        0 <= p,
        p + bytes_of(code) <= b.len(),
    ensures
        stores(b, p, code, normalized, component_at(b, p, code, normalized)),
{
    lemma_le_digits(b, p);
    if code == 5120 {
        let x = b[p];
        assert((x as i8) as int == if x < 0x80 {
            x as int
        } else {
            x - 0x100
        }) by (bit_vector);
    }
    if code == 5122 {
        let x = two(b, p) as u16;
        assert((x as i16) as int == if x < 0x8000 {
            x as int
        } else {
            x - 0x1_0000
        }) by (bit_vector);
    }
}

/// Two places of the same type read alike only where all of their bytes are the
/// same.
pub proof fn numbers_tell_their_bytes(a: Seq<u8>, p: int, b: Seq<u8>, q: int, code: u64, normalized: bool)
    requires
        is_number_type(code),
        0 <= p,
        p + bytes_of(code) <= a.len(),
        0 <= q,
        q + bytes_of(code) <= b.len(),
        component_at(a, p, code, normalized) == component_at(b, q, code, normalized),
    ensures
        a.subrange(p, p + bytes_of(code)) == b.subrange(q, q + bytes_of(code)),
{
    numbers_are_read_whole(a, p, code, normalized);
    numbers_are_read_whole(b, q, code, normalized);
    let x = a.subrange(p, p + bytes_of(code));
    let y = b.subrange(q, q + bytes_of(code));
    assert forall|i: int| 0 <= i < bytes_of(code) implies x[i] == y[i] by {
        assert(x[i] == a[p + i] && y[i] == b[q + i]);
    }
    assert(x =~= y);
}

/// The name of elements of `n` numbers.
pub open spec fn is_kind(kind: Tree, n: int) -> bool {
    ||| n == 1 && kind == Tree::Text("SCALAR"@)
    ||| n == 2 && kind == Tree::Text("VEC2"@)
    ||| n == 3 && kind == Tree::Text("VEC3"@)
    ||| n == 4 && kind == Tree::Text("VEC4"@)
}

/// What a document says of an accessor: how many elements there are, of which
/// type, and where in the binary chunk element `i` starts.
pub struct Reading {
    pub count: u64,
    pub code: u64,
    pub normalized: bool,
    /// Where its buffer view starts, and how long that is.
    pub view: int,
    pub len: int,
    /// Where in the view the first element starts.
    pub offset: int,
    /// How far apart elements stand.
    pub stride: int,
}

/// The document says `r` of accessor `ix`, whose elements take `width` bytes.
pub open spec fn says(t: Tree, ix: int, width: int, r: Reading) -> bool {
    let acc = t.at("accessors"@).item(ix);
    let at = acc.at("bufferView"@).as_u64();
    let bv = t.at("bufferViews"@).item(at->Some_0 as int);
    &&& acc.at("count"@).as_u64() == Some(r.count)
    &&& acc.at("componentType"@).as_u64() == Some(r.code)
    &&& r.normalized == (acc.at("normalized"@) == Tree::Bool(true))
    &&& r.offset == match acc.at("byteOffset"@).as_u64() {
        Some(v) => v as int,
        None => 0,
    }
    &&& at is Some
    &&& bv.at("buffer"@).as_u64() == Some(0u64)
    &&& r.view == match bv.at("byteOffset"@).as_u64() {
        Some(v) => v as int,
        None => 0,
    }
    &&& bv.at("byteLength"@).as_u64() is Some
    &&& r.len == bv.at("byteLength"@).as_u64()->Some_0
    &&& r.stride == match bv.at("byteStride"@).as_u64() {
        Some(v) => v as int,
        None => width,
    }
}

/// The elements lie in the view, and the view in the binary chunk.
pub open spec fn fits(r: Reading, width: int, bin: Seq<u8>) -> bool {
    &&& r.view + r.len <= bin.len()
    &&& forall|i: int| 0 <= i < r.count ==> #[trigger] (i * r.stride) + r.offset + width <= r.len
}

/// `rows` are the elements that the bytes store, each of `n` numbers.
pub open spec fn reads(bin: Seq<u8>, r: Reading, n: int, rows: Seq<Seq<Component>>) -> bool {
    &&& rows.len() == r.count
    &&& forall|i: int| 0 <= i < r.count ==> (#[trigger] rows[i]).len() == n
    &&& forall|i: int, c: int|
        0 <= i < r.count && 0 <= c < n ==> stores(
            bin,
            r.view + r.offset + i * r.stride + c * bytes_of(r.code),
            r.code,
            r.normalized,
            #[trigger] rows[i][c],
        )
}

pub proof fn lemma_none_outside(len: nat, offset: int, stride: int, width: int, count: int, i: int)
    requires
        0 <= i,
    ensures
        first_outside(len, offset, stride, width, count, i) is None <==> forall|j: int|
            i <= j < count ==> #[trigger] (j * stride) + offset + width <= len,
    decreases count - i,
{
    if i < count {
        lemma_none_outside(len, offset, stride, width, count, i + 1);
        assert(i * stride + offset + width == offset + i * stride + width);
        if offset + i * stride + width <= len {
            assert forall|j: int|
                i <= j < count && (forall|k: int|
                    i + 1 <= k < count ==> #[trigger] (k * stride) + offset + width
                        <= len) implies #[trigger] (j * stride) + offset + width <= len by {
                if j == i {
                }
            }
        }
    }
}

/// An accessor reads back what the binary chunk stores: as many elements as it
/// counts, and each number from the bytes where the document says it stands.
pub proof fn accessors_read_what_is_stored(t: Tree, chunk: Option<Seq<u8>>, ix: int, n: int) -> (r: Reading)
    requires
        accessor_of(t, chunk, ix, n) is Ok,
    ensures
        chunk is Some,
        says(t, ix, n * bytes_of(r.code), r),
        is_number_type(r.code),
        is_kind(t.at("accessors"@).item(ix).at("type"@), n),
        fits(r, n * bytes_of(r.code), chunk->Some_0),
        reads(chunk->Some_0, r, n, accessor_of(t, chunk, ix, n)->Ok_0),
{
    let bin = chunk->Some_0;
    let rows = accessor_of(t, Some(bin), ix, n)->Ok_0;
    let acc = t.at("accessors"@).item(ix);
    let bv = t.at("bufferViews"@).item(acc.at("bufferView"@).as_u64()->Some_0 as int);
    let code = acc.at("componentType"@).as_u64()->Some_0;
    let size = bytes_of(code);
    let width = n * size;
    let r = Reading {
        count: acc.at("count"@).as_u64()->Some_0,
        code,
        normalized: acc.at("normalized"@) == Tree::Bool(true),
        view: match bv.at("byteOffset"@).as_u64() {
            Some(v) => v as int,
            None => 0,
        },
        len: bv.at("byteLength"@).as_u64()->Some_0 as int,
        offset: match acc.at("byteOffset"@).as_u64() {
            Some(v) => v as int,
            None => 0,
        },
        stride: match bv.at("byteStride"@).as_u64() {
            Some(v) => v as int,
            None => width,
        },
    };
    reveal_strlit("SCALAR");
    reveal_strlit("VEC2");
    reveal_strlit("VEC3");
    reveal_strlit("VEC4");
    assert("SCALAR"@.len() == 6);
    assert("VEC2"@[3] == '2');
    assert("VEC3"@[3] == '3');
    assert("VEC4"@[3] == '4');
    let l = layout_of(t, Some(bin), acc, width)->Ok_0;
    lemma_none_outside(l.view.len(), r.offset, r.stride, width, r.count as int, 0);
    assert(l.view == bin.subrange(r.view, r.view + r.len));
    assert forall|i: int| 0 <= i < r.count implies (#[trigger] rows[i]).len() == n by {
        assert(rows[i] == element_at(l.view, r.offset + i * r.stride, n, r.code, r.normalized));
    }
    assert forall|i: int, c: int| 0 <= i < r.count && 0 <= c < n implies stores(
        bin,
        r.view + r.offset + i * r.stride + c * size,
        r.code,
        r.normalized,
        #[trigger] rows[i][c],
    ) by {
        let start = r.offset + i * r.stride;
        let p = start + c * size;
        assert(rows[i] == element_at(l.view, start, n, r.code, r.normalized));
        assert(i * r.stride + r.offset + width <= r.len);
        assert(i * r.stride >= 0) by (nonlinear_arith)
            requires
                0 <= i,
                0 <= r.stride,
        ;
        assert(0 <= c * size && c * size + size <= width) by (nonlinear_arith)
            requires
                0 <= c < n,
                0 < size,
                width == n * size,
        ;
        numbers_are_read_whole(l.view, p, r.code, r.normalized);
        assert forall|j: int| 0 <= j < size implies l.view[p + j] == bin[#[trigger] (r.view + p + j)] by {}
        assert(l.view[p] == bin[r.view + p]);
        if size >= 2 {
            assert(l.view[p + 1] == bin[r.view + p + 1]);
        }
        if size == 4 {
            assert(l.view[p + 2] == bin[r.view + p + 2]);
            assert(l.view[p + 3] == bin[r.view + p + 3]);
        }
    }
    r
}

/// An accessor that the document describes, and whose elements are there, is
/// read.
pub proof fn described_accessors_are_read(t: Tree, bin: Seq<u8>, ix: int, n: int, r: Reading)
    requires
        is_number_type(r.code),
        is_kind(t.at("accessors"@).item(ix).at("type"@), n),
        says(t, ix, n * bytes_of(r.code), r),
        fits(r, n * bytes_of(r.code), bin),
    ensures
        accessor_of(t, Some(bin), ix, n) is Ok,
{
    reveal_strlit("SCALAR");
    reveal_strlit("VEC2");
    reveal_strlit("VEC3");
    reveal_strlit("VEC4");
    assert("SCALAR"@.len() == 6);
    assert("VEC2"@[3] == '2');
    assert("VEC3"@[3] == '3');
    assert("VEC4"@[3] == '4');
    let width = n * bytes_of(r.code);
    lemma_none_outside(r.len as nat, r.offset, r.stride, width, r.count as int, 0);
}

/// `rows` are what the accessor that `attr` names stores, `n` numbers each.
pub open spec fn is_stored(t: Tree, bin: Option<Seq<u8>>, attr: Tree, n: int, rows: Seq<Seq<Component>>) -> bool {
    exists|ix: u64, r: Reading|
        attr.as_u64() == Some(ix) && bin is Some && #[trigger] says(
            t,
            ix as int,
            n * bytes_of(r.code),
            r,
        ) && fits(r, n * bytes_of(r.code), bin->Some_0) && reads(bin->Some_0, r, n, rows)
}

pub proof fn lemma_stored(t: Tree, bin: Option<Seq<u8>>, attr: Tree, n: int)
    requires
        attr.as_u64() is Some,
        accessor_of(t, bin, attr.as_u64()->Some_0 as int, n) is Ok,
    ensures
        is_stored(t, bin, attr, n, accessor_of(t, bin, attr.as_u64()->Some_0 as int, n)->Ok_0),
{
    let ix = attr.as_u64()->Some_0;
    let r = accessors_read_what_is_stored(t, bin, ix as int, n);
    assert(says(t, ix as int, n * bytes_of(r.code), r));
}

} // verus!
