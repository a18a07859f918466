//! What a document holds after Draco primitives were spliced in.
use crate::bytes::{le_bytes, le_bytes_read_back};
use crate::glb::padded;
use crate::gltf_laws::{four, lemma_le_digits};
use crate::json::Tree;
use crate::rewrite::{num, unextended, view_def, DracoPrim};
use crate::splice::{
    accessor_def, accessor_set, attribute_of, attribute_spliced, attributes_spliced, buffer_sized,
    draco_spliced, indices_spliced, list_of, prim_at, prim_spliced, prims_spliced, pushed, slot_of,
    slot_set, with_prim, words, Attribute, Decoded, Doc,
};
use vstd::prelude::*;

verus! {

/// The semantic of slot `a` of a primitive: its attributes in order, and before
/// them its indices.
pub open spec fn semantic_of(prim: DracoPrim, a: int) -> Option<Seq<char>> {
    if a < 0 {
        None
    } else {
        Some(prim.attributes@[a].0@)
    }
}

/// What slot `a` of a primitive holds.
pub open spec fn slot_at(t: Tree, prims: Seq<DracoPrim>, k: int, a: int) -> Tree {
    slot_of(prim_at(t, prims[k].mesh as int, prims[k].prim as int), semantic_of(prims[k], a))
}

/// Slot `a` of primitive `k` is there.
pub open spec fn is_slot(prims: Seq<DracoPrim>, n: int, k: int, a: int) -> bool {
    0 <= k < n && -1 <= a < prims[k].attributes@.len()
}

/// A primitive whose slots can be set.
pub open spec fn is_open(prim: Tree) -> bool {
    prim is Object && (prim.at("attributes"@) is Null || prim.at("attributes"@) is Object)
}

/// A document into which the first `n` primitives can be spliced: each is there
/// and named once, and no two of their slots name the same accessor.
pub open spec fn is_spliceable(t: Tree, prims: Seq<DracoPrim>, n: int) -> bool {
    &&& 0 <= n <= prims.len()
    &&& t is Object
    &&& forall|k: int|
        0 <= k < n ==> is_open(
            prim_at(t, (#[trigger] prims[k]).mesh as int, prims[k].prim as int),
        )
    &&& forall|k: int, j: int|
        0 <= k < j < n ==> (#[trigger] prims[k]).mesh != (#[trigger] prims[j]).mesh || prims[k].prim
            != prims[j].prim
    &&& forall|k: int, a: int, b: int|
        0 <= k < n && 0 <= a < b < prims[k].attributes@.len() ==> (
        #[trigger] prims[k].attributes@[a]).0@ != (#[trigger] prims[k].attributes@[b]).0@
    &&& forall|k: int, a: int|
        is_slot(prims, n, k, a) ==> ((#[trigger] slot_at(t, prims, k, a)).as_u64() matches Some(e)
            ==> e < list_of(t, "accessors"@).len())
    &&& forall|k: int, a: int, j: int, b: int|
        is_slot(prims, n, k, a) && is_slot(prims, n, j, b) && (k != j || a != b) && (
        #[trigger] slot_at(t, prims, k, a)).as_u64() is Some ==> slot_at(t, prims, k, a).as_u64() != (
        #[trigger] slot_at(t, prims, j, b)).as_u64()
}

/// The accessor is over `data`, 32-bit words of the binary chunk that start at
/// `off`, through buffer view `view`.
pub open spec fn is_over(
    d: Doc,
    acc: Tree,
    code: int,
    count: int,
    kind: Seq<char>,
    data: Seq<u32>,
    view: int,
    off: int,
) -> bool {
    let bv = list_of(d.tree, "bufferViews"@)[view];
    &&& acc.at("bufferView"@) == num(view)
    &&& acc.at("byteOffset"@) is Null
    &&& acc.at("componentType"@) == num(code)
    &&& acc.at("count"@) == num(count)
    &&& acc.at("type"@) == Tree::Text(kind)
    &&& acc.at("normalized"@) is Null
    &&& 0 <= view < list_of(d.tree, "bufferViews"@).len()
    &&& bv.at("buffer"@) == num(0)
    &&& bv.at("byteOffset"@) == num(off)
    &&& bv.at("byteLength"@) == num(4 * data.len() as int)
    &&& bv.at("byteStride"@) is Null
    &&& 0 <= off
    &&& off + 4 * data.len() <= d.bin.len()
    &&& forall|i: int| 0 <= i < data.len() ==> four(d.bin, off + 4 * i) == #[trigger] data[i]
}

/// `i` is the first attribute with this id.
pub open spec fn is_first(list: Seq<Attribute>, id: u32, i: int) -> bool {
    &&& 0 <= i < list.len()
    &&& list[i].id == id
    &&& forall|j: int| 0 <= j < i ==> (#[trigger] list[j]).id != id
}

/// The glTF name of elements of `n` numbers.
pub open spec fn kind_of(n: int) -> Seq<char> {
    if n == 1 {
        "SCALAR"@
    } else if n == 2 {
        "VEC2"@
    } else if n == 3 {
        "VEC3"@
    } else {
        "VEC4"@
    }
}

/// The accessor is over what slot `a` of a primitive was decoded to: the indices
/// of the mesh, or its attribute `i`, which is the one with the slot's id.
pub open spec fn is_decoded(d: Doc, acc: Tree, prim: DracoPrim, mesh: Decoded, a: int, i: int, view: int, off: int) -> bool {
    if a < 0 {
        is_over(d, acc, 5125, mesh.indices.len() as int, "SCALAR"@, mesh.indices, view, off)
    } else {
        let x = mesh.attributes[i];
        &&& is_first(mesh.attributes, prim.attributes@[a].1, i)
        &&& 1 <= x.components <= 4
        &&& is_over(
            d,
            acc,
            5126,
            x.data.len() as int / x.components,
            kind_of(x.components),
            x.data,
            view,
            off,
        )
        &&& prim.attributes@[a].0@ == "POSITION"@ ==> acc.at("min"@) == x.min && acc.at("max"@) == x.max
    }
}

/// Where the data of a slot went: its attribute, its accessor, its view and its
/// first byte.
pub struct Spot {
    pub attribute: int,
    pub accessor: int,
    pub view: int,
    pub off: int,
}

/// The document holds at `w` what slot `a` of primitive `k` was decoded to: the
/// slot names an accessor over it, the one that it named before or a new one.
pub open spec fn holds_at(d: Doc, t: Tree, prims: Seq<DracoPrim>, meshes: Seq<Decoded>, k: int, a: int, w: Spot) -> bool {
    &&& 0 <= w.accessor < list_of(d.tree, "accessors"@).len()
    &&& match slot_at(t, prims, k, a).as_u64() {
        Some(e) => w.accessor == e && slot_at(d.tree, prims, k, a) == slot_at(t, prims, k, a),
        None => w.accessor >= list_of(t, "accessors"@).len() && slot_at(d.tree, prims, k, a) == num(
            w.accessor,
        ),
    }
    &&& is_decoded(
        d,
        list_of(d.tree, "accessors"@)[w.accessor],
        prims[k],
        meshes[k],
        a,
        w.attribute,
        w.view,
        w.off,
    )
}

pub open spec fn holds(d: Doc, t: Tree, prims: Seq<DracoPrim>, meshes: Seq<Decoded>, k: int, a: int) -> bool {
    exists|w: Spot| #[trigger] holds_at(d, t, prims, meshes, k, a, w)
}

/// The keys that a splice sets differ.
proof fn lemma_keys()
    ensures
        "meshes"@ != "accessors"@,
        "meshes"@ != "bufferViews"@,
        "accessors"@ != "bufferViews"@,
        "buffers"@ != "meshes"@,
        "buffers"@ != "accessors"@,
        "buffers"@ != "bufferViews"@,
        "attributes"@ != "indices"@,
        "extensions"@ != "attributes"@,
        "extensions"@ != "indices"@,
        "bufferView"@ != "componentType"@,
        "bufferView"@ != "count"@,
        "bufferView"@ != "type"@,
        "componentType"@ != "count"@,
        "componentType"@ != "type"@,
        "count"@ != "type"@,
        "min"@ != "max"@,
        "min"@ != "bufferView"@,
        "min"@ != "componentType"@,
        "min"@ != "count"@,
        "min"@ != "type"@,
        "max"@ != "bufferView"@,
        "max"@ != "componentType"@,
        "max"@ != "count"@,
        "max"@ != "type"@,
        "byteOffset"@ != "bufferView"@,
        "byteOffset"@ != "componentType"@,
        "byteOffset"@ != "count"@,
        "byteOffset"@ != "type"@,
        "byteOffset"@ != "min"@,
        "byteOffset"@ != "max"@,
        "normalized"@ != "bufferView"@,
        "normalized"@ != "componentType"@,
        "normalized"@ != "count"@,
        "normalized"@ != "type"@,
        "normalized"@ != "min"@,
        "normalized"@ != "max"@,
        "buffer"@ != "byteOffset"@,
        "buffer"@ != "byteLength"@,
        "byteOffset"@ != "byteLength"@,
        "byteStride"@ != "buffer"@,
        "byteStride"@ != "byteOffset"@,
        "byteStride"@ != "byteLength"@,
{
    reveal_strlit("meshes");
    reveal_strlit("accessors");
    reveal_strlit("bufferViews");
    reveal_strlit("buffers");
    reveal_strlit("attributes");
    reveal_strlit("indices");
    reveal_strlit("extensions");
    reveal_strlit("bufferView");
    reveal_strlit("componentType");
    reveal_strlit("count");
    reveal_strlit("type");
    reveal_strlit("min");
    reveal_strlit("max");
    reveal_strlit("byteOffset");
    reveal_strlit("normalized");
    reveal_strlit("buffer");
    reveal_strlit("byteLength");
    reveal_strlit("byteStride");
    assert("meshes"@.len() == 6);
    assert("accessors"@.len() == 9);
    assert("bufferViews"@.len() == 11);
    assert("buffers"@.len() == 7);
    assert("attributes"@[0] == 'a');
    assert("extensions"@[0] == 'e');
    assert("indices"@[0] == 'i');
    assert("bufferView"@[0] == 'b');
    assert("componentType"@[2] == 'm');
    assert("count"@.len() == 5);
    assert("type"@.len() == 4);
    assert("min"@[1] == 'i');
    assert("max"@[1] == 'a');
    assert("min"@.len() == 3);
    assert("max"@.len() == 3);
    assert("byteOffset"@[1] == 'y');
    assert("bufferView"@[1] == 'u');
    assert("byteOffset"@.len() == 10);
    assert("componentType"@.len() == 13);
    assert("normalized"@[0] == 'n');
    assert("buffer"@.len() == 6);
    assert("byteLength"@[4] == 'L');
    assert("byteOffset"@[4] == 'O');
    assert("byteStride"@[4] == 'S');
}

/// Words stand in their bytes, one after the other.
proof fn lemma_words(s: Seq<u32>)
    ensures
        words(s).len() == 4 * s.len(),
        forall|i: int| 0 <= i < s.len() ==> four(words(s), 4 * i) == #[trigger] s[i],
    decreases s.len(),
{
    if s.len() > 0 {
        let rest = s.drop_last();
        lemma_words(rest);
        let last = le_bytes(s.last() as nat, 4);
        crate::bytes::lemma_pow256_values();
        le_bytes_read_back(s.last() as nat, 4);
        assert(last.subrange(0, 4) =~= last);
        lemma_le_digits(last, 0);
        let all = words(s);
        assert(all == words(rest) + last);
        assert forall|i: int| 0 <= i < s.len() implies four(all, 4 * i) == #[trigger] s[i] by {
            if i < rest.len() {
                assert(rest[i] == s[i]);
                assert(four(words(rest), 4 * i) == rest[i]);
            } else {
                let n = words(rest).len() as int;
                assert(all[n] == last[0]);
                assert(all[n + 1] == last[1]);
                assert(all[n + 2] == last[2]);
                assert(all[n + 3] == last[3]);
            }
        }
    }
}

/// Replacing a primitive replaces that one, and nothing else.
proof fn lemma_with_prim(t: Tree, m: int, p: int, prim: Tree)
    requires
        t is Object,
        0 <= m,
        0 <= p,
        prim_at(t, m, p) is Object,
    ensures
        ({
            let u = with_prim(t, m, p, prim);
            &&& u is Object
            &&& prim_at(u, m, p) == prim
            &&& forall|i: int, j: int|
                0 <= i && 0 <= j && (i != m || j != p) ==> #[trigger] prim_at(u, i, j) == prim_at(
                    t,
                    i,
                    j,
                )
            &&& u.at("accessors"@) == t.at("accessors"@)
            &&& u.at("bufferViews"@) == t.at("bufferViews"@)
        }),
{
    lemma_keys();
    let u = with_prim(t, m, p, prim);
    let meshes = t.at("meshes"@)->Array_0;
    let prims = meshes[m].at("primitives"@)->Array_0;
    assert(u.at("meshes"@) == Tree::Array(meshes.update(m, crate::splice::mesh_with(meshes[m], p, prim))));
    assert(crate::splice::mesh_with(meshes[m], p, prim).at("primitives"@) == Tree::Array(
        prims.update(p, prim),
    ));
    assert forall|i: int, j: int| 0 <= i && 0 <= j && (i != m || j != p) implies #[trigger] prim_at(
        u,
        i,
        j,
    ) == prim_at(t, i, j) by {
        if i == m {
            assert(prims.update(p, prim).len() == prims.len());
        }
    }
}

/// Setting a slot sets that one, and nothing else of the primitive.
proof fn lemma_slot_set(prim: Tree, sem: Option<Seq<char>>, v: Tree)
    requires
        is_open(prim),
    ensures
        is_open(slot_set(prim, sem, v)),
        slot_of(slot_set(prim, sem, v), sem) == v,
        forall|o: Option<Seq<char>>|
            o != sem ==> #[trigger] slot_of(slot_set(prim, sem, v), o) == slot_of(prim, o),
        slot_set(prim, sem, v).at("extensions"@) == prim.at("extensions"@),
{
    lemma_keys();
    let u = slot_set(prim, sem, v);
    assert forall|o: Option<Seq<char>>| o != sem implies #[trigger] slot_of(u, o) == slot_of(
        prim,
        o,
    ) by {}
}

/// What setting an accessor does to a document.
proof fn lemma_accessor_set(t: Tree, m: int, p: int, sem: Option<Seq<char>>, acc: Tree)
    requires
        t is Object,
        0 <= m,
        0 <= p,
        is_open(prim_at(t, m, p)),
        slot_of(prim_at(t, m, p), sem).as_u64() matches Some(e) ==> e < list_of(
            t,
            "accessors"@,
        ).len(),
    ensures
        ({
            let u = accessor_set(t, m, p, sem, acc);
            let list = list_of(t, "accessors"@);
            let slot = slot_of(prim_at(t, m, p), sem);
            &&& u is Object
            &&& u.at("bufferViews"@) == t.at("bufferViews"@)
            &&& list_of(u, "accessors"@) == match slot.as_u64() {
                Some(e) => list.update(e as int, acc),
                None => list.push(acc),
            }
            &&& is_open(prim_at(u, m, p))
            &&& prim_at(u, m, p).at("extensions"@) == prim_at(t, m, p).at("extensions"@)
            &&& slot_of(prim_at(u, m, p), sem) == match slot.as_u64() {
                Some(e) => slot,
                None => num(list.len() as int),
            }
            &&& forall|o: Option<Seq<char>>|
                o != sem ==> #[trigger] slot_of(prim_at(u, m, p), o) == slot_of(
                    prim_at(t, m, p),
                    o,
                )
            &&& forall|i: int, j: int|
                0 <= i && 0 <= j && (i != m || j != p) ==> #[trigger] prim_at(u, i, j) == prim_at(
                    t,
                    i,
                    j,
                )
        }),
{
    lemma_keys();
    let u = accessor_set(t, m, p, sem, acc);
    let list = list_of(t, "accessors"@);
    match slot_of(prim_at(t, m, p), sem).as_u64() {
        Some(e) => {
            assert(u.at("meshes"@) == t.at("meshes"@));
        },
        None => {
            let t2 = pushed(t, "accessors"@, acc);
            assert(t2.at("meshes"@) == t.at("meshes"@));
            let ix = num(list.len() as int);
            lemma_slot_set(prim_at(t2, m, p), sem, ix);
            lemma_with_prim(t2, m, p, slot_set(prim_at(t2, m, p), sem, ix));
        },
    }
}

/// Everything that `d` holds, `e` holds too: views and bytes only came behind
/// them.
pub open spec fn extends(d: Doc, e: Doc) -> bool {
    let a = list_of(d.tree, "bufferViews"@);
    let b = list_of(e.tree, "bufferViews"@);
    &&& a.len() <= b.len()
    &&& d.bin.len() <= e.bin.len()
    &&& forall|i: int| 0 <= i < a.len() ==> #[trigger] b[i] == a[i]
    &&& forall|i: int| 0 <= i < d.bin.len() ==> #[trigger] e.bin[i] == d.bin[i]
}

proof fn lemma_over_stays(d: Doc, e: Doc, acc: Tree, prim: DracoPrim, mesh: Decoded, a: int, i: int, view: int, off: int)
    requires
        extends(d, e),
        is_decoded(d, acc, prim, mesh, a, i, view, off),
    ensures
        is_decoded(e, acc, prim, mesh, a, i, view, off),
{
    let data = if a < 0 {
        mesh.indices
    } else {
        mesh.attributes[i].data
    };
    assert(list_of(e.tree, "bufferViews"@)[view] == list_of(d.tree, "bufferViews"@)[view]);
    assert forall|x: int| 0 <= x < data.len() implies four(e.bin, off + 4 * x) == #[trigger] data[x] by {
        assert(four(d.bin, off + 4 * x) == data[x]);
        assert(e.bin[off + 4 * x] == d.bin[off + 4 * x]);
        assert(e.bin[off + 4 * x + 1] == d.bin[off + 4 * x + 1]);
        assert(e.bin[off + 4 * x + 2] == d.bin[off + 4 * x + 2]);
        assert(e.bin[off + 4 * x + 3] == d.bin[off + 4 * x + 3]);
    }
}

/// Slot `b` of primitive `j` comes before slot `a` of primitive `k`.
pub open spec fn comes_before(j: int, b: int, k: int, a: int) -> bool {
    j < k || (j == k && b < a)
}

/// The slots up to slot `a` of primitive `k` are spliced in, and the others are
/// as they were.
pub open spec fn is_spliced_to(
    d: Doc,
    t: Tree,
    prims: Seq<DracoPrim>,
    meshes: Seq<Decoded>,
    n: int,
    k: int,
    a: int,
) -> bool {
    &&& d.tree is Object
    &&& list_of(d.tree, "accessors"@).len() >= list_of(t, "accessors"@).len()
    &&& forall|j: int|
        0 <= j < n ==> is_open(
            prim_at(d.tree, (#[trigger] prims[j]).mesh as int, prims[j].prim as int),
        )
    &&& forall|j: int|
        0 <= j < k ==> prim_at(
            d.tree,
            (#[trigger] prims[j]).mesh as int,
            prims[j].prim as int,
        ).at("extensions"@).at("KHR_draco_mesh_compression"@) is Null
    &&& forall|j: int, b: int|
        is_slot(prims, n, j, b) && !comes_before(j, b, k, a) ==> #[trigger] slot_at(
            d.tree,
            prims,
            j,
            b,
        ) == slot_at(t, prims, j, b)
    &&& forall|j: int, b: int|
        is_slot(prims, n, j, b) && comes_before(j, b, k, a) ==> #[trigger] holds(
            d,
            t,
            prims,
            meshes,
            j,
            b,
        )
}

/// One slot more.
proof fn lemma_slot_spliced(
    d: Doc,
    e: Doc,
    t: Tree,
    prims: Seq<DracoPrim>,
    meshes: Seq<Decoded>,
    n: int,
    k: int,
    a: int,
    mid: Tree,
    acc: Tree,
    w: Spot,
)
    requires
        is_spliceable(t, prims, n),
        is_slot(prims, n, k, a),
        is_spliced_to(d, t, prims, meshes, n, k, a),
        mid is Object,
        mid.at("meshes"@) == d.tree.at("meshes"@),
        mid.at("accessors"@) == d.tree.at("accessors"@),
        e.tree == accessor_set(
            mid,
            prims[k].mesh as int,
            prims[k].prim as int,
            semantic_of(prims[k], a),
            acc,
        ),
        extends(d, e),
        is_decoded(e, acc, prims[k], meshes[k], a, w.attribute, w.view, w.off),
    ensures
        is_spliced_to(e, t, prims, meshes, n, k, a + 1),
{
    let m = prims[k].mesh as int;
    let p = prims[k].prim as int;
    let sem = semantic_of(prims[k], a);
    let list = list_of(d.tree, "accessors"@);
    let mine = slot_at(t, prims, k, a);
    assert(!comes_before(k, a, k, a));
    assert(slot_at(d.tree, prims, k, a) == mine);
    assert(prim_at(mid, m, p) == prim_at(d.tree, m, p));
    assert(is_open(prim_at(d.tree, m, p)));
    lemma_accessor_set(mid, m, p, sem, acc);
    assert forall|j: int, b: int| is_slot(prims, n, j, b) && (j != k || b != a) implies #[trigger] slot_at(
        e.tree,
        prims,
        j,
        b,
    ) == slot_at(d.tree, prims, j, b) by {
        if j == k {
            assert(semantic_of(prims[k], b) != sem) by {
                if a >= 0 && b >= 0 {
                    if a < b {
                        assert(prims[k].attributes@[a].0@ != prims[k].attributes@[b].0@);
                    } else {
                        assert(prims[k].attributes@[b].0@ != prims[k].attributes@[a].0@);
                    }
                }
            }
            assert(slot_of(prim_at(e.tree, m, p), semantic_of(prims[k], b)) == slot_of(
                prim_at(mid, m, p),
                semantic_of(prims[k], b),
            ));
        } else {
            assert(prims[j].mesh != m || prims[j].prim != p) by {
                if j < k {
                    assert(prims[j].mesh != prims[k].mesh || prims[j].prim != prims[k].prim);
                } else {
                    assert(prims[k].mesh != prims[j].mesh || prims[k].prim != prims[j].prim);
                }
            }
            assert(prim_at(e.tree, prims[j].mesh as int, prims[j].prim as int) == prim_at(
                mid,
                prims[j].mesh as int,
                prims[j].prim as int,
            ));
        }
    }
    assert forall|j: int| 0 <= j < n implies is_open(
        prim_at(e.tree, (#[trigger] prims[j]).mesh as int, prims[j].prim as int),
    ) && prim_at(e.tree, prims[j].mesh as int, prims[j].prim as int).at("extensions"@) == prim_at(
        d.tree,
        prims[j].mesh as int,
        prims[j].prim as int,
    ).at("extensions"@) by {
        let x = prims[j].mesh as int;
        let y = prims[j].prim as int;
        if x != m || y != p {
            assert(prim_at(e.tree, x, y) == prim_at(mid, x, y));
            assert(prim_at(mid, x, y) == prim_at(d.tree, x, y));
        }
    }
    let spot = Spot {
        accessor: match mine.as_u64() {
            Some(x) => x as int,
            None => list.len() as int,
        },
        ..w
    };
    assert(holds_at(e, t, prims, meshes, k, a, spot));
    assert forall|j: int, b: int|
        is_slot(prims, n, j, b) && comes_before(j, b, k, a + 1) implies #[trigger] holds(
        e,
        t,
        prims,
        meshes,
        j,
        b,
    ) by {
        if j != k || b != a {
            assert(comes_before(j, b, k, a));
            assert(holds(d, t, prims, meshes, j, b));
            let o = choose|o: Spot| #[trigger] holds_at(d, t, prims, meshes, j, b, o);
            assert(slot_at(e.tree, prims, j, b) == slot_at(d.tree, prims, j, b));
            if mine.as_u64() is Some {
                assert(slot_at(t, prims, k, a).as_u64() != slot_at(t, prims, j, b).as_u64());
                assert(o.accessor != mine.as_u64()->Some_0);
            }
            assert(list_of(e.tree, "accessors"@)[o.accessor] == list[o.accessor]);
            lemma_over_stays(
                d,
                e,
                list[o.accessor],
                prims[j],
                meshes[j],
                b,
                o.attribute,
                o.view,
                o.off,
            );
            assert(holds_at(e, t, prims, meshes, j, b, o));
        }
    }
    assert forall|j: int, b: int|
        is_slot(prims, n, j, b) && !comes_before(j, b, k, a + 1) implies #[trigger] slot_at(
        e.tree,
        prims,
        j,
        b,
    ) == slot_at(t, prims, j, b) by {
        assert(slot_at(e.tree, prims, j, b) == slot_at(d.tree, prims, j, b));
    }
}

/// A view over words at the end of the chunk.
proof fn lemma_view_pushed(d: Doc, bin: Seq<u8>, data: Seq<u32>, tree: Tree)
    requires
        d.tree is Object,
        d.bin.len() <= bin.len(),
        forall|i: int| 0 <= i < d.bin.len() ==> #[trigger] bin[i] == d.bin[i],
        tree.at("bufferViews"@) == pushed(
            d.tree,
            "bufferViews"@,
            view_def(bin.len() as int, data.len() as int * 4, None, None),
        ).at("bufferViews"@),
    ensures
        ({
            let e = Doc { tree, bin: bin + words(data) };
            let view = list_of(d.tree, "bufferViews"@).len() as int;
            let off = bin.len() as int;
            let bv = list_of(tree, "bufferViews"@)[view];
            let mid = pushed(d.tree, "bufferViews"@, view_def(off, data.len() as int * 4, None, None));
            &&& mid is Object
            &&& mid.at("meshes"@) == d.tree.at("meshes"@)
            &&& mid.at("accessors"@) == d.tree.at("accessors"@)
            &&& extends(d, e)
            &&& view < list_of(tree, "bufferViews"@).len()
            &&& bv.at("buffer"@) == num(0)
            &&& bv.at("byteOffset"@) == num(off)
            &&& bv.at("byteLength"@) == num(4 * data.len() as int)
            &&& bv.at("byteStride"@) is Null
            &&& off + 4 * data.len() <= e.bin.len()
            &&& forall|i: int| 0 <= i < data.len() ==> four(e.bin, off + 4 * i) == #[trigger] data[i]
        }),
{
    lemma_keys();
    lemma_words(data);
    let e = Doc { tree, bin: bin + words(data) };
    let off = bin.len() as int;
    assert(data.len() * 4 == 4 * data.len());
    assert forall|i: int| 0 <= i < d.bin.len() implies #[trigger] e.bin[i] == d.bin[i] by {
        assert(e.bin[i] == bin[i]);
    }
    assert forall|i: int| 0 <= i < data.len() implies four(e.bin, off + 4 * i) == #[trigger] data[i] by {
        let w = words(data);
        assert(four(w, 4 * i) == data[i]);
        assert(e.bin[off + 4 * i] == w[4 * i]);
        assert(e.bin[off + 4 * i + 1] == w[4 * i + 1]);
        assert(e.bin[off + 4 * i + 2] == w[4 * i + 2]);
        assert(e.bin[off + 4 * i + 3] == w[4 * i + 3]);
    }
}

proof fn lemma_indices(d: Doc, t: Tree, prims: Seq<DracoPrim>, meshes: Seq<Decoded>, n: int, k: int)
    requires
        is_spliceable(t, prims, n),
        0 <= k < n,
        is_spliced_to(d, t, prims, meshes, n, k, -1),
    ensures
        is_spliced_to(
            indices_spliced(d, prims[k].mesh as int, prims[k].prim as int, meshes[k].indices),
            t,
            prims,
            meshes,
            n,
            k,
            0,
        ),
        extends(
            d,
            indices_spliced(d, prims[k].mesh as int, prims[k].prim as int, meshes[k].indices),
        ),
{
    lemma_keys();
    let m = prims[k].mesh as int;
    let p = prims[k].prim as int;
    let data = meshes[k].indices;
    let e = indices_spliced(d, m, p, data);
    let bin = padded(d.bin, 0);
    let view = list_of(d.tree, "bufferViews"@).len() as int;
    let mid = pushed(d.tree, "bufferViews"@, view_def(bin.len() as int, data.len() as int * 4, None, None));
    let acc = accessor_def(view, 5125, data.len() as int, "SCALAR"@);
    assert(prim_at(mid, m, p) == prim_at(d.tree, m, p));
    assert(slot_at(d.tree, prims, k, -1) == slot_at(t, prims, k, -1)) by {
        assert(is_slot(prims, n, k, -1) && !comes_before(k, -1, k, -1));
    }
    assert(is_open(prim_at(d.tree, m, p)));
    lemma_accessor_set(mid, m, p, None, acc);
    lemma_view_pushed(d, bin, data, e.tree);
    let w = Spot { attribute: 0, accessor: 0, view, off: bin.len() as int };
    assert(is_slot(prims, n, k, -1));
    assert(is_decoded(e, acc, prims[k], meshes[k], -1, w.attribute, w.view, w.off));
    lemma_slot_spliced(d, e, t, prims, meshes, n, k, -1, mid, acc, w);
}

proof fn lemma_first(list: Seq<Attribute>, id: u32, i: int) -> (x: int)
    requires
        0 <= i,
        attribute_of(list, id, i) is Some,
        forall|j: int| 0 <= j < i ==> (#[trigger] list[j]).id != id,
    ensures
        is_first(list, id, x),
        attribute_of(list, id, i) == Some(list[x]),
    decreases list.len() - i,
{
    if list[i].id == id {
        i
    } else {
        lemma_first(list, id, i + 1)
    }
}

proof fn lemma_attribute(d: Doc, t: Tree, prims: Seq<DracoPrim>, meshes: Seq<Decoded>, n: int, k: int, a: int)
    requires
        is_spliceable(t, prims, n),
        0 <= k < n,
        0 <= a < prims[k].attributes@.len(),
        is_spliced_to(d, t, prims, meshes, n, k, a),
        attribute_spliced(
            d,
            prims[k].mesh as int,
            prims[k].prim as int,
            prims[k].attributes@[a].0@,
            prims[k].attributes@[a].1,
            meshes[k],
        ) is Ok,
    ensures
        ({
            let e = attribute_spliced(
                d,
                prims[k].mesh as int,
                prims[k].prim as int,
                prims[k].attributes@[a].0@,
                prims[k].attributes@[a].1,
                meshes[k],
            )->Ok_0;
            is_spliced_to(e, t, prims, meshes, n, k, a + 1) && extends(d, e)
        }),
{
    lemma_keys();
    let m = prims[k].mesh as int;
    let p = prims[k].prim as int;
    let sem = prims[k].attributes@[a].0@;
    let id = prims[k].attributes@[a].1;
    let e = attribute_spliced(d, m, p, sem, id, meshes[k])->Ok_0;
    let i = lemma_first(meshes[k].attributes, id, 0);
    let x = meshes[k].attributes[i];
    let data = x.data;
    let view = list_of(d.tree, "bufferViews"@).len() as int;
    let off = d.bin.len() as int;
    let mid = pushed(d.tree, "bufferViews"@, view_def(off, data.len() as int * 4, None, None));
    let base = accessor_def(view, 5126, data.len() as int / x.components, kind_of(x.components));
    let acc = if sem == "POSITION"@ {
        base.with("min"@, x.min).with("max"@, x.max)
    } else {
        base
    };
    assert(e.tree == accessor_set(mid, m, p, Some(sem), acc));
    assert(prim_at(mid, m, p) == prim_at(d.tree, m, p));
    assert(slot_at(d.tree, prims, k, a) == slot_at(t, prims, k, a)) by {
        assert(is_slot(prims, n, k, a) && !comes_before(k, a, k, a));
    }
    assert(is_open(prim_at(d.tree, m, p)));
    lemma_accessor_set(mid, m, p, Some(sem), acc);
    lemma_view_pushed(d, d.bin, data, e.tree);
    let w = Spot { attribute: i, accessor: 0, view, off };
    assert(is_slot(prims, n, k, a));
    assert(is_decoded(e, acc, prims[k], meshes[k], a, w.attribute, w.view, w.off));
    lemma_slot_spliced(d, e, t, prims, meshes, n, k, a, mid, acc, w);
}

proof fn lemma_attributes(d: Doc, t: Tree, prims: Seq<DracoPrim>, meshes: Seq<Decoded>, n: int, k: int, a: int)
    requires
        is_spliceable(t, prims, n),
        0 <= k < n,
        0 <= a <= prims[k].attributes@.len(),
        is_spliced_to(d, t, prims, meshes, n, k, 0),
        attributes_spliced(
            d,
            prims[k].mesh as int,
            prims[k].prim as int,
            prims[k].attributes@,
            a,
            meshes[k],
        ) is Ok,
    ensures
        ({
            let e = attributes_spliced(
                d,
                prims[k].mesh as int,
                prims[k].prim as int,
                prims[k].attributes@,
                a,
                meshes[k],
            )->Ok_0;
            is_spliced_to(e, t, prims, meshes, n, k, a) && extends(d, e)
        }),
    decreases a,
{
    if a > 0 {
        lemma_attributes(d, t, prims, meshes, n, k, a - 1);
        let x = attributes_spliced(
            d,
            prims[k].mesh as int,
            prims[k].prim as int,
            prims[k].attributes@,
            a - 1,
            meshes[k],
        )->Ok_0;
        lemma_attribute(x, t, prims, meshes, n, k, a - 1);
    }
}

/// The extension of a primitive leaves, and nothing else of it.
proof fn lemma_unextended(prim: Tree)
    requires
        is_open(prim),
    ensures
        ({
            let u = unextended(prim, "KHR_draco_mesh_compression"@);
            &&& is_open(u)
            &&& forall|o: Option<Seq<char>>| #[trigger] slot_of(u, o) == slot_of(prim, o)
            &&& u.at("extensions"@).at("KHR_draco_mesh_compression"@) is Null
        }),
{
    lemma_keys();
    let u = unextended(prim, "KHR_draco_mesh_compression"@);
    assert(u.at("attributes"@) == prim.at("attributes"@));
    assert(u.at("indices"@) == prim.at("indices"@));
    assert forall|o: Option<Seq<char>>| #[trigger] slot_of(u, o) == slot_of(prim, o) by {}
}

/// A document whose slots, accessors, views and bytes are those of another holds
/// what that one holds.
proof fn lemma_holds_stays(d: Doc, e: Doc, t: Tree, prims: Seq<DracoPrim>, meshes: Seq<Decoded>, k: int, a: int)
    requires
        holds(d, t, prims, meshes, k, a),
        slot_at(e.tree, prims, k, a) == slot_at(d.tree, prims, k, a),
        e.tree.at("accessors"@) == d.tree.at("accessors"@),
        extends(d, e),
    ensures
        holds(e, t, prims, meshes, k, a),
{
    let o = choose|o: Spot| #[trigger] holds_at(d, t, prims, meshes, k, a, o);
    lemma_over_stays(
        d,
        e,
        list_of(d.tree, "accessors"@)[o.accessor],
        prims[k],
        meshes[k],
        a,
        o.attribute,
        o.view,
        o.off,
    );
    assert(holds_at(e, t, prims, meshes, k, a, o));
}

proof fn lemma_prim(d: Doc, t: Tree, prims: Seq<DracoPrim>, meshes: Seq<Decoded>, n: int, k: int)
    requires
        is_spliceable(t, prims, n),
        0 <= k < n,
        is_spliced_to(d, t, prims, meshes, n, k, -1),
        prim_spliced(d, prims[k], meshes[k]) is Ok,
    ensures
        is_spliced_to(prim_spliced(d, prims[k], meshes[k])->Ok_0, t, prims, meshes, n, k + 1, -1),
        extends(d, prim_spliced(d, prims[k], meshes[k])->Ok_0),
{
    let m = prims[k].mesh as int;
    let p = prims[k].prim as int;
    let list = prims[k].attributes@;
    let b = indices_spliced(d, m, p, meshes[k].indices);
    lemma_indices(d, t, prims, meshes, n, k);
    lemma_attributes(b, t, prims, meshes, n, k, list.len() as int);
    let x = attributes_spliced(b, m, p, list, list.len() as int, meshes[k])->Ok_0;
    let e = prim_spliced(d, prims[k], meshes[k])->Ok_0;
    let old = prim_at(x.tree, m, p);
    assert(is_open(old));
    lemma_unextended(old);
    lemma_with_prim(x.tree, m, p, unextended(old, "KHR_draco_mesh_compression"@));
    assert(extends(x, e));
    assert forall|j: int, c: int| is_slot(prims, n, j, c) implies #[trigger] slot_at(
        e.tree,
        prims,
        j,
        c,
    ) == slot_at(x.tree, prims, j, c) by {
        if prims[j].mesh == m && prims[j].prim == p {
            assert(slot_of(prim_at(e.tree, m, p), semantic_of(prims[j], c)) == slot_of(
                old,
                semantic_of(prims[j], c),
            ));
        } else {
            assert(prim_at(e.tree, prims[j].mesh as int, prims[j].prim as int) == prim_at(
                x.tree,
                prims[j].mesh as int,
                prims[j].prim as int,
            ));
        }
    }
    assert forall|j: int| 0 <= j < n implies is_open(
        prim_at(e.tree, (#[trigger] prims[j]).mesh as int, prims[j].prim as int),
    ) && (j <= k ==> prim_at(e.tree, prims[j].mesh as int, prims[j].prim as int).at(
        "extensions"@,
    ).at("KHR_draco_mesh_compression"@) is Null) by {
        let y = prims[j].mesh as int;
        let z = prims[j].prim as int;
        if y != m || z != p {
            assert(prim_at(e.tree, y, z) == prim_at(x.tree, y, z));
        }
    }
    assert forall|j: int, c: int|
        is_slot(prims, n, j, c) && comes_before(j, c, k + 1, -1) implies #[trigger] holds(
        e,
        t,
        prims,
        meshes,
        j,
        c,
    ) by {
        assert(comes_before(j, c, k, list.len() as int));
        assert(holds(x, t, prims, meshes, j, c));
        assert(slot_at(e.tree, prims, j, c) == slot_at(x.tree, prims, j, c));
        lemma_holds_stays(x, e, t, prims, meshes, j, c);
    }
    assert forall|j: int, c: int|
        is_slot(prims, n, j, c) && !comes_before(j, c, k + 1, -1) implies #[trigger] slot_at(
        e.tree,
        prims,
        j,
        c,
    ) == slot_at(t, prims, j, c) by {
        assert(!comes_before(j, c, k, list.len() as int));
        assert(slot_at(x.tree, prims, j, c) == slot_at(t, prims, j, c));
    }
}

proof fn lemma_prims(d: Doc, prims: Seq<DracoPrim>, meshes: Seq<Decoded>, n: int, k: int)
    requires
        is_spliceable(d.tree, prims, n),
        0 <= k <= n,
        prims_spliced(d, prims, meshes, k) is Ok,
    ensures
        is_spliced_to(prims_spliced(d, prims, meshes, k)->Ok_0, d.tree, prims, meshes, n, k, -1),
        extends(d, prims_spliced(d, prims, meshes, k)->Ok_0),
    decreases k,
{
    if k > 0 {
        lemma_prims(d, prims, meshes, n, k - 1);
        let x = prims_spliced(d, prims, meshes, k - 1)->Ok_0;
        lemma_prim(x, d.tree, prims, meshes, n, k - 1);
    }
}

/// A splice puts the `k`th decoded mesh into the `k`th primitive: its indices
/// name an accessor over that mesh's indices, and each of its attributes one over
/// the data of that mesh's attribute with the same id. The accessors are new, or
/// the ones that the slots already named. The views and the bytes that were there
/// stay where they are, and no primitive has the extension any more.
pub proof fn spliced_primitives_hold_their_mesh(
    t: Tree,
    bin: Option<Seq<u8>>,
    prims: Seq<DracoPrim>,
    meshes: Seq<Decoded>,
    k: int,
    a: int,
) -> (w: Spot)
    requires
        prims.len() <= meshes.len(),
        is_spliceable(t, prims, prims.len() as int),
        draco_spliced(t, bin, prims, meshes) is Ok,
        is_slot(prims, prims.len() as int, k, a),
    ensures
        ({
            let d = draco_spliced(t, bin, prims, meshes)->Ok_0;
            let before = Doc {
                tree: t,
                bin: match bin {
                    Some(b) => b,
                    None => Seq::empty(),
                },
            };
            &&& holds_at(d, t, prims, meshes, k, a, w)
            &&& extends(before, d)
            &&& prim_at(d.tree, prims[k].mesh as int, prims[k].prim as int).at("extensions"@).at(
                "KHR_draco_mesh_compression"@,
            ) is Null
        }),
{
    lemma_keys();
    let n = prims.len() as int;
    let start = Doc {
        tree: t,
        bin: match bin {
            Some(b) => b,
            None => Seq::empty(),
        },
    };
    lemma_prims(start, prims, meshes, n, n);
    let x = prims_spliced(start, prims, meshes, n)->Ok_0;
    let d = draco_spliced(t, bin, prims, meshes)->Ok_0;
    assert(d.tree.at("meshes"@) == x.tree.at("meshes"@));
    assert(d.tree.at("accessors"@) == x.tree.at("accessors"@));
    assert(d.tree.at("bufferViews"@) == x.tree.at("bufferViews"@));
    assert(extends(x, d));
    assert(comes_before(k, a, n, -1));
    assert(holds(x, t, prims, meshes, k, a));
    assert(slot_at(d.tree, prims, k, a) == slot_at(x.tree, prims, k, a));
    lemma_holds_stays(x, d, t, prims, meshes, k, a);
    choose|w: Spot| #[trigger] holds_at(d, t, prims, meshes, k, a, w)
}

} // verus!
