//! What extraction gives back of a document.
use crate::extract::{
    child_prims, float_attr, floats_in, indices_of, local_of, mesh_prims, meshes_of, node_prims,
    materials_in, materials_of, numbers_in, optional_attr, own_prims, prim_of, scene_roots, Local, Material, Primitive,
};
use crate::gltf::Component;
use crate::gltf_laws::{
    bytes_of, fits, four, is_stored, lemma_le_digits, lemma_none_outside, lemma_stored, says, two,
    Reading,
};
use crate::graph::{
    lemma_way_longer, lemma_way_shorter, names, node_at, prims_at, starts_at, starts_in,
};
use crate::json::Tree;
use vstd::prelude::*;

verus! {

/// The unsigned number of `width` bytes at `p`.
pub open spec fn unsigned_at(b: Seq<u8>, p: int, width: int) -> int {
    if width == 1 {
        b[p] as int
    } else if width == 2 {
        two(b, p)
    } else {
        four(b, p)
    }
}

/// `v` are the unsigned numbers that the accessor that `attr` names stores.
pub open spec fn are_indices(t: Tree, bin: Option<Seq<u8>>, attr: Tree, v: Seq<u32>) -> bool {
    exists|ix: u64, r: Reading|
        attr.as_u64() == Some(ix) && #[trigger] says(t, ix as int, bytes_of(r.code), r)
            && are_read(t, bin, ix as int, r, v)
}

/// `v` are the unsigned numbers that accessor `ix` stores.
pub open spec fn are_read(t: Tree, bin: Option<Seq<u8>>, ix: int, r: Reading, v: Seq<u32>) -> bool {
    let acc = t.at("accessors"@).item(ix);
    &&& bin is Some
    &&& r.code == 5121 || r.code == 5123 || r.code == 5125
    &&& acc.at("type"@) == Tree::Text("SCALAR"@)
    &&& acc.at("sparse"@) is Null
    &&& fits(r, bytes_of(r.code), bin->Some_0)
    &&& v.len() == r.count
    &&& forall|i: int|
        0 <= i < v.len() ==> #[trigger] v[i] == unsigned_at(
            bin->Some_0,
            r.view + r.offset + i * r.stride,
            bytes_of(r.code),
        )
}

/// Indices are read as they are stored: as many as the accessor counts, each from
/// all of its bytes, where the document says that it stands.
pub proof fn indices_are_read_whole(t: Tree, bin: Option<Seq<u8>>, ix: int) -> (r: Reading)
    requires
        indices_of(t, bin, ix) matches Ok(Some(_)),
    ensures
        says(t, ix, bytes_of(r.code), r),
        are_read(t, bin, ix, r, indices_of(t, bin, ix)->Ok_0->Some_0),
{
    let acc = t.at("accessors"@).item(ix);
    let bv = t.at("bufferViews"@).item(acc.at("bufferView"@).as_u64()->Some_0 as int);
    let code = acc.at("componentType"@).as_u64()->Some_0;
    let width = bytes_of(code);
    let chunk = bin->Some_0;
    let v = indices_of(t, bin, ix)->Ok_0->Some_0;
    let r = Reading {
        count: acc.at("count"@).as_u64()->Some_0,
        code,
        normalized: acc.at("normalized"@) == Tree::Bool(true),
        view: match bv.at("byteOffset"@).as_u64() {
            Some(v) => v as int,
            None => 0,
        },
        len: bv.at("byteLength"@).as_u64()->Some_0 as int,
        offset: match acc.at("byteOffset"@).as_u64() {
            Some(v) => v as int,
            None => 0,
        },
        stride: match bv.at("byteStride"@).as_u64() {
            Some(v) => v as int,
            None => width,
        },
    };
    let view = chunk.subrange(r.view, r.view + r.len);
    lemma_none_outside(view.len(), r.offset, r.stride, width, r.count as int, 0);
    assert forall|i: int| 0 <= i < v.len() implies #[trigger] v[i] == unsigned_at(
        chunk,
        r.view + r.offset + i * r.stride,
        width,
    ) by {
        let p = r.offset + i * r.stride;
        assert(i * r.stride + r.offset + width <= r.len);
        assert(i * r.stride >= 0) by (nonlinear_arith)
            requires
                0 <= i,
                0 <= r.stride,
        ;
        lemma_le_digits(view, p);
        assert(view[p] == chunk[r.view + p]);
        if width >= 2 {
            assert(view[p + 1] == chunk[r.view + p + 1]);
        }
        if width == 4 {
            assert(view[p + 2] == chunk[r.view + p + 2]);
            assert(view[p + 3] == chunk[r.view + p + 3]);
        }
    }
    r
}

/// All numbers of the rows are floats.
pub open spec fn all_floats(rows: Seq<Seq<Component>>, n: int) -> bool {
    forall|i: int, c: int|
        0 <= i < rows.len() && 0 <= c < n ==> (#[trigger] rows[i][c]) is F32
}

/// `rows` are the floats that an attribute stores, none where it is absent.
pub open spec fn is_attribute(t: Tree, bin: Option<Seq<u8>>, attr: Tree, n: int, rows: Option<Seq<Seq<Component>>>) -> bool {
    match rows {
        None => attr is Null,
        Some(rows) => is_stored(t, bin, attr, n, rows) && all_floats(rows, n),
    }
}

/// The geometry of `p` is what the primitive names: its attributes, its indices
/// and its material, and each is absent only where the primitive names none.
pub open spec fn is_geometry(t: Tree, bin: Option<Seq<u8>>, prim: Tree, p: Primitive) -> bool {
    let attrs = prim.at("attributes"@);
    &&& is_attribute(t, bin, attrs.at("POSITION"@), 3, Some(p.positions))
    &&& is_attribute(t, bin, attrs.at("NORMAL"@), 3, p.normals)
    &&& is_attribute(t, bin, attrs.at("TEXCOORD_0"@), 2, p.uvs)
    &&& is_attribute(t, bin, attrs.at("COLOR_0"@), 4, p.colors)
    &&& match p.indices {
        None => prim.at("indices"@) is Null,
        Some(v) => are_indices(t, bin, prim.at("indices"@), v),
    }
    &&& match p.material {
        None => prim.at("material"@) is Null,
        Some(m) => prim.at("material"@).as_u64() == Some(m),
    }
}

proof fn lemma_float(t: Tree, bin: Option<Seq<u8>>, attr: Tree, n: int, dims: Seq<char>)
    requires
        attr.as_u64() is Some,
        float_attr(t, bin, attr.as_u64()->Some_0 as int, n, dims) matches Ok(Some(_)),
    ensures
        is_attribute(
            t,
            bin,
            attr,
            n,
            Some(float_attr(t, bin, attr.as_u64()->Some_0 as int, n, dims)->Ok_0->Some_0),
        ),
{
    let ix = attr.as_u64()->Some_0 as int;
    let rows = float_attr(t, bin, ix, n, dims)->Ok_0->Some_0;
    lemma_stored(t, bin, attr, n);
    let r = crate::gltf_laws::accessors_read_what_is_stored(t, bin, ix, n);
    assert forall|i: int, c: int| 0 <= i < rows.len() && 0 <= c < n implies (
    #[trigger] rows[i][c]) is F32 by {
        assert(crate::gltf_laws::stores(
            bin->Some_0,
            r.view + r.offset + i * r.stride + c * bytes_of(r.code),
            r.code,
            r.normalized,
            rows[i][c],
        ));
    }
}

proof fn lemma_optional(t: Tree, bin: Option<Seq<u8>>, attr: Tree, n: int, dims: Seq<char>)
    requires
        optional_attr(t, bin, attr, n, dims) matches Ok(Some(_)),
    ensures
        is_attribute(t, bin, attr, n, optional_attr(t, bin, attr, n, dims)->Ok_0->Some_0),
{
    if !(attr is Null) {
        lemma_float(t, bin, attr, n, dims);
    }
}

/// An extracted primitive holds what the document's primitive names, all of it
/// and nothing else.
pub proof fn primitives_hold_what_they_name(
    t: Tree,
    bin: Option<Seq<u8>>,
    prim: Tree,
    chain: Seq<Local>,
    mesh_ix: u64,
    prim_ix: u64,
)
    requires
        prim_of(t, bin, prim, chain, mesh_ix, prim_ix) matches Ok(Some(_)),
    ensures
        ({
            let p = prim_of(t, bin, prim, chain, mesh_ix, prim_ix)->Ok_0->Some_0;
            &&& is_geometry(t, bin, prim, p)
            &&& p.transform == chain
            &&& p.mesh_ix == mesh_ix
            &&& p.prim_ix == prim_ix
        }),
{
    let attrs = prim.at("attributes"@);
    lemma_float(t, bin, attrs.at("POSITION"@), 3, "VEC3"@);
    lemma_optional(t, bin, attrs.at("NORMAL"@), 3, "VEC3"@);
    lemma_optional(t, bin, attrs.at("TEXCOORD_0"@), 2, "VEC2"@);
    lemma_optional(t, bin, attrs.at("COLOR_0"@), 4, "VEC4"@);
    let named = prim.at("indices"@);
    if !(named is Null) {
        let ix = named.as_u64()->Some_0;
        let r = indices_are_read_whole(t, bin, ix as int);
        assert(says(t, ix as int, bytes_of(r.code), r));
    }
}

/// `v` are the `n` numbers that `t` lists, none where it is absent.
pub open spec fn lists(t: Tree, n: int, v: Option<Seq<serde_json::Number>>) -> bool {
    match v {
        None => t is Null,
        Some(v) => v.len() == n && t is Array && t.items().len() == n && forall|i: int|
            0 <= i < n ==> #[trigger] t.items()[i] == Tree::Number(v[i]),
    }
}

/// `l` is how a node stands in its parent: by its matrix where it has one, else
/// by its translation, rotation and scale.
pub open spec fn places(node: Tree, l: Local) -> bool {
    match l {
        Local::Matrix(v) => lists(node.at("matrix"@), 16, Some(v)),
        Local::Trs { translation, rotation, scale } => {
            &&& node.at("matrix"@) is Null
            &&& lists(node.at("translation"@), 3, translation)
            &&& lists(node.at("rotation"@), 4, rotation)
            &&& lists(node.at("scale"@), 3, scale)
        },
    }
}

/// A list that holds only numbers is kept, number by number.
pub proof fn lemma_numbers(items: Seq<Tree>)
    ensures
        numbers_in(items).len() <= items.len(),
        numbers_in(items).len() == items.len() ==> forall|i: int|
            0 <= i < items.len() ==> #[trigger] items[i] == Tree::Number(numbers_in(items)[i]),
    decreases items.len(),
{
    if items.len() > 0 {
        lemma_numbers(items.drop_last());
        if numbers_in(items).len() == items.len() {
            assert forall|i: int| 0 <= i < items.len() implies #[trigger] items[i] == Tree::Number(
                numbers_in(items)[i],
            ) by {
                if i < items.len() - 1 {
                    assert(items.drop_last()[i] == items[i]);
                }
            }
        }
    }
}

proof fn lemma_lists(t: Tree, n: int)
    requires
        floats_in(t, n) is Some,
    ensures
        lists(t, n, floats_in(t, n)->Some_0),
{
    lemma_numbers(t.items());
}

/// A node is placed by the numbers that it lists.
pub proof fn nodes_are_placed_as_they_say(node: Tree)
    requires
        local_of(node) is Some,
    ensures
        places(node, local_of(node)->Some_0),
{
    if node.at("matrix"@) is Null {
        lemma_lists(node.at("translation"@), 3);
        lemma_lists(node.at("rotation"@), 4);
        lemma_lists(node.at("scale"@), 3);
    } else {
        lemma_lists(node.at("matrix"@), 16);
    }
}

/// `p` is primitive `k` of the node at the end of the way: it holds that
/// primitive's geometry, and behind `chain` the placement of each node of the
/// way.
pub open spec fn is_prim(
    t: Tree,
    bin: Option<Seq<u8>>,
    chain: Seq<Local>,
    p: Primitive,
    way: Seq<u64>,
    k: int,
) -> bool {
    let prims = prims_at(t, way.last());
    let n = chain.len() as int;
    &&& 0 <= k < prims.len()
    &&& node_at(t, way.last()).at("mesh"@).as_u64() == Some(p.mesh_ix)
    &&& p.prim_ix == k as u64
    &&& prims[k].at("mode"@) is Null || prims[k].at("mode"@).as_u64() == Some(4u64)
    &&& is_geometry(t, bin, prims[k], p)
    &&& p.transform.len() == n + way.len()
    &&& p.transform.take(n) == chain
    &&& forall|i: int| 0 <= i < way.len() ==> places(node_at(t, #[trigger] way[i]), p.transform[n + i])
}

/// Some primitive of the list is primitive `k` at the end of the way.
pub open spec fn was_found(
    t: Tree,
    bin: Option<Seq<u8>>,
    chain: Seq<Local>,
    found: Seq<Primitive>,
    way: Seq<u64>,
    k: int,
) -> bool {
    exists|j: int| 0 <= j < found.len() && is_prim(t, bin, chain, #[trigger] found[j], way, k)
}

/// Primitive `p` lies under node `ix`.
pub open spec fn under_node(t: Tree, bin: Option<Seq<u8>>, ix: u64, chain: Seq<Local>, p: Primitive) -> bool {
    exists|way: Seq<u64>, k: int|
        starts_at(t, ix, way) && #[trigger] is_prim(t, bin, chain, p, way, k)
}

/// Primitive `p` lies under one of the nodes that `list` names.
pub open spec fn under_list(t: Tree, bin: Option<Seq<u8>>, list: Seq<Tree>, chain: Seq<Local>, p: Primitive) -> bool {
    exists|way: Seq<u64>, k: int|
        starts_in(t, list, way) && #[trigger] is_prim(t, bin, chain, p, way, k)
}

/// A mesh hands out all of its primitives, in order.
proof fn lemma_mesh(t: Tree, bin: Option<Seq<u8>>, prims: Seq<Tree>, k: int, chain: Seq<Local>, mesh_ix: u64)
    requires
        0 <= k <= prims.len(),
        mesh_prims(t, bin, prims, k, chain, mesh_ix) matches Ok(Some(_)),
    ensures
        ({
            let found = mesh_prims(t, bin, prims, k, chain, mesh_ix)->Ok_0->Some_0;
            &&& found.len() == k
            &&& forall|j: int|
                0 <= j < k ==> {
                    &&& is_geometry(t, bin, prims[j], #[trigger] found[j])
                    &&& found[j].transform == chain
                    &&& found[j].mesh_ix == mesh_ix
                    &&& found[j].prim_ix == j as u64
                    &&& prims[j].at("mode"@) is Null || prims[j].at("mode"@).as_u64() == Some(4u64)
                }
        }),
    decreases k,
{
    if k > 0 {
        lemma_mesh(t, bin, prims, k - 1, chain, mesh_ix);
        primitives_hold_what_they_name(t, bin, prims[k - 1], chain, mesh_ix, (k - 1) as u64);
    }
}

proof fn lemma_own(t: Tree, bin: Option<Seq<u8>>, ix: u64, chain: Seq<Local>, local: Local)
    requires
        own_prims(t, bin, node_at(t, ix), chain.push(local)) matches Ok(Some(_)),
        local_of(node_at(t, ix)) == Some(local),
    ensures
        ({
            let own = own_prims(t, bin, node_at(t, ix), chain.push(local))->Ok_0->Some_0;
            &&& own.len() == prims_at(t, ix).len()
            &&& forall|j: int|
                0 <= j < own.len() ==> is_prim(t, bin, chain, #[trigger] own[j], seq![ix], j)
        }),
{
    let node = node_at(t, ix);
    let down = chain.push(local);
    let prims = prims_at(t, ix);
    let own = own_prims(t, bin, node, down)->Ok_0->Some_0;
    nodes_are_placed_as_they_say(node);
    if !(node.at("mesh"@) is Null) {
        lemma_mesh(t, bin, prims, prims.len() as int, down, node.at("mesh"@).as_u64()->Some_0);
        assert(down.take(chain.len() as int) =~= chain);
        assert(seq![ix].last() == ix);
    }
}

/// Behind a longer chain, the way is one node shorter.
proof fn lemma_prim_step(
    t: Tree,
    bin: Option<Seq<u8>>,
    chain: Seq<Local>,
    local: Local,
    ix: u64,
    p: Primitive,
    rest: Seq<u64>,
    k: int,
)
    requires
        rest.len() > 0,
        local_of(node_at(t, ix)) == Some(local),
        is_prim(t, bin, chain.push(local), p, rest, k),
    ensures
        is_prim(t, bin, chain, p, seq![ix] + rest, k),
{
    let way = seq![ix] + rest;
    let n = chain.len() as int;
    nodes_are_placed_as_they_say(node_at(t, ix));
    assert(way.last() == rest.last());
    assert(p.transform.take(n + 1) == chain.push(local));
    assert(p.transform.take(n) =~= chain.push(local).take(n));
    assert(chain.push(local).take(n) =~= chain);
    assert(p.transform.take(n + 1)[n] == local);
    assert forall|i: int| 0 <= i < way.len() implies places(
        node_at(t, #[trigger] way[i]),
        p.transform[n + i],
    ) by {
        if i > 0 {
            assert(way[i] == rest[i - 1]);
            assert(p.transform[n + i] == p.transform[n + 1 + (i - 1)]);
        }
    }
}

proof fn lemma_node_sound(t: Tree, bin: Option<Seq<u8>>, ix: u64, chain: Seq<Local>, depth: int, j: int)
    requires
        node_prims(t, bin, ix as int, chain, depth) matches Ok(Some(_)),
        0 <= j < node_prims(t, bin, ix as int, chain, depth)->Ok_0->Some_0.len(),
    ensures
        under_node(t, bin, ix, chain, node_prims(t, bin, ix as int, chain, depth)->Ok_0->Some_0[j]),
    decreases crate::extract::MAX_NODE_DEPTH + 1 - depth, 0int, 0int,
{
    let node = node_at(t, ix);
    let local = local_of(node)->Some_0;
    let down = chain.push(local);
    let own = own_prims(t, bin, node, down)->Ok_0->Some_0;
    let found = node_prims(t, bin, ix as int, chain, depth)->Ok_0->Some_0;
    let p = found[j];
    lemma_own(t, bin, ix, chain, local);
    if j < own.len() {
        assert(p == own[j]);
        assert(starts_at(t, ix, seq![ix]));
        assert(is_prim(t, bin, chain, p, seq![ix], j));
    } else {
        let children = node.at("children"@).items();
        lemma_list_sound(t, bin, children, children.len() as int, down, depth + 1, j - own.len());
        let (rest, k) = choose|way: Seq<u64>, k: int|
            starts_in(t, children, way) && #[trigger] is_prim(t, bin, down, p, way, k);
        lemma_way_longer(t, ix, rest);
        lemma_prim_step(t, bin, chain, local, ix, p, rest, k);
    }
}

proof fn lemma_list_sound(t: Tree, bin: Option<Seq<u8>>, list: Seq<Tree>, n: int, chain: Seq<Local>, depth: int, j: int)
    requires
        0 <= n <= list.len(),
        child_prims(t, bin, list, n, chain, depth) matches Ok(Some(_)),
        0 <= j < child_prims(t, bin, list, n, chain, depth)->Ok_0->Some_0.len(),
    ensures
        under_list(
            t,
            bin,
            list,
            chain,
            child_prims(t, bin, list, n, chain, depth)->Ok_0->Some_0[j],
        ),
    decreases crate::extract::MAX_NODE_DEPTH + 1 - depth, 1int, n,
{
    let found = child_prims(t, bin, list, n, chain, depth)->Ok_0->Some_0;
    let before = child_prims(t, bin, list, n - 1, chain, depth)->Ok_0->Some_0;
    let p = found[j];
    if j < before.len() {
        lemma_list_sound(t, bin, list, n - 1, chain, depth, j);
        assert(before[j] == p);
    } else {
        let ix = list[n - 1].as_u64()->Some_0;
        lemma_node_sound(t, bin, ix, chain, depth, j - before.len());
        let (way, k) = choose|way: Seq<u64>, k: int|
            starts_at(t, ix, way) && #[trigger] is_prim(t, bin, chain, p, way, k);
        assert(names(list, ix));
        assert(starts_in(t, list, way));
        assert(is_prim(t, bin, chain, p, way, k));
    }
}

proof fn lemma_node_complete(t: Tree, bin: Option<Seq<u8>>, ix: u64, chain: Seq<Local>, depth: int, way: Seq<u64>, k: int)
    requires
        node_prims(t, bin, ix as int, chain, depth) matches Ok(Some(_)),
        starts_at(t, ix, way),
        0 <= k < prims_at(t, way.last()).len(),
    ensures
        was_found(
            t,
            bin,
            chain,
            node_prims(t, bin, ix as int, chain, depth)->Ok_0->Some_0,
            way,
            k,
        ),
    decreases crate::extract::MAX_NODE_DEPTH + 1 - depth, 0int, 0int,
{
    let node = node_at(t, ix);
    let local = local_of(node)->Some_0;
    let down = chain.push(local);
    let own = own_prims(t, bin, node, down)->Ok_0->Some_0;
    let found = node_prims(t, bin, ix as int, chain, depth)->Ok_0->Some_0;
    lemma_own(t, bin, ix, chain, local);
    if way.len() == 1 {
        assert(way =~= seq![ix]);
        assert(found[k] == own[k]);
    } else {
        lemma_way_shorter(t, ix, way);
        let rest = way.drop_first();
        let children = node.at("children"@).items();
        let n = children.len() as int;
        assert(rest.last() == way.last());
        assert(children.take(n) =~= children);
        lemma_list_complete(t, bin, children, n, down, depth + 1, rest, k);
        let below = child_prims(t, bin, children, n, down, depth + 1)->Ok_0->Some_0;
        let j = choose|j: int|
            0 <= j < below.len() && is_prim(t, bin, down, #[trigger] below[j], rest, k);
        assert(found[own.len() + j] == below[j]);
        lemma_prim_step(t, bin, chain, local, ix, below[j], rest, k);
    }
}

proof fn lemma_list_complete(
    t: Tree,
    bin: Option<Seq<u8>>,
    list: Seq<Tree>,
    n: int,
    chain: Seq<Local>,
    depth: int,
    way: Seq<u64>,
    k: int,
)
    requires
        0 <= n <= list.len(),
        child_prims(t, bin, list, n, chain, depth) matches Ok(Some(_)),
        starts_in(t, list.take(n), way),
        0 <= k < prims_at(t, way.last()).len(),
    ensures
        was_found(
            t,
            bin,
            chain,
            child_prims(t, bin, list, n, chain, depth)->Ok_0->Some_0,
            way,
            k,
        ),
    decreases crate::extract::MAX_NODE_DEPTH + 1 - depth, 1int, n,
{
    let found = child_prims(t, bin, list, n, chain, depth)->Ok_0->Some_0;
    let before = child_prims(t, bin, list, n - 1, chain, depth)->Ok_0->Some_0;
    let i = choose|i: int|
        0 <= i < list.take(n).len() && (#[trigger] list.take(n)[i]).as_u64() == Some(way[0]);
    if i < n - 1 {
        assert(list.take(n - 1)[i] == list.take(n)[i]);
        lemma_list_complete(t, bin, list, n - 1, chain, depth, way, k);
        let j = choose|j: int|
            0 <= j < before.len() && is_prim(t, bin, chain, #[trigger] before[j], way, k);
        assert(found[j] == before[j]);
    } else {
        let more = node_prims(t, bin, way[0] as int, chain, depth)->Ok_0->Some_0;
        lemma_node_complete(t, bin, way[0], chain, depth, way, k);
        let j = choose|j: int|
            0 <= j < more.len() && is_prim(t, bin, chain, #[trigger] more[j], way, k);
        assert(found[before.len() + j] == more[j]);
    }
}

/// The roots of the scene that is extracted.
pub open spec fn roots_of(t: Tree) -> Seq<Tree> {
    let scene = match t.at("scene"@).as_u64() {
        Some(v) => v as int,
        None => 0,
    };
    t.at("scenes"@).item(scene).at("nodes"@).items()
}

/// Each extracted primitive is one of the document's: it lies at the end of a way
/// from a root of the scene, and holds the placements along that way and the
/// geometry that the document names.
pub proof fn extracted_primitives_are_the_documents(t: Tree, bin: Option<Seq<u8>>, j: int) -> (r: (
    Seq<u64>,
    int,
))
    requires
        meshes_of(t, bin) matches Ok(Some(_)),
        0 <= j < meshes_of(t, bin)->Ok_0->Some_0.primitives.len(),
    ensures
        starts_in(t, roots_of(t), r.0),
        is_prim(
            t,
            bin,
            Seq::empty(),
            meshes_of(t, bin)->Ok_0->Some_0.primitives[j],
            r.0,
            r.1,
        ),
{
    let roots = scene_roots(t)->Some_0;
    let p = meshes_of(t, bin)->Ok_0->Some_0.primitives[j];
    assert(roots =~= roots_of(t));
    lemma_list_sound(t, bin, roots, roots.len() as int, Seq::empty(), 0, j);
    choose|way: Seq<u64>, k: int|
        starts_in(t, roots, way) && #[trigger] is_prim(t, bin, Seq::empty(), p, way, k)
}

/// Every primitive at the end of a way from a root of the scene is extracted.
pub proof fn all_primitives_are_extracted(t: Tree, bin: Option<Seq<u8>>, way: Seq<u64>, k: int) -> (j: int)
    requires
        meshes_of(t, bin) matches Ok(Some(_)),
        starts_in(t, roots_of(t), way),
        0 <= k < prims_at(t, way.last()).len(),
    ensures
        0 <= j < meshes_of(t, bin)->Ok_0->Some_0.primitives.len(),
        is_prim(t, bin, Seq::empty(), meshes_of(t, bin)->Ok_0->Some_0.primitives[j], way, k),
{
    let roots = scene_roots(t)->Some_0;
    let found = meshes_of(t, bin)->Ok_0->Some_0.primitives;
    assert(roots =~= roots_of(t));
    assert(roots.take(roots.len() as int) =~= roots);
    lemma_list_complete(t, bin, roots, roots.len() as int, Seq::empty(), 0, way, k);
    choose|j: int|
        0 <= j < found.len() && is_prim(t, bin, Seq::empty(), #[trigger] found[j], way, k)
}

/// The document describes the floats that `attr` names, `n` to an element, and
/// they are there.
pub open spec fn is_described(t: Tree, bin: Option<Seq<u8>>, attr: Tree, n: int, dims: Seq<char>) -> bool {
    exists|ix: u64, r: Reading|
        attr.as_u64() == Some(ix) && bin is Some && r.code == 5126 && #[trigger] says(
            t,
            ix as int,
            n * 4,
            r,
        ) && fits(r, n * 4, bin->Some_0) && t.at("accessors"@).item(ix as int).at("type"@)
            == Tree::Text(dims) && t.at("accessors"@).item(ix as int).at("sparse"@) is Null
}

/// The document describes the indices that `attr` names, and they are there.
pub open spec fn is_counted(t: Tree, bin: Option<Seq<u8>>, attr: Tree) -> bool {
    exists|ix: u64, r: Reading|
        attr.as_u64() == Some(ix) && bin is Some && (r.code == 5121 || r.code == 5123 || r.code
            == 5125) && #[trigger] says(t, ix as int, bytes_of(r.code), r) && fits(
            r,
            bytes_of(r.code),
            bin->Some_0,
        ) && t.at("accessors"@).item(ix as int).at("type"@) == Tree::Text("SCALAR"@) && t.at(
            "accessors"@,
        ).item(ix as int).at("sparse"@) is Null
}

/// A primitive whose attributes, indices and material are each described, or,
/// but for the positions, not named.
pub open spec fn is_plain(t: Tree, bin: Option<Seq<u8>>, prim: Tree) -> bool {
    let attrs = prim.at("attributes"@);
    &&& is_described(t, bin, attrs.at("POSITION"@), 3, "VEC3"@)
    &&& attrs.at("NORMAL"@) is Null || is_described(t, bin, attrs.at("NORMAL"@), 3, "VEC3"@)
    &&& attrs.at("TEXCOORD_0"@) is Null || is_described(
        t,
        bin,
        attrs.at("TEXCOORD_0"@),
        2,
        "VEC2"@,
    )
    &&& attrs.at("COLOR_0"@) is Null || is_described(t, bin, attrs.at("COLOR_0"@), 4, "VEC4"@)
    &&& prim.at("indices"@) is Null || is_counted(t, bin, prim.at("indices"@))
    &&& prim.at("material"@) is Null || (prim.at("material"@).as_u64() matches Some(m) && m < t.at(
        "materials"@,
    ).items().len())
}

proof fn lemma_described(t: Tree, bin: Option<Seq<u8>>, attr: Tree, n: int, dims: Seq<char>)
    requires
        is_described(t, bin, attr, n, dims),
        n == 2 && dims == "VEC2"@ || n == 3 && dims == "VEC3"@ || n == 4 && dims == "VEC4"@,
    ensures
        attr.as_u64() is Some,
        float_attr(t, bin, attr.as_u64()->Some_0 as int, n, dims) matches Ok(Some(_)),
        optional_attr(t, bin, attr, n, dims) matches Ok(Some(_)),
{
    let (ix, r) = choose|ix: u64, r: Reading|
        attr.as_u64() == Some(ix) && bin is Some && r.code == 5126 && #[trigger] says(
            t,
            ix as int,
            n * 4,
            r,
        ) && fits(r, n * 4, bin->Some_0) && t.at("accessors"@).item(ix as int).at("type"@)
            == Tree::Text(dims) && t.at("accessors"@).item(ix as int).at("sparse"@) is Null;
    crate::gltf_laws::described_accessors_are_read(t, bin->Some_0, ix as int, n, r);
}

proof fn lemma_counted(t: Tree, bin: Option<Seq<u8>>, attr: Tree)
    requires
        is_counted(t, bin, attr),
    ensures
        attr.as_u64() is Some,
        indices_of(t, bin, attr.as_u64()->Some_0 as int) matches Ok(Some(_)),
{
    let (ix, r) = choose|ix: u64, r: Reading|
        attr.as_u64() == Some(ix) && bin is Some && (r.code == 5121 || r.code == 5123 || r.code
            == 5125) && #[trigger] says(t, ix as int, bytes_of(r.code), r) && fits(
            r,
            bytes_of(r.code),
            bin->Some_0,
        ) && t.at("accessors"@).item(ix as int).at("type"@) == Tree::Text("SCALAR"@) && t.at(
            "accessors"@,
        ).item(ix as int).at("sparse"@) is Null;
    lemma_none_outside(r.len as nat, r.offset, r.stride, bytes_of(r.code), r.count as int, 0);
}

/// A primitive that is described is extracted, wherever it stands.
pub proof fn described_primitives_are_extracted(
    t: Tree,
    bin: Option<Seq<u8>>,
    prim: Tree,
    chain: Seq<Local>,
    mesh_ix: u64,
    prim_ix: u64,
)
    requires
        is_plain(t, bin, prim),
    ensures
        prim_of(t, bin, prim, chain, mesh_ix, prim_ix) matches Ok(Some(_)),
{
    let attrs = prim.at("attributes"@);
    lemma_described(t, bin, attrs.at("POSITION"@), 3, "VEC3"@);
    if !(attrs.at("NORMAL"@) is Null) {
        lemma_described(t, bin, attrs.at("NORMAL"@), 3, "VEC3"@);
    }
    if !(attrs.at("TEXCOORD_0"@) is Null) {
        lemma_described(t, bin, attrs.at("TEXCOORD_0"@), 2, "VEC2"@);
    }
    if !(attrs.at("COLOR_0"@) is Null) {
        lemma_described(t, bin, attrs.at("COLOR_0"@), 4, "VEC4"@);
    }
    if !(prim.at("indices"@) is Null) {
        lemma_counted(t, bin, prim.at("indices"@));
    }
}

/// A list of `n` numbers, or nothing.
pub open spec fn may_list(t: Tree, n: int) -> bool {
    t is Null || (t is Array && t.items().len() == n && forall|i: int|
        0 <= i < n ==> (#[trigger] t.items()[i]) is Number)
}

/// A node that is there, placed by numbers, with a mesh of described triangles or
/// none, and with a list of children or none.
pub open spec fn is_sound(t: Tree, bin: Option<Seq<u8>>, ix: u64) -> bool {
    let node = node_at(t, ix);
    let mesh = node.at("mesh"@);
    let prims = t.at("meshes"@).item(mesh.as_u64()->Some_0 as int).at("primitives"@);
    let children = node.at("children"@);
    &&& !(node is Null)
    &&& if node.at("matrix"@) is Null {
        may_list(node.at("translation"@), 3) && may_list(node.at("rotation"@), 4) && may_list(
            node.at("scale"@),
            3,
        )
    } else {
        may_list(node.at("matrix"@), 16)
    }
    &&& mesh is Null || (mesh.as_u64() is Some && prims is Array && forall|k: int|
        0 <= k < prims.items().len() ==> is_drawable(t, bin, #[trigger] prims.items()[k]))
    &&& children is Null || (children is Array && forall|k: int|
        0 <= k < children.items().len() ==> (#[trigger] children.items()[k]).as_u64() is Some)
}

/// Described triangles.
pub open spec fn is_drawable(t: Tree, bin: Option<Seq<u8>>, prim: Tree) -> bool {
    is_plain(t, bin, prim) && (prim.at("mode"@) is Null || prim.at("mode"@).as_u64() == Some(4u64))
}

pub proof fn lemma_all_numbers(items: Seq<Tree>)
    requires
        forall|i: int| 0 <= i < items.len() ==> (#[trigger] items[i]) is Number,
    ensures
        numbers_in(items).len() == items.len(),
    decreases items.len(),
{
    if items.len() > 0 {
        lemma_all_numbers(items.drop_last());
    }
}

proof fn lemma_may_list(t: Tree, n: int)
    requires
        may_list(t, n),
    ensures
        floats_in(t, n) is Some,
        !(t is Null) ==> floats_in(t, n)->Some_0 is Some,
{
    if !(t is Null) {
        lemma_all_numbers(t.items());
    }
}

proof fn lemma_drawable(t: Tree, bin: Option<Seq<u8>>, prims: Seq<Tree>, k: int, chain: Seq<Local>, mesh_ix: u64)
    requires
        0 <= k <= prims.len(),
        forall|i: int| 0 <= i < prims.len() ==> is_drawable(t, bin, #[trigger] prims[i]),
    ensures
        mesh_prims(t, bin, prims, k, chain, mesh_ix) matches Ok(Some(_)),
    decreases k,
{
    if k > 0 {
        lemma_drawable(t, bin, prims, k - 1, chain, mesh_ix);
        assert(is_drawable(t, bin, prims[k - 1]));
        described_primitives_are_extracted(t, bin, prims[k - 1], chain, mesh_ix, (k - 1) as u64);
    }
}

/// What stops extraction on a way: it has too many nodes for one that starts at
/// `depth`, or its last node is unsound.
pub open spec fn is_blocked(t: Tree, bin: Option<Seq<u8>>, depth: int, way: Seq<u64>) -> bool {
    depth + way.len() > 257 || !is_sound(t, bin, way.last())
}

/// Some way on from node `ix` stops extraction.
pub open spec fn blocked_at(t: Tree, bin: Option<Seq<u8>>, ix: u64, depth: int) -> bool {
    exists|way: Seq<u64>| starts_at(t, ix, way) && #[trigger] is_blocked(t, bin, depth, way)
}

/// Some way on from a node that `list` names stops extraction.
pub open spec fn blocked_in(t: Tree, bin: Option<Seq<u8>>, list: Seq<Tree>, depth: int) -> bool {
    exists|way: Seq<u64>| starts_in(t, list, way) && #[trigger] is_blocked(t, bin, depth, way)
}

proof fn lemma_node_taken(t: Tree, bin: Option<Seq<u8>>, ix: u64, chain: Seq<Local>, depth: int)
    requires
        0 <= depth,
        !blocked_at(t, bin, ix, depth),
    ensures
        node_prims(t, bin, ix as int, chain, depth) matches Ok(Some(_)),
    decreases crate::extract::MAX_NODE_DEPTH + 1 - depth, 0int, 0int,
{
    let node = node_at(t, ix);
    let one = seq![ix];
    assert(starts_at(t, ix, one));
    assert(!is_blocked(t, bin, depth, one));
    assert(one.last() == ix);
    if node.at("matrix"@) is Null {
        lemma_may_list(node.at("translation"@), 3);
        lemma_may_list(node.at("rotation"@), 4);
        lemma_may_list(node.at("scale"@), 3);
    } else {
        lemma_may_list(node.at("matrix"@), 16);
    }
    let local = local_of(node)->Some_0;
    let down = chain.push(local);
    let mesh = node.at("mesh"@);
    if !(mesh is Null) {
        let m = mesh.as_u64()->Some_0;
        let prims = t.at("meshes"@).item(m as int).at("primitives"@).items();
        lemma_drawable(t, bin, prims, prims.len() as int, down, m);
    }
    assert(own_prims(t, bin, node, down) matches Ok(Some(_)));
    if node.at("children"@) is Array {
        let children = node.at("children"@).items();
        assert(!blocked_in(t, bin, children, depth + 1)) by {
            if blocked_in(t, bin, children, depth + 1) {
                let rest = choose|way: Seq<u64>|
                    starts_in(t, children, way) && #[trigger] is_blocked(t, bin, depth + 1, way);
                lemma_way_longer(t, ix, rest);
                let way = seq![ix] + rest;
                assert(way.last() == rest.last());
                assert(is_blocked(t, bin, depth, way));
            }
        }
        lemma_list_taken(t, bin, children, children.len() as int, down, depth + 1);
    }
}

proof fn lemma_list_taken(t: Tree, bin: Option<Seq<u8>>, list: Seq<Tree>, n: int, chain: Seq<Local>, depth: int)
    requires
        0 <= depth,
        0 <= n <= list.len(),
        forall|k: int| 0 <= k < list.len() ==> (#[trigger] list[k]).as_u64() is Some,
        !blocked_in(t, bin, list, depth),
    ensures
        child_prims(t, bin, list, n, chain, depth) matches Ok(Some(_)),
    decreases crate::extract::MAX_NODE_DEPTH + 1 - depth, 1int, n,
{
    if n > 0 {
        lemma_list_taken(t, bin, list, n - 1, chain, depth);
        let ix = list[n - 1].as_u64()->Some_0;
        assert(names(list, ix));
        assert(!blocked_at(t, bin, ix, depth)) by {
            if blocked_at(t, bin, ix, depth) {
                let way = choose|way: Seq<u64>|
                    starts_at(t, ix, way) && #[trigger] is_blocked(t, bin, depth, way);
                assert(starts_in(t, list, way));
            }
        }
        lemma_node_taken(t, bin, ix, chain, depth);
    }
}

/// A factor that is a number, or not named.
pub open spec fn may_weigh(t: Tree) -> bool {
    t is Null || t is Number
}

/// `f` is the factor that `t` is, none where it is not named.
pub open spec fn weighs(t: Tree, f: Option<serde_json::Number>) -> bool {
    match f {
        None => t is Null,
        Some(n) => t == Tree::Number(n),
    }
}

/// A material whose factors are numbers, its color four of them, or not named.
pub open spec fn is_paint(m: Tree) -> bool {
    let pbr = m.at("pbrMetallicRoughness"@);
    &&& may_weigh(pbr.at("metallicFactor"@))
    &&& may_weigh(pbr.at("roughnessFactor"@))
    &&& may_list(pbr.at("baseColorFactor"@), 4)
}

/// `x` is what a material says: its factors, whether both sides are drawn, and
/// whether it is lit.
pub open spec fn paints(m: Tree, x: Material) -> bool {
    let pbr = m.at("pbrMetallicRoughness"@);
    &&& weighs(pbr.at("metallicFactor"@), x.metallic)
    &&& weighs(pbr.at("roughnessFactor"@), x.roughness)
    &&& may_list(pbr.at("baseColorFactor"@), 4) ==> lists(
        pbr.at("baseColorFactor"@),
        4,
        x.base_color,
    )
    &&& x.double_sided == (m.at("doubleSided"@) == Tree::Bool(true))
    &&& x.unlit == !(m.at("extensions"@).at("KHR_materials_unlit"@) is Null)
}

proof fn lemma_paints(items: Seq<Tree>, k: int)
    requires
        0 <= k <= items.len(),
    ensures
        (forall|i: int| 0 <= i < k ==> is_paint(#[trigger] items[i])) ==> materials_in(
            items,
            k,
        ) is Some,
        materials_in(items, k) matches Some(v) ==> v.len() == k && forall|i: int|
            0 <= i < k ==> paints(items[i], #[trigger] v[i]),
    decreases k,
{
    if k > 0 {
        lemma_paints(items, k - 1);
        let m = items[k - 1];
        let color = m.at("pbrMetallicRoughness"@).at("baseColorFactor"@);
        if may_list(color, 4) {
            lemma_may_list(color, 4);
            if !(color is Null) {
                lemma_numbers(color.items());
            }
        }
        if materials_in(items, k) is Some {
            let v = materials_in(items, k)->Some_0;
            let before = materials_in(items, k - 1)->Some_0;
            assert(v == before.push(v.last()));
            assert(paints(m, v.last()));
            assert forall|i: int| 0 <= i < k implies paints(items[i], #[trigger] v[i]) by {
                if i < k - 1 {
                    assert(v[i] == before[i]);
                }
            }
        }
    }
}

/// The materials come out in their order, each as it is written down; a list of
/// sound materials is not refused.
pub proof fn materials_say_what_they_are(t: Tree)
    ensures
        t.at("materials"@) is Null ==> materials_of(t) == Some(Seq::<Material>::empty()),
        t.at("materials"@) is Array && (forall|i: int|
            0 <= i < t.at("materials"@).items().len() ==> is_paint(
                #[trigger] t.at("materials"@).items()[i],
            )) ==> materials_of(t) is Some,
        materials_of(t) matches Some(v) ==> v.len() == t.at("materials"@).items().len() && forall|
            i: int,
        |
            0 <= i < v.len() ==> paints(t.at("materials"@).items()[i], #[trigger] v[i]),
{
    let items = t.at("materials"@).items();
    lemma_paints(items, items.len() as int);
}

/// A plain document is extracted: one without images, textures or required
/// extensions, with sound materials and roots, where every node on a way from the
/// roots is sound and no way has more than 257 nodes.
pub proof fn plain_documents_are_extracted(t: Tree, bin: Option<Seq<u8>>)
    requires
        t.at("images"@).items().len() == 0,
        t.at("textures"@).items().len() == 0,
        t.at("extensionsRequired"@).items().len() == 0,
        materials_of(t) is Some,
        scene_roots(t) is Some,
        forall|k: int|
            0 <= k < scene_roots(t)->Some_0.len() ==> (
            #[trigger] scene_roots(t)->Some_0[k]).as_u64() is Some,
        !blocked_in(t, bin, scene_roots(t)->Some_0, 0),
    ensures
        meshes_of(t, bin) matches Ok(Some(_)),
{
    let roots = scene_roots(t)->Some_0;
    let n = roots.len() as int;
    lemma_list_taken(t, bin, roots, n, Seq::empty(), 0);
    materials_say_what_they_are(t);
    let found = child_prims(t, bin, roots, n, Seq::empty(), 0)->Ok_0->Some_0;
    let count = materials_of(t)->Some_0.len();
    assert forall|j: int| 0 <= j < found.len() implies ((#[trigger] found[j]).material matches Some(
        m,
    ) ==> m < count) by {
        lemma_list_sound(t, bin, roots, n, Seq::empty(), 0, j);
        let (way, k) = choose|way: Seq<u64>, k: int|
            starts_in(t, roots, way) && #[trigger] is_prim(
                t,
                bin,
                Seq::<Local>::empty(),
                found[j],
                way,
                k,
            );
        assert(!is_blocked(t, bin, 0, way));
        assert(is_sound(t, bin, way.last()));
        let prims = prims_at(t, way.last());
        assert(is_drawable(t, bin, prims[k]));
    }
}

/// The scene that a document draws is the one that it names, or else its first;
/// a document that names none and has none draws nothing.
pub proof fn scenes_are_chosen_by_name(t: Tree)
    ensures
        t.at("scene"@).as_u64() matches Some(i) && i < t.at("scenes"@).items().len() ==> {
            let nodes = t.at("scenes"@).items()[t.at("scene"@).as_u64()->Some_0 as int].at(
                "nodes"@,
            );
            nodes is Array ==> scene_roots(t) == Some(nodes.items())
        },
        t.at("scene"@) is Null && t.at("scenes"@).items().len() > 0 ==> {
            let nodes = t.at("scenes"@).items()[0].at("nodes"@);
            nodes is Array ==> scene_roots(t) == Some(nodes.items())
        },
        t.at("scene"@) is Null && (t.at("scenes"@) is Null || (t.at("scenes"@) is Array && t.at(
            "scenes"@,
        ).items().len() == 0)) ==> scene_roots(t) == Some(Seq::<Tree>::empty()),
{
}

proof fn lemma_same_start(t: Tree, bin: Option<Seq<u8>>, a: Seq<Tree>, b: Seq<Tree>, k: int, chain: Seq<Local>, depth: int)
    requires
        0 <= k <= a.len(),
    ensures
        child_prims(t, bin, a + b, k, chain, depth) == child_prims(t, bin, a, k, chain, depth),
    decreases k,
{
    if k > 0 {
        lemma_same_start(t, bin, a, b, k - 1, chain, depth);
        assert((a + b)[k - 1] == a[k - 1]);
    }
}

proof fn lemma_walked_in_order(t: Tree, bin: Option<Seq<u8>>, a: Seq<Tree>, b: Seq<Tree>, k: int, chain: Seq<Local>, depth: int)
    requires
        0 <= k <= b.len(),
        child_prims(t, bin, a + b, a.len() + k, chain, depth) matches Ok(Some(_)),
    ensures
        child_prims(t, bin, a, a.len() as int, chain, depth) matches Ok(Some(_)),
        child_prims(t, bin, b, k, chain, depth) matches Ok(Some(_)),
        child_prims(t, bin, a + b, a.len() + k, chain, depth)->Ok_0->Some_0 == child_prims(
            t,
            bin,
            a,
            a.len() as int,
            chain,
            depth,
        )->Ok_0->Some_0 + child_prims(t, bin, b, k, chain, depth)->Ok_0->Some_0,
    decreases k,
{
    let x = child_prims(t, bin, a, a.len() as int, chain, depth)->Ok_0->Some_0;
    let y = child_prims(t, bin, b, k, chain, depth)->Ok_0->Some_0;
    if k == 0 {
        lemma_same_start(t, bin, a, b, a.len() as int, chain, depth);
        assert(x + y =~= x);
    } else {
        lemma_walked_in_order(t, bin, a, b, k - 1, chain, depth);
        assert((a + b)[a.len() + k - 1] == b[k - 1]);
        let before = child_prims(t, bin, b, k - 1, chain, depth)->Ok_0->Some_0;
        let more = node_prims(
            t,
            bin,
            b[k - 1].as_u64()->Some_0 as int,
            chain,
            depth,
        )->Ok_0->Some_0;
        assert((x + before) + more =~= x + (before + more));
    }
}

/// Nodes are walked in the order of their list: what is under the first of them
/// comes before what is under the others.
pub proof fn nodes_are_walked_in_order(t: Tree, bin: Option<Seq<u8>>, a: Seq<Tree>, b: Seq<Tree>, chain: Seq<Local>, depth: int)
    requires
        child_prims(t, bin, a + b, (a + b).len() as int, chain, depth) matches Ok(Some(_)),
    ensures
        child_prims(t, bin, a, a.len() as int, chain, depth) matches Ok(Some(_)),
        child_prims(t, bin, b, b.len() as int, chain, depth) matches Ok(Some(_)),
        child_prims(t, bin, a + b, (a + b).len() as int, chain, depth)->Ok_0->Some_0
            == child_prims(t, bin, a, a.len() as int, chain, depth)->Ok_0->Some_0 + child_prims(
            t,
            bin,
            b,
            b.len() as int,
            chain,
            depth,
        )->Ok_0->Some_0,
{
    lemma_walked_in_order(t, bin, a, b, b.len() as int, chain, depth);
}

/// The primitives of a node come first, in the order of its mesh, and then those
/// of its children.
pub proof fn own_primitives_come_first(t: Tree, bin: Option<Seq<u8>>, ix: u64, chain: Seq<Local>, depth: int)
    requires
        prims_at(t, ix).len() <= u64::MAX,
        node_prims(t, bin, ix as int, chain, depth) matches Ok(Some(_)),
    ensures
        ({
            let v = node_prims(t, bin, ix as int, chain, depth)->Ok_0->Some_0;
            let n = prims_at(t, ix).len() as int;
            let children = node_at(t, ix).at("children"@);
            &&& n <= v.len()
            &&& forall|k: int|
                0 <= k < n ==> (#[trigger] v[k]).prim_ix == k && Some(v[k].mesh_ix) == node_at(
                    t,
                    ix,
                ).at("mesh"@).as_u64() && v[k].transform.len() == chain.len() + 1
            &&& children is Null ==> v.len() == n
            &&& children is Array ==> Ok::<Option<Seq<Primitive>>, Seq<char>>(Some(v.skip(n)))
                == child_prims(
                t,
                bin,
                children.items(),
                children.items().len() as int,
                chain.push(local_of(node_at(t, ix))->Some_0),
                depth + 1,
            )
        }),
{
    let node = node_at(t, ix);
    let local = local_of(node)->Some_0;
    let down = chain.push(local);
    let v = node_prims(t, bin, ix as int, chain, depth)->Ok_0->Some_0;
    let own = own_prims(t, bin, node, down)->Ok_0->Some_0;
    lemma_own(t, bin, ix, chain, local);
    if let Some(m) = node.at("mesh"@).as_u64() {
        lemma_numbered(t, bin, prims_at(t, ix), prims_at(t, ix).len() as int, down, m);
    }
    let n = own.len() as int;
    assert forall|k: int| 0 <= k < n implies (#[trigger] v[k]).prim_ix == k && Some(v[k].mesh_ix)
        == node.at("mesh"@).as_u64() && v[k].transform.len() == chain.len() + 1 by {
        assert(v[k] == own[k]);
    }
    if node.at("children"@) is Array {
        let children = node.at("children"@).items();
        let below = child_prims(
            t,
            bin,
            children,
            children.len() as int,
            down,
            depth + 1,
        )->Ok_0->Some_0;
        assert(v == own + below);
        assert(v.skip(n) =~= below);
    }
}

proof fn lemma_numbered(t: Tree, bin: Option<Seq<u8>>, prims: Seq<Tree>, k: int, chain: Seq<Local>, mesh_ix: u64)
    requires
        0 <= k <= prims.len(),
        mesh_prims(t, bin, prims, k, chain, mesh_ix) matches Ok(Some(_)),
        k <= u64::MAX,
    ensures
        mesh_prims(t, bin, prims, k, chain, mesh_ix)->Ok_0->Some_0.len() == k,
        forall|i: int|
            0 <= i < k ==> (#[trigger] mesh_prims(
                t,
                bin,
                prims,
                k,
                chain,
                mesh_ix,
            )->Ok_0->Some_0[i]).prim_ix == i && mesh_prims(
                t,
                bin,
                prims,
                k,
                chain,
                mesh_ix,
            )->Ok_0->Some_0[i].mesh_ix == mesh_ix && mesh_prims(
                t,
                bin,
                prims,
                k,
                chain,
                mesh_ix,
            )->Ok_0->Some_0[i].transform == chain,
    decreases k,
{
    if k > 0 {
        lemma_numbered(t, bin, prims, k - 1, chain, mesh_ix);
        primitives_hold_what_they_name(t, bin, prims[k - 1], chain, mesh_ix, (k - 1) as u64);
        let v = mesh_prims(t, bin, prims, k, chain, mesh_ix)->Ok_0->Some_0;
        let before = mesh_prims(t, bin, prims, k - 1, chain, mesh_ix)->Ok_0->Some_0;
        assert forall|i: int| 0 <= i < k implies (#[trigger] v[i]).prim_ix == i && v[i].mesh_ix
            == mesh_ix && v[i].transform == chain by {
            if i < k - 1 {
                assert(v[i] == before[i]);
            }
        }
    }
}

} // verus!
