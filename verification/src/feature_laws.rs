//! What feature metadata gives back of a document.
use crate::gltf::{
    accessor_of, features_of, keyed, lossy_text, mesh_features, node_paths,
    prim_features, property_strings, scalar_accessor, string_lies, string_start, vertex_ids_of,
    view_slice, Component, PrimKey,
};
use crate::gltf_laws::{bytes_of, fits, four, is_number_type, lemma_le_digits, says, stores, Reading};
use crate::json::Tree;
use crate::text::decimal_chars;
use vstd::prelude::*;

verus! {

/// Primitive `p` of mesh `m` of a document.
pub open spec fn prim_of(t: Tree, m: int, p: int) -> Tree {
    t.at("meshes"@).item(m).at("primitives"@).item(p)
}

/// The accessor that holds the feature ids of a primitive: that of the attribute
/// whose number the primitive's first feature set names.
pub open spec fn ids_named(prim: Tree) -> Option<u64> {
    let set = prim.at("extensions"@).at("EXT_mesh_features"@).at("featureIds"@).item(0);
    match set.at("attribute"@).as_u64() {
        Some(n) => prim.at("attributes"@).at("_FEATURE_ID_"@ + decimal_chars(n as nat)).as_u64(),
        None => None,
    }
}

proof fn lemma_keyed_add(a: Seq<(PrimKey, u64)>, b: Seq<(PrimKey, u64)>, key: PrimKey, k: int)
    requires
        0 <= k <= b.len(),
    ensures
        keyed(a + b, key, a.len() + k) == match keyed(b, key, k) {
            Some(v) => Some(v),
            None => keyed(a, key, a.len() as int),
        },
    decreases k,
{
    if k > 0 {
        lemma_keyed_add(a, b, key, k - 1);
        assert((a + b)[a.len() + k - 1] == b[k - 1]);
    } else {
        lemma_keyed_prefix(a, b, key, a.len() as int);
    }
}

proof fn lemma_keyed_prefix(a: Seq<(PrimKey, u64)>, b: Seq<(PrimKey, u64)>, key: PrimKey, k: int)
    requires
        0 <= k <= a.len(),
    ensures
        keyed(a + b, key, k) == keyed(a, key, k),
    decreases k,
{
    if k > 0 {
        lemma_keyed_prefix(a, b, key, k - 1);
        assert((a + b)[k - 1] == a[k - 1]);
    }
}

proof fn lemma_prim_features(prims: Seq<Tree>, m: int, k: int, key: PrimKey)
    requires
        0 <= k <= prims.len() <= u64::MAX,
        0 <= m < u64::MAX,
    ensures
        ({
            let list = prim_features(prims, m, k);
            keyed(list, key, list.len() as int) == if key.0 == m && key.1 < k {
                ids_named(prims[key.1 as int])
            } else {
                None
            }
        }),
    decreases k,
{
    if k > 0 {
        lemma_prim_features(prims, m, k - 1, key);
        let rest = prim_features(prims, m, k - 1);
        let list = prim_features(prims, m, k);
        if let Some(a) = ids_named(prims[k - 1]) {
            let one = seq![((m as u64, (k - 1) as u64), a)];
            assert(list =~= rest + one);
            lemma_keyed_add(rest, one, key, 1);
            assert(keyed(one, key, 0) is None);
        }
    }
}

proof fn lemma_mesh_features(meshes: Seq<Tree>, k: int, key: PrimKey)
    requires
        0 <= k <= meshes.len() < u64::MAX,
        forall|i: int|
            0 <= i < meshes.len() ==> (#[trigger] meshes[i]).at("primitives"@).items().len()
                <= u64::MAX,
    ensures
        ({
            let list = mesh_features(meshes, k);
            keyed(list, key, list.len() as int) == if key.0 < k {
                ids_named(meshes[key.0 as int].at("primitives"@).item(key.1 as int))
            } else {
                None
            }
        }),
    decreases k,
{
    if k > 0 {
        lemma_mesh_features(meshes, k - 1, key);
        let prims = meshes[k - 1].at("primitives"@).items();
        let n = prims.len() as int;
        lemma_prim_features(prims, k - 1, n, key);
        let rest = mesh_features(meshes, k - 1);
        let more = prim_features(prims, k - 1, n);
        lemma_keyed_add(rest, more, key, more.len() as int);
        assert((rest + more).len() == rest.len() + more.len());
        if key.0 == k - 1 && key.1 >= n {
            assert(ids_named(meshes[k - 1].at("primitives"@).item(key.1 as int)) is None);
        }
    }
}

/// The ids of a primitive are looked up by its mesh and its place there, and come
/// from the accessor that the primitive itself names.
pub proof fn features_belong_to_their_primitive(t: Tree, m: u64, p: u64)
    requires
        t.at("meshes"@).items().len() < u64::MAX,
        forall|i: int|
            0 <= i < t.at("meshes"@).items().len() ==> (#[trigger] t.at("meshes"@).items()[i]).at(
                "primitives"@,
            ).items().len() <= u64::MAX,
    ensures
        keyed(features_of(t), (m, p), features_of(t).len() as int) == ids_named(
            prim_of(t, m as int, p as int),
        ),
{
    let meshes = t.at("meshes"@).items();
    lemma_mesh_features(meshes, meshes.len() as int, (m, p));
}

/// The ids are read as they are stored: one for each vertex, from all of its
/// bytes.
pub proof fn ids_are_read_whole(t: Tree, bin: Option<Seq<u8>>, a: int) -> (r: Reading)
    requires
        scalar_accessor(t, bin, a) is Ok,
    ensures
        bin is Some,
        says(t, a, bytes_of(r.code), r),
        is_number_type(r.code),
        t.at("accessors"@).item(a).at("type"@) == Tree::Text("SCALAR"@),
        fits(r, bytes_of(r.code), bin->Some_0),
        scalar_accessor(t, bin, a)->Ok_0.len() == r.count,
        forall|i: int|
            0 <= i < r.count ==> stores(
                bin->Some_0,
                r.view + r.offset + i * r.stride,
                r.code,
                r.normalized,
                #[trigger] scalar_accessor(t, bin, a)->Ok_0[i],
            ),
{
    let r = crate::gltf_laws::accessors_read_what_is_stored(t, bin, a, 1);
    let rows = accessor_of(t, bin, a, 1)->Ok_0;
    assert forall|i: int| 0 <= i < r.count implies stores(
        bin->Some_0,
        r.view + r.offset + i * r.stride,
        r.code,
        r.normalized,
        #[trigger] scalar_accessor(t, bin, a)->Ok_0[i],
    ) by {
        assert(rows[i].len() == 1);
        assert(stores(
            bin->Some_0,
            r.view + r.offset + i * r.stride + 0 * bytes_of(r.code),
            r.code,
            r.normalized,
            rows[i][0],
        ));
    }
    r
}

/// Prepared ids are those of the accessors, key by key and in order.
pub proof fn prepared_ids_keep_their_keys(t: Tree, bin: Option<Seq<u8>>, list: Seq<(PrimKey, u64)>, k: int)
    requires
        0 <= k <= list.len(),
        vertex_ids_of(t, bin, list, k) is Ok,
    ensures
        vertex_ids_of(t, bin, list, k)->Ok_0.len() == k,
        forall|i: int|
            0 <= i < k ==> {
                let e = #[trigger] vertex_ids_of(t, bin, list, k)->Ok_0[i];
                e.0 == list[i].0 && scalar_accessor(t, bin, list[i].1 as int) == Ok::<Seq<Component>, Seq<char>>(e.1)
            },
    decreases k,
{
    if k > 0 {
        prepared_ids_keep_their_keys(t, bin, list, k - 1);
    }
}

/// The bytes of a buffer view: where it starts in the binary chunk, and how many
/// there are.
pub open spec fn view_is(t: Tree, ix: u64, start: int, len: int) -> bool {
    let bv = t.at("bufferViews"@).item(ix as int);
    &&& bv.at("buffer"@).as_u64() == Some(0u64)
    &&& start == match bv.at("byteOffset"@).as_u64() {
        Some(v) => v as int,
        None => 0,
    }
    &&& bv.at("byteLength"@).as_u64() matches Some(v) && v == len
}

/// A buffer view is the bytes of the binary chunk where the document says it lies.
pub proof fn views_are_where_they_say(t: Tree, bin: Option<Seq<u8>>, ix: u64, start: int, len: int)
    requires
        view_is(t, ix, start, len),
    ensures
        view_slice(t, bin, ix as int) is Ok <==> bin is Some && start + len <= bin->Some_0.len(),
        view_slice(t, bin, ix as int) matches Ok(b) ==> b == bin->Some_0.subrange(start, start + len),
{
}

/// The path of feature `i` is the text between offsets `i` and `i + 1` of the
/// property's values, and there is one path for each feature of the table.
pub proof fn paths_lie_between_their_offsets(
    t: Tree,
    bin: Seq<u8>,
    values: u64,
    offsets: u64,
    v_start: int,
    v_len: int,
    o_start: int,
    o_len: int,
    count: u64,
    i: int,
)
    requires
        ({
            let table = t.at("extensions"@).at("EXT_structural_metadata"@).at("propertyTables"@).item(0);
            let prop = table.at("properties"@).at("nodePath"@);
            &&& table.at("count"@).as_u64() == Some(count)
            &&& prop.at("values"@).as_u64() == Some(values)
            &&& prop.at("stringOffsets"@).as_u64() == Some(offsets)
        }),
        view_is(t, values, v_start, v_len),
        view_is(t, offsets, o_start, o_len),
        node_paths(t, Some(bin)) is Ok,
        0 <= i < count,
    ensures
        node_paths(t, Some(bin))->Ok_0.len() == count,
        o_start + 4 * i + 8 <= bin.len(),
        ({
            let lo = four(bin, o_start + 4 * i);
            let hi = four(bin, o_start + 4 * i + 4);
            &&& lo <= hi <= v_len
            &&& v_start + v_len <= bin.len()
            &&& node_paths(t, Some(bin))->Ok_0[i] == lossy_text(
                bin.subrange(v_start + lo, v_start + hi),
            )
        }),
{
    views_are_where_they_say(t, Some(bin), values, v_start, v_len);
    views_are_where_they_say(t, Some(bin), offsets, o_start, o_len);
    let vs = bin.subrange(v_start, v_start + v_len);
    let os = bin.subrange(o_start, o_start + o_len);
    assert(node_paths(t, Some(bin)) == property_strings(vs, os, count as int));
    assert(string_lies(vs, os, i));
    lemma_le_digits(os, 4 * i);
    lemma_le_digits(os, 4 * (i + 1));
    assert(string_start(os, i) == four(os, 4 * i));
    assert(string_start(os, i + 1) == four(os, 4 * i + 4));
    let p = 4 * i;
    assert(os[p] == bin[o_start + p]);
    assert(os[p + 1] == bin[o_start + p + 1]);
    assert(os[p + 2] == bin[o_start + p + 2]);
    assert(os[p + 3] == bin[o_start + p + 3]);
    assert(os[p + 4] == bin[o_start + p + 4]);
    assert(os[p + 5] == bin[o_start + p + 5]);
    assert(os[p + 6] == bin[o_start + p + 6]);
    assert(os[p + 7] == bin[o_start + p + 7]);
    let lo = four(bin, o_start + 4 * i);
    let hi = four(bin, o_start + 4 * i + 4);
    assert(vs.subrange(lo, hi) =~= bin.subrange(v_start + lo, v_start + hi));
}

/// A triangle has the feature of its first corner, and there is one for each
/// triangle. A vertex without an id belongs to the first feature.
pub proof fn triangles_have_the_feature_of_their_first_corner(ids: Seq<u32>, indices: Option<Seq<u32>>, vertices: int, t: int)
    requires
        0 <= vertices,
        0 <= t,
        3 * t + 3 <= match indices {
            Some(ix) => ix.len() as int,
            None => vertices,
        },
    ensures
        ({
            let all = crate::content::triangle_features(ids, indices, vertices);
            let corner = match indices {
                Some(ix) => ix[3 * t] as int,
                None => 3 * t,
            };
            &&& t < all.len()
            &&& 3 * all.len() <= match indices {
                Some(ix) => ix.len() as int,
                None => vertices,
            }
            &&& corner < ids.len() ==> all[t] == ids[corner]
            &&& corner >= ids.len() ==> all[t] == 0
        }),
{
}

/// A mesh keeps the ids of its vertices, each at its vertex.
pub proof fn vertices_keep_their_id(ids: Seq<Component>, n: int, v: int)
    requires
        0 <= v < n,
    ensures
        crate::content::vertices_filled(ids, n).len() == n,
        v < ids.len() ==> crate::content::vertices_filled(ids, n)[v] == ids[v],
{
}

/// The prepared ids of a primitive are found under its own key, and only there.
pub proof fn prepared_ids_are_found_by_key(list: Seq<(PrimKey, Seq<Component>)>, key: PrimKey, i: int)
    requires
        0 <= i,
    ensures
        match crate::content::ids_for(list, key, i) {
            Some(ids) => exists|j: int|
                i <= j < list.len() && #[trigger] list[j] == (key, ids) && forall|k: int|
                    i <= k < j ==> (#[trigger] list[k]).0 != key,
            None => forall|j: int| i <= j < list.len() ==> (#[trigger] list[j]).0 != key,
        },
    decreases list.len() - i,
{
    if i < list.len() {
        if list[i].0 == key {
            assert(list[i] == (key, list[i].1));
        } else {
            prepared_ids_are_found_by_key(list, key, i + 1);
            if let Some(ids) = crate::content::ids_for(list, key, i + 1) {
                let j = choose|j: int|
                    i + 1 <= j < list.len() && #[trigger] list[j] == (key, ids) && forall|k: int|
                        i + 1 <= k < j ==> (#[trigger] list[k]).0 != key;
                assert(list[j] == (key, ids));
            }
        }
    }
}

/// A picked triangle resolves to the owner that the host named for its feature, or
/// to the owner of the set where it named none. Nothing can be picked where the
/// set has no owner or the host resolves no features.
pub proof fn picks_resolve_to_their_owner(
    item: crate::spawn::DecodedItem,
    owner: Option<Seq<char>>,
    owners: Option<Seq<Seq<char>>>,
    f: int,
)
    requires
        item is Mesh,
    ensures
        ({
            let c = crate::spawn::cached(item, owner, owners);
            &&& c is Mesh
            &&& c->mesh == item->mesh
            &&& c->material == item->material
            &&& c->Mesh_transform == item->Mesh_transform
            &&& c->pick is Some <==> item->features is Some && owner is Some && owners is Some
            &&& c->pick matches Some(p) ==> {
                &&& p.features == item->features->Some_0.feature_of_triangle@
                &&& p.owners.len() == owners->Some_0.len()
                &&& 0 <= f < p.owners.len() ==> p.owners[f] == if owners->Some_0[f].len() == 0 {
                    owner->Some_0
                } else {
                    owners->Some_0[f]
                }
            }
        }),
{
}

} // verus!
