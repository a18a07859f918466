//! What the rewrites of a document leave as it was, and what they change.
use crate::gltf::Message;
use crate::json::Tree;
use crate::rewrite::{
    basisu_rewritten, decoded_at, dracos_of, indices, jobs_of, kept, mesh_dracos,
    meshopt_rewritten, node_moved, num, plain_texture, plan_of, prim_dracos,
    rewritten, root_moved, stripped, translation_of, undeclared, unextended, unlisted, Plan,
};
use vstd::prelude::*;

verus! {

/// `a` comes before `b` in a document: its mesh does, or it does in their mesh.
pub open spec fn comes_first(a: (int, int), b: (int, int)) -> bool {
    a.0 < b.0 || (a.0 == b.0 && a.1 < b.1)
}

/// The Draco extension of primitive `p` of mesh `m`.
pub open spec fn draco_at(t: Tree, m: int, p: int) -> Tree {
    t.at("meshes"@).item(m).at("primitives"@).item(p).at("extensions"@).at(
        "KHR_draco_mesh_compression"@,
    )
}

/// A complete Draco extension.
pub open spec fn is_complete(ext: Tree) -> bool {
    ext.at("bufferView"@).as_u64() is Some && ext.at("attributes"@) is Object
}

proof fn lemma_prim_dracos(t: Tree, m: int, prims: Seq<Tree>, k: int)
    requires
        0 <= m,
        prims == t.at("meshes"@).item(m).at("primitives"@).items(),
        0 <= k <= prims.len(),
    ensures
        ({
            let list = prim_dracos(prims, m, k);
            &&& forall|j: int|
                0 <= j < list.len() ==> {
                    let d = #[trigger] list[j];
                    &&& d.0 == m
                    &&& 0 <= d.1 < k
                    &&& draco_at(t, d.0, d.1).at("bufferView"@).as_u64() == Some(d.2)
                    &&& draco_at(t, d.0, d.1).at("attributes"@) == Tree::Object(d.3)
                }
            &&& forall|i: int, j: int|
                0 <= i < j < list.len() ==> (#[trigger] list[i]).1 < (#[trigger] list[j]).1
            &&& forall|p: int|
                0 <= p < k && is_complete(#[trigger] draco_at(t, m, p)) ==> exists|j: int|
                    0 <= j < list.len() && (#[trigger] list[j]).0 == m && list[j].1 == p
        }),
    decreases k,
{
    if k > 0 {
        lemma_prim_dracos(t, m, prims, k - 1);
        let had = prim_dracos(prims, m, k - 1);
        let list = prim_dracos(prims, m, k);
        assert(draco_at(t, m, k - 1) == prims[k - 1].at("extensions"@).at(
            "KHR_draco_mesh_compression"@,
        ));
        assert forall|p: int| 0 <= p < k && is_complete(#[trigger] draco_at(t, m, p)) implies exists|
            j: int,
        |
            0 <= j < list.len() && (#[trigger] list[j]).0 == m && list[j].1 == p by {
            if p < k - 1 {
                let j = choose|j: int|
                    0 <= j < had.len() && (#[trigger] had[j]).0 == m && had[j].1 == p;
                assert(list[j] == had[j]);
            } else {
                assert(list[had.len() as int].1 == p);
            }
        }
    }
}

proof fn lemma_mesh_dracos(t: Tree, k: int)
    requires
        0 <= k <= t.at("meshes"@).items().len(),
    ensures
        ({
            let list = mesh_dracos(t.at("meshes"@).items(), k);
            &&& forall|j: int|
                0 <= j < list.len() ==> {
                    let d = #[trigger] list[j];
                    &&& 0 <= d.0 < k
                    &&& 0 <= d.1
                    &&& draco_at(t, d.0, d.1).at("bufferView"@).as_u64() == Some(d.2)
                    &&& draco_at(t, d.0, d.1).at("attributes"@) == Tree::Object(d.3)
                }
            &&& forall|i: int, j: int|
                0 <= i < j < list.len() ==> comes_first(
                    ((#[trigger] list[i]).0, list[i].1),
                    ((#[trigger] list[j]).0, list[j].1),
                )
            &&& forall|m: int, p: int|
                0 <= m < k && 0 <= p && is_complete(#[trigger] draco_at(t, m, p)) ==> exists|j: int|
                    0 <= j < list.len() && (#[trigger] list[j]).0 == m && list[j].1 == p
        }),
    decreases k,
{
    if k > 0 {
        let meshes = t.at("meshes"@).items();
        let prims = meshes[k - 1].at("primitives"@).items();
        lemma_mesh_dracos(t, k - 1);
        lemma_prim_dracos(t, k - 1, prims, prims.len() as int);
        let had = mesh_dracos(meshes, k - 1);
        let more = prim_dracos(prims, k - 1, prims.len() as int);
        let list = mesh_dracos(meshes, k);
        assert(list == had + more);
        assert forall|j: int| had.len() <= j < list.len() implies #[trigger] list[j] == more[j
            - had.len()] by {}
        assert forall|m: int, p: int|
            0 <= m < k && 0 <= p && is_complete(#[trigger] draco_at(t, m, p)) implies exists|j: int|
            0 <= j < list.len() && (#[trigger] list[j]).0 == m && list[j].1 == p by {
            if m < k - 1 {
                let j = choose|j: int|
                    0 <= j < had.len() && (#[trigger] had[j]).0 == m && had[j].1 == p;
                assert(list[j] == had[j]);
            } else {
                assert(p < prims.len());
                let j = choose|j: int|
                    0 <= j < more.len() && (#[trigger] more[j]).0 == m && more[j].1 == p;
                assert(list[had.len() + j] == more[j]);
            }
        }
    }
}

/// The Draco primitives are found in the order of the document, each with the
/// view and the attributes that its own extension names, and none is left out.
pub proof fn dracos_are_found_in_place(t: Tree)
    ensures
        ({
            let list = dracos_of(t);
            &&& forall|j: int|
                0 <= j < list.len() ==> {
                    let d = #[trigger] list[j];
                    &&& 0 <= d.0 && 0 <= d.1
                    &&& draco_at(t, d.0, d.1).at("bufferView"@).as_u64() == Some(d.2)
                    &&& draco_at(t, d.0, d.1).at("attributes"@) == Tree::Object(d.3)
                }
            &&& forall|i: int, j: int|
                0 <= i < j < list.len() ==> comes_first(
                    ((#[trigger] list[i]).0, list[i].1),
                    ((#[trigger] list[j]).0, list[j].1),
                )
            &&& forall|m: int, p: int|
                0 <= m && 0 <= p && is_complete(#[trigger] draco_at(t, m, p)) ==> exists|j: int|
                    0 <= j < list.len() && (#[trigger] list[j]).0 == m && list[j].1 == p
        }),
{
    let n = t.at("meshes"@).items().len() as int;
    lemma_mesh_dracos(t, n);
    assert forall|m: int, p: int|
        0 <= m && 0 <= p && is_complete(#[trigger] draco_at(t, m, p)) implies m < n by {}
}

/// The names that stay are all the others, in order.
proof fn lemma_kept(items: Seq<Tree>, a: Seq<char>, b: Seq<char>)
    ensures
        kept(items, a, b) == items.filter(|x: Tree| x != Tree::Text(a) && x != Tree::Text(b)),
    decreases items.len(),
{
    let other = |x: Tree| x != Tree::Text(a) && x != Tree::Text(b);
    reveal(Seq::filter);
    if items.len() > 0 {
        lemma_kept(items.drop_last(), a, b);
    }
}

/// The list `key` of `u` is that of `t` without two names; where nothing is left
/// there is no list.
pub open spec fn lacks(t: Tree, u: Tree, key: Seq<char>, a: Seq<char>, b: Seq<char>) -> bool {
    match t.at(key) {
        Tree::Array(items) => {
            let rest = items.filter(|x: Tree| x != Tree::Text(a) && x != Tree::Text(b));
            if rest.len() == 0 {
                !u.has(key)
            } else {
                u.at(key) == Tree::Array(rest)
            }
        },
        _ => u.at(key) == t.at(key),
    }
}

proof fn lemma_unlisted(t: Tree, key: Seq<char>, a: Seq<char>, b: Seq<char>)
    ensures
        lacks(t, unlisted(t, key, a, b), key, a, b),
        forall|k: Seq<char>| k != key ==> #[trigger] unlisted(t, key, a, b).at(k) == t.at(k),
        t is Object ==> unlisted(t, key, a, b) is Object,
{
    lemma_kept(t.at(key).items(), a, b);
    let u = unlisted(t, key, a, b);
    assert forall|k: Seq<char>| k != key implies #[trigger] u.at(k) == t.at(k) by {}
}

/// A document stops declaring two extensions: they leave both lists, and every
/// other name and every other member stays as it is.
pub proof fn undeclaring_touches_nothing_else(t: Tree, a: Seq<char>, b: Seq<char>)
    ensures
        lacks(t, undeclared(t, a, b), "extensionsUsed"@, a, b),
        lacks(t, undeclared(t, a, b), "extensionsRequired"@, a, b),
        forall|k: Seq<char>|
            k != "extensionsUsed"@ && k != "extensionsRequired"@ ==> #[trigger] undeclared(
                t,
                a,
                b,
            ).at(k) == t.at(k),
{
    reveal_strlit("extensionsUsed");
    reveal_strlit("extensionsRequired");
    assert("extensionsUsed"@.len() == 14);
    assert("extensionsRequired"@.len() == 18);
    let u = unlisted(t, "extensionsUsed"@, a, b);
    lemma_unlisted(t, "extensionsUsed"@, a, b);
    lemma_unlisted(u, "extensionsRequired"@, a, b);
    let v = undeclared(t, a, b);
    assert(v.at("extensionsUsed"@) == u.at("extensionsUsed"@));
    assert forall|k: Seq<char>|
        k != "extensionsUsed"@ && k != "extensionsRequired"@ implies #[trigger] v.at(k) == t.at(k) by {
        assert(u.at(k) == t.at(k));
    }
}

/// One extension leaves, and every other one and every other member stays.
pub proof fn unextending_touches_nothing_else(t: Tree, name: Seq<char>)
    ensures
        ({
            let u = unextended(t, name);
            &&& u.at("extensions"@).at(name) is Null
            &&& forall|k: Seq<char>|
                k != name ==> #[trigger] u.at("extensions"@).at(k) == t.at("extensions"@).at(k)
            &&& forall|k: Seq<char>| k != "extensions"@ ==> #[trigger] u.at(k) == t.at(k)
        }),
{
    let u = unextended(t, name);
    if let Tree::Object(m) = t.at("extensions"@) {
        assert forall|k: Seq<char>| k != name implies #[trigger] u.at("extensions"@).at(k) == t.at(
            "extensions"@,
        ).at(k) by {
            if m.remove(name) == Map::<Seq<char>, Tree>::empty() {
                assert(m.contains_key(k) == m.remove(name).contains_key(k));
            }
        }
    }
}

/// Stripping drops the two extensions that the decoder handles, from the lists and
/// the root alike, and leaves the geometry alone.
pub proof fn stripping_drops_the_handled_extensions(t: Tree)
    ensures
        ({
            let u = stripped(t);
            &&& lacks(
                unextended(t, "CESIUM_RTC"@),
                u,
                "extensionsRequired"@,
                "KHR_draco_mesh_compression"@,
                "CESIUM_RTC"@,
            )
            &&& u.at("extensions"@).at("CESIUM_RTC"@) is Null
            &&& u.at("meshes"@) == t.at("meshes"@)
            &&& u.at("accessors"@) == t.at("accessors"@)
            &&& u.at("bufferViews"@) == t.at("bufferViews"@)
            &&& u.at("buffers"@) == t.at("buffers"@)
            &&& u.at("nodes"@) == t.at("nodes"@)
            &&& u.at("materials"@) == t.at("materials"@)
        }),
{
    reveal_strlit("extensionsUsed");
    reveal_strlit("extensionsRequired");
    reveal_strlit("extensions");
    reveal_strlit("meshes");
    reveal_strlit("accessors");
    reveal_strlit("bufferViews");
    reveal_strlit("buffers");
    reveal_strlit("nodes");
    reveal_strlit("materials");
    assert("extensionsUsed"@.len() == 14);
    assert("extensionsRequired"@.len() == 18);
    assert("extensions"@.len() == 10);
    assert("meshes"@.len() == 6);
    assert("accessors"@.len() == 9);
    assert("bufferViews"@.len() == 11);
    assert("buffers"@.len() == 7);
    assert("nodes"@.len() == 5);
    assert("materials"@.len() == 9);
    let u = unextended(t, "CESIUM_RTC"@);
    unextending_touches_nothing_else(t, "CESIUM_RTC"@);
    undeclaring_touches_nothing_else(u, "KHR_draco_mesh_compression"@, "CESIUM_RTC"@);
    assert(stripped(t).at("extensions"@) == u.at("extensions"@));
}

/// The start that a view or an extension names.
pub open spec fn start_in(t: Tree) -> int {
    match t.at("byteOffset"@).as_u64() {
        Some(v) => v as int,
        None => 0,
    }
}

/// A compressed view hands the decoder the bytes that its extension names, with
/// the count, the stride, the mode and the filter that it states. Any other view
/// keeps its own bytes.
pub proof fn views_hand_out_their_own_bytes(bv: Tree, bin: Seq<u8>)
    requires
        plan_of(bv, bin) is Ok,
    ensures
        ({
            let ext = bv.at("extensions"@).at("EXT_meshopt_compression"@);
            match plan_of(bv, bin)->Ok_0 {
                Plan::Decode(job) => {
                    let start = start_in(ext);
                    &&& ext is Object
                    &&& ext.at("count"@).as_u64() == Some(job.count)
                    &&& ext.at("byteStride"@).as_u64() == Some(job.stride)
                    &&& ext.at("mode"@) == Tree::Text(job.mode)
                    &&& match ext.at("filter"@) {
                        Tree::Text(f) => job.filter == f,
                        _ => job.filter == "NONE"@,
                    }
                    &&& ext.at("byteLength"@).as_u64() == Some(job.src.len() as u64)
                    &&& start + job.src.len() <= bin.len()
                    &&& forall|i: int| 0 <= i < job.src.len() ==> #[trigger] job.src[i] == bin[start + i]
                },
                Plan::Copy { bytes, stride, target } => {
                    let start = start_in(bv);
                    &&& !(ext is Object)
                    &&& bv.at("byteLength"@).as_u64() == Some(bytes.len() as u64)
                    &&& start + bytes.len() <= bin.len()
                    &&& forall|i: int| 0 <= i < bytes.len() ==> #[trigger] bytes[i] == bin[start + i]
                    &&& stride == bv.at("byteStride"@).as_u64()
                    &&& target == bv.at("target"@).as_u64()
                },
            }
        }),
{
}

/// The decoder's results go to the jobs that they were made for: the `j`th job is
/// that of the `j`th compressed view, and so is the `j`th result.
pub proof fn results_go_to_their_jobs(views: Seq<Tree>, bin: Seq<u8>, decoded: Seq<Result<Seq<u8>, Message>>, k: int, i: int)
    requires
        0 <= i < k <= views.len(),
        rewritten(views, bin, decoded, k) is Ok,
        plan_of(views[i], bin) matches Ok(Plan::Decode(_)),
    ensures
        ({
            let j = rewritten(views, bin, decoded, i)->Ok_0.decoded;
            let jobs = jobs_of(views, bin, k).0;
            &&& 0 <= j < jobs.len()
            &&& jobs.len() == rewritten(views, bin, decoded, k)->Ok_0.decoded
            &&& jobs[j] == plan_of(views[i], bin)->Ok_0->Decode_0
            &&& decoded_at(decoded, j) is Ok
            &&& crate::rewrite::view_data(views, bin, decoded, i) == decoded_at(decoded, j)->Ok_0
        }),
    decreases k,
{
    lemma_jobs_counted(views, bin, decoded, k);
    lemma_jobs_counted(views, bin, decoded, k - 1);
    if i < k - 1 {
        results_go_to_their_jobs(views, bin, decoded, k - 1, i);
    } else {
        lemma_jobs_counted(views, bin, decoded, i);
    }
}

proof fn lemma_jobs_counted(views: Seq<Tree>, bin: Seq<u8>, decoded: Seq<Result<Seq<u8>, Message>>, k: int)
    requires
        0 <= k <= views.len(),
    ensures
        rewritten(views, bin, decoded, k) matches Ok(r) ==> jobs_of(views, bin, k).1 && jobs_of(
            views,
            bin,
            k,
        ).0.len() == r.decoded,
    decreases k,
{
    if k > 0 {
        lemma_jobs_counted(views, bin, decoded, k - 1);
    }
}

/// A document of compressed views becomes one over a single buffer, the new binary
/// chunk: it has the rewritten views, declares the extension no more, and is
/// otherwise as it was.
pub proof fn rewritten_documents_are_over_one_buffer(t: Tree, bin: Seq<u8>, decoded: Seq<Result<Seq<u8>, Message>>)
    requires
        t is Object,
        meshopt_rewritten(t, Some(bin), decoded) is Ok,
    ensures
        ({
            let (u, out) = meshopt_rewritten(t, Some(bin), decoded)->Ok_0;
            let views = t.at("bufferViews"@).items();
            let r = rewritten(views, bin, decoded, views.len() as int)->Ok_0;
            &&& out == r.bin
            &&& u.at("bufferViews"@) == Tree::Array(r.views)
            &&& u.at("buffers"@).items().len() == 1
            &&& u.at("buffers"@).item(0).at("byteLength"@) == num(out.len() as int)
            &&& u.at("accessors"@) == t.at("accessors"@)
            &&& u.at("meshes"@) == t.at("meshes"@)
            &&& u.at("nodes"@) == t.at("nodes"@)
            &&& lacks(
                t,
                u,
                "extensionsRequired"@,
                "EXT_meshopt_compression"@,
                "EXT_meshopt_compression"@,
            )
        }),
{
    reveal_strlit("extensionsUsed");
    reveal_strlit("extensionsRequired");
    reveal_strlit("bufferViews");
    reveal_strlit("buffers");
    reveal_strlit("accessors");
    reveal_strlit("meshes");
    reveal_strlit("nodes");
    assert("extensionsUsed"@.len() == 14);
    assert("extensionsRequired"@.len() == 18);
    assert("bufferViews"@.len() == 11);
    assert("buffers"@.len() == 7);
    assert("accessors"@.len() == 9);
    assert("meshes"@.len() == 6);
    assert("nodes"@.len() == 5);
    let views = t.at("bufferViews"@).items();
    let r = rewritten(views, bin, decoded, views.len() as int)->Ok_0;
    let buffers = Tree::Array(
        seq![crate::rewrite::bare().with("byteLength"@, num(r.bin.len() as int))],
    );
    let mid = t.assigned("bufferViews"@, Tree::Array(r.views)).assigned("buffers"@, buffers);
    undeclaring_touches_nothing_else(
        mid,
        "EXT_meshopt_compression"@,
        "EXT_meshopt_compression"@,
    );
    assert(mid.at("extensionsRequired"@) == t.at("extensionsRequired"@));
}

/// A texture names the image of its Basis extension in the standard place, and has
/// that extension no more. Any other texture stays as it is.
pub proof fn textures_name_their_image(t: Tree, i: int)
    requires
        t.at("textures"@) is Array,
        0 <= i < t.at("textures"@).items().len(),
    ensures
        ({
            let was = t.at("textures"@).items()[i];
            let now = basisu_rewritten(t).at("textures"@).item(i);
            &&& basisu_rewritten(t).at("textures"@).items().len() == t.at("textures"@).items().len()
            &&& basisu_rewritten(t).at("images"@) == t.at("images"@)
            &&& match was.at("extensions"@).at("KHR_texture_basisu"@).at("source"@).as_u64() {
                Some(image) => {
                    &&& now.at("source"@) == num(image as int)
                    &&& now.at("extensions"@).at("KHR_texture_basisu"@) is Null
                    &&& now.at("sampler"@) == was.at("sampler"@)
                },
                None => now == was,
            }
        }),
{
    reveal_strlit("extensionsUsed");
    reveal_strlit("extensionsRequired");
    reveal_strlit("textures");
    reveal_strlit("images");
    reveal_strlit("source");
    reveal_strlit("sampler");
    reveal_strlit("extensions");
    assert("extensionsUsed"@.len() == 14);
    assert("extensionsRequired"@.len() == 18);
    assert("textures"@.len() == 8);
    assert("images"@[0] == 'i');
    assert("source"@.len() == 6);
    assert("source"@[0] == 's');
    assert("sampler"@.len() == 7);
    assert("extensions"@.len() == 10);
    let items = t.at("textures"@).items();
    let moved = t.with(
        "textures"@,
        Tree::Array(items.map_values(|x: Tree| plain_texture(x))),
    );
    undeclaring_touches_nothing_else(moved, "KHR_texture_basisu"@, "KHR_texture_basisu"@);
    let was = items[i];
    if let Some(image) = was.at("extensions"@).at("KHR_texture_basisu"@).at("source"@).as_u64() {
        unextending_touches_nothing_else(
            was.with("source"@, num(image as int)),
            "KHR_texture_basisu"@,
        );
    }
    assert(basisu_rewritten(t).at("textures"@).item(i) == plain_texture(was));
}

/// A root that is moved stands where it was moved to, and keeps its name, its mesh
/// and its children. No other node moves.
pub proof fn moved_roots_stand_there(
    t: Tree,
    ix: int,
    x: serde_json::Number,
    y: serde_json::Number,
    z: serde_json::Number,
)
    requires
        t is Object,
        t.at("nodes"@) is Array,
        0 <= ix < t.at("nodes"@).items().len(),
        ({
            let node = t.at("nodes"@).items()[ix];
            node is Object && (node.at("matrix"@) is Array ==> node.at("matrix"@).items().len() == 16)
        }),
    ensures
        ({
            let u = root_moved(t, ix, Tree::Number(x), Tree::Number(y), Tree::Number(z));
            let was = t.at("nodes"@).items()[ix];
            let now = u.at("nodes"@).items()[ix];
            &&& u.at("nodes"@).items().len() == t.at("nodes"@).items().len()
            &&& translation_of(now) == (Some(x), Some(y), Some(z))
            &&& now.at("mesh"@) == was.at("mesh"@)
            &&& now.at("children"@) == was.at("children"@)
            &&& now.at("rotation"@) == was.at("rotation"@)
            &&& now.at("scale"@) == was.at("scale"@)
            &&& forall|i: int|
                0 <= i < 16 && i != 12 && i != 13 && i != 14 ==> #[trigger] now.at("matrix"@).item(i)
                    == was.at("matrix"@).item(i)
            &&& forall|i: int|
                0 <= i < t.at("nodes"@).items().len() && i != ix ==> #[trigger] u.at(
                    "nodes"@,
                ).items()[i] == t.at("nodes"@).items()[i]
        }),
{
    reveal_strlit("matrix");
    reveal_strlit("translation");
    reveal_strlit("mesh");
    reveal_strlit("children");
    reveal_strlit("rotation");
    reveal_strlit("scale");
    assert("matrix"@.len() == 6);
    assert("translation"@.len() == 11);
    assert("mesh"@.len() == 4);
    assert("children"@[0] == 'c');
    assert("rotation"@[0] == 'r');
    assert("scale"@.len() == 5);
    assert("matrix"@[0] == 'm');
    assert("translation"@[0] == 't');
    let was = t.at("nodes"@).items()[ix];
    let now = node_moved(was, Tree::Number(x), Tree::Number(y), Tree::Number(z));
    assert(root_moved(t, ix, Tree::Number(x), Tree::Number(y), Tree::Number(z)).at(
        "nodes"@,
    ).items()[ix] == now);
    if was.at("matrix"@) is Array {
        let m = was.at("matrix"@).items();
        let n = m.update(12, Tree::Number(x)).update(13, Tree::Number(y)).update(
            14,
            Tree::Number(z),
        );
        assert(now.at("matrix"@) == Tree::Array(n));
    } else {
        assert(now.at("translation"@) == Tree::Array(
            seq![Tree::Number(x), Tree::Number(y), Tree::Number(z)],
        ));
        assert(now.at("matrix"@) == was.at("matrix"@));
    }
}

/// A list of indices is read item by item.
pub proof fn indices_keep_their_order(items: Seq<Tree>)
    requires
        forall|i: int| 0 <= i < items.len() ==> (#[trigger] items[i]).as_u64() is Some,
    ensures
        indices(items).len() == items.len(),
        forall|i: int| 0 <= i < items.len() ==> (#[trigger] items[i]).as_u64() == Some(indices(items)[i]),
    decreases items.len(),
{
    if items.len() > 0 {
        let rest = items.drop_last();
        assert forall|i: int| 0 <= i < rest.len() implies (#[trigger] rest[i]).as_u64() is Some by {
            assert(rest[i] == items[i]);
        }
        indices_keep_their_order(rest);
        assert(items.last().as_u64() is Some) by {
            assert(items[items.len() - 1].as_u64() is Some);
        }
        assert forall|i: int| 0 <= i < items.len() implies (#[trigger] items[i]).as_u64() == Some(
            indices(items)[i],
        ) by {
            if i < rest.len() {
                assert(rest[i] == items[i]);
            }
        }
    }
}

} // verus!
