//! Decoding a tile: what its bytes ask for, and what becomes of its parts.
use crate::decode::{DecodeError, DecodeStage};
use crate::glb::{
    assemble_glb, glb_of, marks_of, opt_bytes, split_glb, split_of, Marks,
};
use crate::gltf::{
    features_of, keyed, mesh_features, node_paths, prim_features, scalar_accessor, strings,
    vertex_ids_of, Component, FeatureCtx, Message, PreparedFeatures, PrimKey,
};
use crate::json::{parsed, written, Json, Tree};
use crate::prepare::{
    begin_work, content, prepared, rebased, views_done, work_of, PreparedTile, Rebase, TileWork, Work,
};
use crate::rewrite::{
    basisu_rewritten, decode_meshopt_views, preprocess_basisu, results_view,
    strip_handled_extensions, stripped, DracoPrim,
};
use crate::splice::{decoded_view, draco_spliced, splice_draco, Decoded, DracoMesh};
use crate::text;
use vstd::prelude::*;

verus! {

/// What decoding a tile starts with.
pub enum DecodeStart {
    /// The bytes are plain glTF.
    Vanilla,
    /// The document holds splats, and is read as it stands.
    Splat(TileWork),
    /// The document is rewritten first.
    Rewrite(TileWork),
}

/// [`DecodeStart`] as a mathematical value.
pub enum DecodeFrom {
    Vanilla,
    Splat(Work),
    Rewrite(Work),
}

/// What decoding these bytes starts with. Splats are read as they stand where
/// `splats` is set.
pub open spec fn decode_from(bytes: Seq<u8>, georeferenced: bool, splats: bool) -> Result<
    DecodeFrom,
    Message,
> {
    match split_of(bytes) {
        Err(e) => Err(e),
        Ok((json, _)) => {
            let marks = marks_of(json);
            if !georeferenced && marks.none() {
                Ok(DecodeFrom::Vanilla)
            } else {
                match parsed(json) {
                    Err(e) => Err("tile json: "@ + e),
                    Ok(t) => if marks.splat && splats {
                        Ok(DecodeFrom::Splat(work_of(t, marks)))
                    } else {
                        Ok(DecodeFrom::Rewrite(work_of(t, marks)))
                    },
                }
            }
        },
    }
}

/// Starts to decode a tile: plain glTF goes on as it is, everything else is
/// parsed once.
pub fn begin_decode(bytes: &[u8], georeferenced: bool, splats: bool) -> (r: Result<
    DecodeStart,
    DecodeError,
>)
    ensures
        match decode_from(bytes@, georeferenced, splats) {
            Ok(DecodeFrom::Vanilla) => r matches Ok(d) && d is Vanilla,
            Ok(DecodeFrom::Splat(w)) => r matches Ok(DecodeStart::Splat(x)) && x@ == w,
            Ok(DecodeFrom::Rewrite(w)) => r matches Ok(DecodeStart::Rewrite(x)) && x@ == w,
            Err(m) => r matches Err(e) && e.parts() == (DecodeStage::Content, m),
        },
{
    let (chunk, _) = match split_glb(bytes) {
        Ok(x) => x,
        Err(e) => {
            return Err(DecodeError::from(e));
        },
    };
    let marks = Marks::scan(chunk);
    if !georeferenced && marks.vanilla() {
        return Ok(DecodeStart::Vanilla);
    }
    let json = match Json::parse(chunk) {
        Ok(j) => j,
        Err(e) => {
            return Err(DecodeError::from(text::join2("tile json: ", e.as_str())));
        },
    };
    let work = begin_work(json, marks);
    if marks.splat && splats {
        Ok(DecodeStart::Splat(work))
    } else {
        Ok(DecodeStart::Rewrite(work))
    }
}

/// A tile after its rewrites.
pub enum RewrittenTile {
    /// A document of splats, and its binary chunk.
    Splat { json: Json, bin: Option<Vec<u8>> },
    /// Plain glTF, with the feature metadata of its document.
    Plain { glb: Vec<u8>, features: Option<FeatureCtx> },
}

/// [`RewrittenTile`] as a mathematical value.
pub enum Outcome {
    Splat { tree: Tree, bin: Option<Seq<u8>> },
    /// The feature metadata is that of `tree`, where there is any.
    Plain { glb: Seq<u8>, tree: Tree, paths: Option<Seq<Seq<char>>> },
}

/// `r` is the outcome `w`.
pub open spec fn outcome_is(r: RewrittenTile, w: Outcome) -> bool {
    match (r, w) {
        (RewrittenTile::Splat { json, bin }, Outcome::Splat { tree, bin: b }) => json@ == tree
            && (match bin {
            Some(v) => Some(v@),
            None => None,
        }) == b,
        (RewrittenTile::Plain { glb, features }, Outcome::Plain { glb: g, tree, paths }) => glb@ == g
            && match (features, paths) {
            (Some(f), Some(p)) => f.wf() && f.json@ == tree && strings(f.node_of_feature@) == p,
            (None, None) => true,
            _ => false,
        },
        _ => false,
    }
}

/// The document after the Draco primitives were spliced in, where there are
/// any.
pub open spec fn splice_done(
    t: Tree,
    bin: Option<Seq<u8>>,
    draco: Option<(Seq<DracoPrim>, Seq<Decoded>)>,
) -> Result<(Tree, Option<Seq<u8>>), Message> {
    match draco {
        None => Ok((t, bin)),
        Some((prims, meshes)) => match draco_spliced(t, bin, prims, meshes) {
            Ok(d) => Ok((d.tree, Some(d.bin))),
            Err(e) => Err(e.message),
        },
    }
}

/// The document after the last rewrites: textures, then the extensions that are
/// handled by now.
pub open spec fn tidied(marks: Marks, t: Tree) -> Tree {
    let t2 = if marks.basisu {
        basisu_rewritten(t)
    } else {
        t
    };
    if marks.draco || marks.rtc {
        stripped(t2)
    } else {
        t2
    }
}

/// The container of a rewritten document: the original bytes where no rewrite
/// was asked for.
pub open spec fn plain_glb(original: Seq<u8>, w: Work, t: Tree, bin: Option<Seq<u8>>) -> Result<
    Seq<u8>,
    Message,
> {
    if w.rebased || w.marks.draco || w.marks.rtc || w.marks.meshopt || w.marks.basisu {
        match written(t) {
            Ok(text) => Ok(
                glb_of(
                    text,
                    match bin {
                        Some(b) => b,
                        None => Seq::empty(),
                    },
                ),
            ),
            Err(e) => Err("tile splice json: "@ + e),
        }
    } else {
        Ok(original)
    }
}

/// What rewriting a tile comes to: the views are decoded first, because that
/// rebuilds the binary chunk that the other passes read.
pub open spec fn rewrite_done(
    original: Seq<u8>,
    w: Work,
    decoded: Seq<Result<Seq<u8>, Message>>,
    draco: Option<(Seq<DracoPrim>, Seq<Decoded>)>,
    splats: bool,
) -> Result<Outcome, (DecodeStage, Message)> {
    let bin0 = match split_of(original) {
        Ok((_, bin)) => bin,
        Err(_) => None,
    };
    match views_done(w, bin0, decoded) {
        Err(e) => Err(e),
        Ok((t1, bin1)) => match content(splice_done(t1, bin1, draco)) {
            Err(e) => Err(e),
            Ok((t2, bin)) => {
                let t = tidied(w.marks, t2);
                if w.marks.splat && splats {
                    Ok(Outcome::Splat { tree: t, bin })
                } else {
                    match content(plain_glb(original, w, t, bin)) {
                        Err(e) => Err(e),
                        Ok(glb) => Ok(
                            Outcome::Plain {
                                glb,
                                tree: t,
                                paths: if w.marks.features {
                                    match node_paths(t, bin) {
                                        Ok(p) => Some(p),
                                        Err(_) => None,
                                    }
                                } else {
                                    None
                                },
                            },
                        ),
                    }
                }
            },
        },
    }
}

/// The Draco primitives of a call.
pub open spec fn draco_view(d: Option<(Vec<DracoPrim>, Vec<DracoMesh>)>) -> Option<
    (Seq<DracoPrim>, Seq<Decoded>),
> {
    match d {
        Some((prims, meshes)) => Some((prims@, decoded_view(meshes@))),
        None => None,
    }
}

fn build_glb(original: &[u8], work: &TileWork, json: &Json, bin: Option<&[u8]>) -> (r: Result<
    Vec<u8>,
    String,
>)
    ensures
        match plain_glb(original@, work@, json@, opt_bytes(bin)) {
            Ok(w) => r matches Ok(v) && v@ == w,
            Err(m) => r matches Err(e) && e@ == m,
        },
{
    let marks = work.marks;
    if work.rebased || marks.draco || marks.rtc || marks.meshopt || marks.basisu {
        let text = match json.write() {
            Ok(t) => t,
            Err(e) => {
                return Err(text::join2("tile splice json: ", e.as_str()));
            },
        };
        let none: Vec<u8> = Vec::new();
        assert(none@ =~= Seq::<u8>::empty());
        let chunk = match bin {
            Some(b) => b,
            None => none.as_slice(),
        };
        Ok(assemble_glb(text.as_slice(), chunk))
    } else {
        Ok(vstd::slice::slice_to_vec(original))
    }
}

/// The rebuilt binary chunk, or the one that was there.
spec fn newer(rebuilt: Option<Vec<u8>>, bin: Option<Seq<u8>>) -> Option<Seq<u8>> {
    match rebuilt {
        Some(b) => Some(b@),
        None => bin,
    }
}

/// Every rewrite that a tile can need, in one pass over its parsed document:
/// meshopt views, decoded Draco primitives, textures, and the extensions that
/// are handled by then. The container is rebuilt once, and not at all where no
/// pass touched the document.
#[verifier::spinoff_prover]
#[verifier::rlimit(40)]
pub fn rewrite_tile(
    original: &[u8],
    work: TileWork,
    decoded: &Vec<Result<Vec<u8>, String>>,
    draco: Option<(Vec<DracoPrim>, Vec<DracoMesh>)>,
    splats: bool,
) -> (r: Result<RewrittenTile, DecodeError>)
    ensures
        match rewrite_done(
            original@,
            work@,
            results_view(decoded@),
            draco_view(draco),
            splats,
        ) {
            Ok(w) => r matches Ok(x) && outcome_is(x, w),
            Err(m) => r matches Err(e) && e.parts() == m,
        },
{
    let chunk = match split_glb(original) {
        Ok((_, bin)) => bin,
        Err(_) => None,
    };
    let ghost w = work@;
    let ghost bin0 = match split_of(original@) {
        Ok((_, bin)) => bin,
        Err(_) => None,
    };
    assert(opt_bytes(chunk) == bin0);
    let mut work = work;
    let mut json = Json::Null;
    std::mem::swap(&mut json, &mut work.json);
    assert(json@ == w.tree);
    let mut new_bin: Option<Vec<u8>> = None;
    if work.marks.meshopt {
        match decode_meshopt_views(&mut json, chunk, decoded) {
            Ok(b) => {
                new_bin = Some(b);
            },
            Err(e) => {
                return Err(DecodeError::meshopt(e));
            },
        }
    }
    let ghost bin1 = newer(new_bin, bin0);
    let ghost t1 = json@;
    assert(views_done(w, bin0, results_view(decoded@)) matches Ok(x) && x == (t1, bin1));
    if let Some((prims, meshes)) = draco {
        let current = match &new_bin {
            Some(b) => Some(b.as_slice()),
            None => chunk,
        };
        match splice_draco(&mut json, current, &prims, &meshes) {
            Ok(b) => {
                new_bin = Some(b);
            },
            Err(e) => {
                return Err(DecodeError::from(e));
            },
        }
    }
    let ghost t2 = json@;
    let ghost bin2 = newer(new_bin, bin0);
    assert(splice_done(t1, bin1, draco_view(draco)) matches Ok(x) && x == (t2, bin2));
    if work.marks.basisu {
        preprocess_basisu(&mut json);
    }
    if work.marks.draco || work.marks.rtc {
        strip_handled_extensions(&mut json);
    }
    assert(json@ == tidied(w.marks, t2));
    let bin = match &new_bin {
        Some(b) => Some(b.as_slice()),
        None => chunk,
    };
    assert(opt_bytes(bin) == bin2);
    if work.marks.splat && splats {
        let bin = match bin {
            Some(b) => Some(vstd::slice::slice_to_vec(b)),
            None => None,
        };
        return Ok(RewrittenTile::Splat { json, bin });
    }
    let glb = match build_glb(original, &work, &json, bin) {
        Ok(v) => v,
        Err(e) => {
            return Err(DecodeError::from(e));
        },
    };
    let features = if work.marks.features {
        match FeatureCtx::build(json, bin) {
            Ok(ctx) => Some(ctx),
            Err(_) => None,
        }
    } else {
        None
    };
    Ok(RewrittenTile::Plain { glb, features })
}

// Features of the vertices and triangles of a primitive.

/// The feature of vertex `v`: zero where the list is too short.
pub open spec fn feature_at(ids: Seq<u32>, v: int) -> u32 {
    if 0 <= v < ids.len() {
        ids[v]
    } else {
        0
    }
}

/// The feature of each triangle: that of its first vertex.
pub open spec fn triangle_features(ids: Seq<u32>, indices: Option<Seq<u32>>, vertices: int) -> Seq<u32> {
    match indices {
        Some(ix) => Seq::new(
            (ix.len() / 3) as nat,
            |t: int| feature_at(ids, ix[3 * t] as int),
        ),
        None => Seq::new((vertices / 3) as nat, |t: int| feature_at(ids, 3 * t)),
    }
}

/// The indices of an optional slice.
pub open spec fn opt_slice(s: Option<&[u32]>) -> Option<Seq<u32>> {
    match s {
        Some(s) => Some(s@),
        None => None,
    }
}

/// The feature of each triangle, in the order of the indices; without indices a
/// triangle takes three vertices in a row.
pub fn feature_of_triangle(ids: &Vec<u32>, indices: Option<&[u32]>, vertex_count: usize) -> (out: Vec<
    u32,
>)
    ensures
        out@ == triangle_features(ids@, opt_slice(indices), vertex_count as int),
{
    let mut out: Vec<u32> = Vec::new();
    match indices {
        Some(ix) => {
            let total: usize = ix.len();
            let n: usize = total / 3;
            let mut t: usize = 0;
            while t < n
                invariant
                    t <= n,
                    total == ix@.len(),
                    n == total / 3,
                    out@.len() == t,
                    forall|k: int|
                        0 <= k < t ==> #[trigger] out@[k] == feature_at(ids@, ix@[3 * k] as int),
                decreases n - t,
            {
                let v: u32 = ix[3 * t];
                let len: usize = ids.len();
                out.push(
                    if (v as u64) < len as u64 {
                        ids[v as usize]
                    } else {
                        0
                    },
                );
                t = t + 1;
            }
            assert(out@ =~= triangle_features(ids@, opt_slice(indices), vertex_count as int));
        },
        None => {
            let n: usize = vertex_count / 3;
            let mut t: usize = 0;
            while t < n
                invariant
                    t <= n,
                    n == vertex_count / 3,
                    out@.len() == t,
                    forall|k: int| 0 <= k < t ==> #[trigger] out@[k] == feature_at(ids@, 3 * k),
                decreases n - t,
            {
                let v: usize = 3 * t;
                out.push(
                    if v < ids.len() {
                        ids[v]
                    } else {
                        0
                    },
                );
                t = t + 1;
            }
            assert(out@ =~= triangle_features(ids@, opt_slice(indices), vertex_count as int));
        },
    }
    out
}

/// The ids of exactly `n` vertices: cut, or filled up with zeros.
pub open spec fn vertices_filled(ids: Seq<Component>, n: int) -> Seq<Component> {
    Seq::new(
        n as nat,
        |v: int|
            if v < ids.len() {
                ids[v]
            } else {
                Component::F32(0)
            },
    )
}

/// The ids of exactly `vertex_count` vertices: a mesh takes no fewer and no
/// more.
pub fn feature_of_vertex(ids: &Vec<Component>, vertex_count: usize) -> (out: Vec<Component>)
    ensures
        out@ == vertices_filled(ids@, vertex_count as int),
{
    let mut out: Vec<Component> = Vec::new();
    let mut v: usize = 0;
    while v < vertex_count
        invariant
            v <= vertex_count,
            out@.len() == v,
            forall|k: int|
                0 <= k < v ==> #[trigger] out@[k] == if k < ids@.len() {
                    ids@[k]
                } else {
                    Component::F32(0)
                },
        decreases vertex_count - v,
    {
        out.push(
            if v < ids.len() {
                ids[v]
            } else {
                Component::F32(0)
            },
        );
        v = v + 1;
    }
    assert(out@ =~= vertices_filled(ids@, vertex_count as int));
    out
}

/// The ids of primitive `key` among those from `i` on.
pub open spec fn ids_for(list: Seq<(PrimKey, Seq<Component>)>, key: PrimKey, i: int) -> Option<
    Seq<Component>,
>
    decreases list.len() - i,
{
    if i >= list.len() {
        None
    } else if list[i].0 == key {
        Some(list[i].1)
    } else {
        ids_for(list, key, i + 1)
    }
}

impl PreparedFeatures {
    /// The ids of a primitive, where it has any.
    pub fn ids_of(&self, mesh_ix: u64, prim_ix: u64) -> (r: Option<&Vec<Component>>)
        ensures
            match ids_for(
                crate::gltf::ids_view(self.vertex_ids@),
                (mesh_ix, prim_ix),
                0,
            ) {
                Some(w) => r matches Some(v) && v@ == w,
                None => r is None,
            },
    {
        let ghost list = crate::gltf::ids_view(self.vertex_ids@);
        let mut i: usize = 0;
        while i < self.vertex_ids.len()
            invariant
                i <= self.vertex_ids@.len(),
                list == crate::gltf::ids_view(self.vertex_ids@),
                ids_for(list, (mesh_ix, prim_ix), 0) == ids_for(
                    list,
                    (mesh_ix, prim_ix),
                    i as int,
                ),
            decreases self.vertex_ids@.len() - i,
        {
            let (m, p) = self.vertex_ids[i].key;
            assert(list[i as int].0 == (m, p));
            if m == mesh_ix && p == prim_ix {
                return Some(&self.vertex_ids[i].ids);
            }
            i = i + 1;
        }
        None
    }
}

/// What the reply of a host that prepares tiles elsewhere means.
pub enum HookOutcome {
    /// The tile is prepared.
    Prepared(PreparedTile),
    /// The tile is decoded here. A failure is reported once, and is never fatal.
    Inline { failure: Option<DecodeError> },
}

/// Takes the reply of a host that prepares tiles elsewhere: what it declined or
/// failed at is decoded here.
pub fn after_hook(reply: Result<Option<PreparedTile>, DecodeError>) -> (r: HookOutcome)
    ensures
        match reply {
            Ok(Some(p)) => r == HookOutcome::Prepared(p),
            Ok(None) => r == (HookOutcome::Inline { failure: None }),
            Err(e) => r == (HookOutcome::Inline { failure: Some(e) }),
        },
{
    match reply {
        Ok(Some(p)) => HookOutcome::Prepared(p),
        Ok(None) => HookOutcome::Inline { failure: None },
        Err(e) => HookOutcome::Inline { failure: Some(e) },
    }
}

/// Preparing a tile elsewhere and rewriting it here come to the same: where
/// preparing accepts a tile, decoding starts from plain glTF that is the prepared
/// container, with the same center, notice and feature paths beside it.
pub proof fn both_routes_agree(
    bytes: Seq<u8>,
    georeferenced: bool,
    rebase: Option<Rebase>,
    decoded: Seq<Result<Seq<u8>, Message>>,
    splats: bool,
)
    ensures
        prepared(bytes, georeferenced, false, rebase, decoded) matches Ok(Some(p)) ==> match decode_from(
            bytes,
            georeferenced,
            splats,
        ) {
            Ok(DecodeFrom::Vanilla) => p.glb == bytes && p.features is None && p.rtc_center is None
                && p.copyright is None,
            Ok(DecodeFrom::Rewrite(w0)) => {
                let w = rebased(w0, georeferenced, rebase);
                &&& rewrite_done(bytes, w, decoded, None, splats) matches Ok(
                    Outcome::Plain { glb, paths, .. },
                )
                &&& glb == p.glb
                &&& paths == match p.features {
                    Some(f) => Some(f.paths),
                    None => None,
                }
                &&& p.rtc_center == w.rtc_center
                &&& p.copyright == w.copyright
            },
            _ => false,
        },
{
}

/// The meshes and primitives of a document can be counted.
pub open spec fn countable(t: Tree) -> bool {
    let meshes = t.at("meshes"@).items();
    &&& meshes.len() <= u64::MAX
    &&& forall|m: int|
        0 <= m < meshes.len() ==> (#[trigger] meshes[m]).at("primitives"@).items().len()
            <= u64::MAX
}

/// No primitive occurs twice among the feature accessors.
spec fn keys_differ(list: Seq<(PrimKey, u64)>) -> bool {
    forall|i: int, j: int|
        0 <= i < j < list.len() ==> (#[trigger] list[i]).0 != (#[trigger] list[j]).0
}

proof fn lemma_prim_keys(prims: Seq<Tree>, m: int, k: int)
    requires
        0 <= k <= prims.len() <= u64::MAX,
        0 <= m <= u64::MAX,
    ensures
        keys_differ(prim_features(prims, m, k)),
        forall|i: int|
            0 <= i < prim_features(prims, m, k).len() ==> (#[trigger] prim_features(
                prims,
                m,
                k,
            )[i]).0.0 == m && prim_features(prims, m, k)[i].0.1 < k,
    decreases k,
{
    if k > 0 {
        lemma_prim_keys(prims, m, k - 1);
    }
}

proof fn lemma_mesh_keys(meshes: Seq<Tree>, k: int)
    requires
        0 <= k <= meshes.len() <= u64::MAX,
        forall|m: int|
            0 <= m < meshes.len() ==> (#[trigger] meshes[m]).at("primitives"@).items().len()
                <= u64::MAX,
    ensures
        keys_differ(mesh_features(meshes, k)),
        forall|i: int|
            0 <= i < mesh_features(meshes, k).len() ==> (#[trigger] mesh_features(
                meshes,
                k,
            )[i]).0.0 < k,
    decreases k,
{
    if k > 0 {
        lemma_mesh_keys(meshes, k - 1);
        let prims = meshes[k - 1].at("primitives"@).items();
        lemma_prim_keys(prims, k - 1, prims.len() as int);
    }
}

/// Where a key stands, the search from the end finds it.
proof fn lemma_keyed(list: Seq<(PrimKey, u64)>, key: PrimKey, k: int)
    requires
        keys_differ(list),
        0 <= k <= list.len(),
    ensures
        match keyed(list, key, k) {
            Some(a) => exists|i: int| 0 <= i < k && #[trigger] list[i] == (key, a),
            None => forall|i: int| 0 <= i < k ==> (#[trigger] list[i]).0 != key,
        },
    decreases k,
{
    if k > 0 {
        lemma_keyed(list, key, k - 1);
    }
}

/// The ids that were read, one list for each accessor.
proof fn lemma_ids_read(t: Tree, bin: Option<Seq<u8>>, list: Seq<(PrimKey, u64)>, k: int)
    requires
        0 <= k <= list.len(),
    ensures
        vertex_ids_of(t, bin, list, k) matches Ok(ids) ==> {
            &&& ids.len() == k
            &&& forall|i: int|
                0 <= i < k ==> (#[trigger] ids[i]).0 == list[i].0 && (scalar_accessor(
                    t,
                    bin,
                    list[i].1 as int,
                ) matches Ok(v) && v == ids[i].1)
        },
    decreases k,
{
    if k > 0 {
        lemma_ids_read(t, bin, list, k - 1);
    }
}

/// Where a key stands, the search from the start finds it.
proof fn lemma_ids_for(list: Seq<(PrimKey, Seq<Component>)>, key: PrimKey, i: int)
    requires
        0 <= i <= list.len(),
    ensures
        match ids_for(list, key, i) {
            Some(v) => exists|j: int| i <= j < list.len() && #[trigger] list[j] == (key, v),
            None => forall|j: int| i <= j < list.len() ==> (#[trigger] list[j]).0 != key,
        },
    decreases list.len() - i,
{
    if i < list.len() {
        lemma_ids_for(list, key, i + 1);
    }
}

/// Features that were prepared elsewhere pick the same: the ids of a primitive
/// are those that its document gives.
pub proof fn prepared_ids_are_the_documents(t: Tree, bin: Option<Seq<u8>>, key: PrimKey)
    requires
        countable(t),
    ensures
        ({
            let list = features_of(t);
            let n = list.len() as int;
            vertex_ids_of(t, bin, list, n) matches Ok(ids) ==> match keyed(list, key, n) {
                None => ids_for(ids, key, 0) is None,
                Some(a) => scalar_accessor(t, bin, a as int) matches Ok(v) && ids_for(ids, key, 0)
                    == Some(v),
            }
        }),
{
    let list = features_of(t);
    let n = list.len() as int;
    let meshes = t.at("meshes"@).items();
    lemma_mesh_keys(meshes, meshes.len() as int);
    lemma_keyed(list, key, n);
    lemma_ids_read(t, bin, list, n);
    if let Ok(ids) = vertex_ids_of(t, bin, list, n) {
        lemma_ids_for(ids, key, 0);
        match (keyed(list, key, n), ids_for(ids, key, 0)) {
            (Some(a), Some(v)) => {
                let i = choose|i: int| 0 <= i < n && #[trigger] list[i] == (key, a);
                let j = choose|j: int| 0 <= j < n && #[trigger] ids[j] == (key, v);
                assert(list[i].0 == list[j].0);
            },
            (Some(a), None) => {
                let i = choose|i: int| 0 <= i < n && #[trigger] list[i] == (key, a);
                assert(ids[i].0 == key);
            },
            (None, Some(v)) => {
                let j = choose|j: int| 0 <= j < n && #[trigger] ids[j] == (key, v);
                assert(list[j].0 == key);
            },
            (None, None) => {},
        }
    }
}

} // verus!
