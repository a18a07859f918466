//! Preparing a tile: from the bytes of a 3D Tiles container to plain glTF.
//!
//! Two parts of the work lie outside: decoding meshopt buffer views, and the
//! arithmetic on positions. [`begin_prepare`] says what there is to do, and
//! [`finish_prepare`] takes the results.
use crate::decode::{DecodeError, DecodeStage};
use crate::extract::{
    extract_tile_meshes, meshes_of, numbers, numbers_in, opt_numbers, ExtractedMeshes, Meshes,
};
use crate::glb::{
    assemble_glb, declined, declines, glb_of, marks_of, opt_bytes, split_glb, split_of,
    would_decline, Marks,
};
use crate::gltf::{
    features_of, ids_view, node_paths, strings, vertex_ids_of, Component, FeatureCtx, Message,
    PreparedFeatures, PrimKey,
};
use crate::json::{down, opt_array, opt_str, parsed, written, Json, Tree};
use crate::rewrite::{
    basisu_rewritten, decode_meshopt_views, meshopt_rewritten, preprocess_basisu, results_view,
    strip_handled_extensions, stripped,
};
use crate::text;
use vstd::prelude::*;

verus! {

/// A prepared tile: a plain glTF binary, and what was extracted on the way.
///
/// The geometry travels one of two ways: in `meshes`, and then `glb` is empty,
/// or in `glb`.
pub struct PreparedTile {
    /// The container; the input unchanged where nothing was rewritten.
    pub glb: Vec<u8>,
    pub meshes: Option<ExtractedMeshes>,
    /// Where the tile's own origin lies: three numbers.
    pub rtc_center: Option<Vec<serde_json::Number>>,
    pub copyright: Option<String>,
    pub features: Option<PreparedFeatures>,
}

/// The paths of features, and the ids of each primitive that has any.
pub struct Features {
    pub paths: Seq<Seq<char>>,
    pub ids: Seq<(PrimKey, Seq<Component>)>,
}

/// [`PreparedTile`] as a mathematical value.
pub struct Prepared {
    pub glb: Seq<u8>,
    pub meshes: Option<Meshes>,
    pub rtc_center: Option<Seq<serde_json::Number>>,
    pub copyright: Option<Seq<char>>,
    pub features: Option<Features>,
}

/// The characters of an optional string.
pub open spec fn opt_chars(s: Option<String>) -> Option<Seq<char>> {
    match s {
        Some(s) => Some(s@),
        None => None,
    }
}

impl View for PreparedTile {
    type V = Prepared;

    open spec fn view(&self) -> Prepared {
        Prepared {
            glb: self.glb@,
            meshes: match self.meshes {
                Some(m) => Some(m@),
                None => None,
            },
            rtc_center: opt_numbers(self.rtc_center),
            copyright: opt_chars(self.copyright),
            features: match self.features {
                Some(f) => Some(
                    Features { paths: strings(f.node_of_feature@), ids: ids_view(f.vertex_ids@) },
                ),
                None => None,
            },
        }
    }
}

/// A tile with work to do.
pub struct TileWork {
    pub json: Json,
    pub marks: Marks,
    pub copyright: Option<String>,
    pub rtc_center: Option<Vec<serde_json::Number>>,
    /// The root nodes were moved to the tile's own origin.
    pub rebased: bool,
}

/// [`TileWork`] as a mathematical value.
pub struct Work {
    pub tree: Tree,
    pub marks: Marks,
    pub copyright: Option<Seq<char>>,
    pub rtc_center: Option<Seq<serde_json::Number>>,
    pub rebased: bool,
}

impl View for TileWork {
    type V = Work;

    open spec fn view(&self) -> Work {
        Work {
            tree: self.json@,
            marks: self.marks,
            copyright: opt_chars(self.copyright),
            rtc_center: opt_numbers(self.rtc_center),
            rebased: self.rebased,
        }
    }
}

/// What preparing a tile starts with.
pub enum Begun {
    /// The tile needs a decoder of the platform.
    Declined,
    /// There is nothing to do: the bytes are the tile.
    Echo,
    Work(TileWork),
}

/// [`Begun`] as a mathematical value.
pub enum Start {
    Declined,
    Echo,
    Work(Work),
}

/// The three numbers of `CESIUM_RTC`, where the document has them.
pub open spec fn rtc_of(t: Tree) -> Option<Seq<serde_json::Number>> {
    match t.at("extensions"@).at("CESIUM_RTC"@).at("center"@) {
        Tree::Array(items) => if numbers_in(items).len() == 3 {
            Some(numbers_in(items))
        } else {
            None
        },
        _ => None,
    }
}

/// The work that a parsed document starts with.
pub open spec fn work_of(t: Tree, marks: Marks) -> Work {
    Work {
        tree: t,
        marks,
        copyright: t.at("asset"@).at("copyright"@).as_str(),
        rtc_center: rtc_of(t),
        rebased: false,
    }
}

/// What preparing these bytes starts with.
pub open spec fn start_of(bytes: Seq<u8>, georeferenced: bool, extract: bool) -> Result<
    Start,
    Message,
> {
    match split_of(bytes) {
        Err(e) => Err(e),
        Ok((json, _)) => {
            let marks = marks_of(json);
            if marks.draco || marks.splat {
                Ok(Start::Declined)
            } else if !extract && declined(marks, georeferenced) {
                Ok(Start::Echo)
            } else {
                match parsed(json) {
                    Err(e) => Err("tile json: "@ + e),
                    Ok(t) => Ok(Start::Work(work_of(t, marks))),
                }
            }
        },
    }
}

/// A failure of the tile's own content.
pub open spec fn content<T>(r: Result<T, Message>) -> Result<T, (DecodeStage, Message)> {
    match r {
        Ok(v) => Ok(v),
        Err(m) => Err((DecodeStage::Content, m)),
    }
}

/// The document after the views were decoded.
pub open spec fn views_done(w: Work, bin: Option<Seq<u8>>, decoded: Seq<Result<Seq<u8>, Message>>) -> Result<
    (Tree, Option<Seq<u8>>),
    (DecodeStage, Message),
> {
    if w.marks.meshopt {
        match meshopt_rewritten(w.tree, bin, decoded) {
            Ok((t, b)) => Ok((t, Some(b))),
            Err(m) => Err((DecodeStage::Meshopt, m)),
        }
    } else {
        Ok((w.tree, bin))
    }
}

/// The document after the rewrites that its marks ask for.
pub open spec fn rewrites_done(marks: Marks, t: Tree) -> Tree {
    let t2 = if marks.basisu {
        basisu_rewritten(t)
    } else {
        t
    };
    if marks.rtc {
        stripped(t2)
    } else {
        t2
    }
}

/// The container of a rewritten document.
pub open spec fn container(bytes: Seq<u8>, w: Work, t: Tree, bin: Option<Seq<u8>>, extracted: bool) -> Result<
    Seq<u8>,
    Message,
> {
    if extracted {
        Ok(Seq::empty())
    } else if w.rebased || w.marks.rtc || w.marks.meshopt || w.marks.basisu {
        match written(t) {
            Ok(text) => Ok(
                glb_of(
                    text,
                    match bin {
                        Some(b) => b,
                        None => Seq::empty(),
                    },
                ),
            ),
            Err(e) => Err("tile splice json: "@ + e),
        }
    } else {
        Ok(bytes)
    }
}

/// The features of a document: none where its property table cannot be read, an
/// error where an accessor of ids cannot.
pub open spec fn features_done(marks: Marks, t: Tree, bin: Option<Seq<u8>>) -> Result<
    Option<Features>,
    Message,
> {
    if !marks.features {
        Ok(None)
    } else {
        match node_paths(t, bin) {
            Err(_) => Ok(None),
            Ok(paths) => match vertex_ids_of(
                t,
                bin,
                features_of(t),
                features_of(t).len() as int,
            ) {
                Ok(ids) => Ok(Some(Features { paths, ids })),
                Err(e) => Err(e),
            },
        }
    }
}

/// The geometry, where it is asked for.
pub open spec fn meshes_done(extract: bool, t: Tree, bin: Option<Seq<u8>>) -> Result<
    Option<Meshes>,
    Message,
> {
    if extract {
        meshes_of(t, bin)
    } else {
        Ok(None)
    }
}

/// What preparing comes to, given the work and what the decoder made of it.
pub open spec fn finished(bytes: Seq<u8>, w: Work, decoded: Seq<Result<Seq<u8>, Message>>, extract: bool) -> Result<
    Prepared,
    (DecodeStage, Message),
> {
    let bin0 = match split_of(bytes) {
        Ok((_, bin)) => bin,
        Err(_) => None,
    };
    match views_done(w, bin0, decoded) {
        Err(e) => Err(e),
        Ok((t1, bin)) => {
            let t = rewrites_done(w.marks, t1);
            match content(meshes_done(extract, t, bin)) {
                Err(e) => Err(e),
                Ok(meshes) => match content(container(bytes, w, t, bin, meshes is Some)) {
                    Err(e) => Err(e),
                    Ok(glb) => match content(features_done(w.marks, t, bin)) {
                        Err(e) => Err(e),
                        Ok(features) => Ok(
                            Prepared {
                                glb,
                                meshes,
                                rtc_center: w.rtc_center,
                                copyright: w.copyright,
                                features,
                            },
                        ),
                    },
                },
            }
        },
    }
}

/// The work that a parsed document starts with.
pub fn begin_work(json: Json, marks: Marks) -> (r: TileWork)
    ensures
        r@ == work_of(json@, marks),
{
    let copyright = match opt_str(down(json.get("asset"), "copyright")) {
        Some(s) => Some(s.clone()),
        None => None,
    };
    let center = down(down(json.get("extensions"), "CESIUM_RTC"), "center");
    let rtc_center = match opt_array(center) {
        Some(items) => {
            let v = numbers(items);
            if v.len() == 3 {
                Some(v)
            } else {
                None
            }
        },
        None => None,
    };
    TileWork { json, marks, copyright, rtc_center, rebased: false }
}

/// Starts to prepare a tile: one scan for marks, and one parse where there is
/// work to do. `extract` asks for the geometry too.
pub fn begin_prepare(bytes: &[u8], georeferenced: bool, extract: bool) -> (r: Result<
    Begun,
    DecodeError,
>)
    ensures
        match start_of(bytes@, georeferenced, extract) {
            Ok(Start::Declined) => r matches Ok(b) && b is Declined,
            Ok(Start::Echo) => r matches Ok(b) && b is Echo,
            Ok(Start::Work(w)) => r matches Ok(Begun::Work(x)) && x@ == w,
            Err(m) => r matches Err(e) && e.parts() == (DecodeStage::Content, m),
        },
{
    let (chunk, _) = match split_glb(bytes) {
        Ok(x) => x,
        Err(e) => {
            return Err(DecodeError::from(e));
        },
    };
    let marks = Marks::scan(chunk);
    if marks.draco || marks.splat {
        return Ok(Begun::Declined);
    }
    if !extract && declines(&marks, georeferenced) {
        return Ok(Begun::Echo);
    }
    let json = match Json::parse(chunk) {
        Ok(j) => j,
        Err(e) => {
            return Err(DecodeError::from(text::join2("tile json: ", e.as_str())));
        },
    };
    Ok(Begun::Work(begin_work(json, marks)))
}

impl TileWork {
    /// The tile's roots may carry positions on the planet: it is georeferenced
    /// and names no center itself.
    pub fn wants_offset(&self, georeferenced: bool) -> (r: bool)
        ensures
            r == (georeferenced && self@.rtc_center is None),
    {
        georeferenced && self.rtc_center.is_none()
    }

    /// The work on the document whose roots were moved to `center`.
    pub fn rebase(self, json: Json, center: Vec<serde_json::Number>) -> (r: TileWork)
        ensures
            r@ == (Work {
                tree: json@,
                rtc_center: Some(center@),
                rebased: true,
                ..self@
            }),
    {
        TileWork {
            json,
            marks: self.marks,
            copyright: self.copyright,
            rtc_center: Some(center),
            rebased: true,
        }
    }
}

fn build_container(bytes: &[u8], work: &TileWork, json: &Json, bin: Option<&[u8]>, extracted: bool) -> (r: Result<
    Vec<u8>,
    String,
>)
    ensures
        match container(bytes@, work@, json@, opt_bytes(bin), extracted) {
            Ok(w) => r matches Ok(v) && v@ == w,
            Err(m) => r matches Err(e) && e@ == m,
        },
{
    if extracted {
        return Ok(Vec::new());
    }
    let marks = work.marks;
    if work.rebased || marks.rtc || marks.meshopt || marks.basisu {
        let text = match json.write() {
            Ok(t) => t,
            Err(e) => {
                return Err(text::join2("tile splice json: ", e.as_str()));
            },
        };
        let none: Vec<u8> = Vec::new();
        assert(none@ =~= Seq::<u8>::empty());
        let chunk = match bin {
            Some(b) => b,
            None => none.as_slice(),
        };
        Ok(assemble_glb(text.as_slice(), chunk))
    } else {
        Ok(vstd::slice::slice_to_vec(bytes))
    }
}

fn build_features(marks: &Marks, json: Json, bin: Option<&[u8]>) -> (r: Result<
    Option<PreparedFeatures>,
    String,
>)
    ensures
        match features_done(*marks, json@, opt_bytes(bin)) {
            Ok(Some(w)) => r matches Ok(Some(f)) && strings(f.node_of_feature@) == w.paths
                && ids_view(f.vertex_ids@) == w.ids,
            Ok(None) => r matches Ok(None),
            Err(m) => r matches Err(e) && e@ == m,
        },
{
    if !marks.features {
        return Ok(None);
    }
    match FeatureCtx::build(json, bin) {
        Ok(ctx) => match ctx.materialize(bin) {
            Ok(f) => Ok(Some(f)),
            Err(e) => Err(e),
        },
        Err(_) => Ok(None),
    }
}

/// Prepares a tile whose work was begun. `decoded` holds what the meshopt
/// decoder made of the jobs of the work's document, in order.
pub fn finish_prepare(
    bytes: &[u8],
    work: TileWork,
    decoded: &Vec<Result<Vec<u8>, String>>,
    extract: bool,
) -> (r: Result<PreparedTile, DecodeError>)
    ensures
        match finished(bytes@, work@, results_view(decoded@), extract) {
            Ok(w) => r matches Ok(p) && p@ == w,
            Err(m) => r matches Err(e) && e.parts() == m,
        },
{
    let chunk = match split_glb(bytes) {
        Ok((_, bin)) => bin,
        Err(_) => None,
    };
    let mut work = work;
    let ghost w = work@;
    let mut json = Json::Null;
    std::mem::swap(&mut json, &mut work.json);
    let mut decoded_bin: Option<Vec<u8>> = None;
    if work.marks.meshopt {
        match decode_meshopt_views(&mut json, chunk, decoded) {
            Ok(b) => {
                decoded_bin = Some(b);
            },
            Err(e) => {
                return Err(DecodeError::meshopt(e));
            },
        }
    }
    let bin = match &decoded_bin {
        Some(b) => Some(b.as_slice()),
        None => chunk,
    };
    if work.marks.basisu {
        preprocess_basisu(&mut json);
    }
    if work.marks.rtc {
        strip_handled_extensions(&mut json);
    }
    let meshes = if extract {
        match extract_tile_meshes(&json, bin) {
            Ok(m) => m,
            Err(e) => {
                return Err(e);
            },
        }
    } else {
        None
    };
    let glb = match build_container(bytes, &work, &json, bin, meshes.is_some()) {
        Ok(v) => v,
        Err(e) => {
            return Err(DecodeError::from(e));
        },
    };
    let features = match build_features(&work.marks, json, bin) {
        Ok(f) => f,
        Err(e) => {
            return Err(DecodeError::from(e));
        },
    };
    Ok(
        PreparedTile {
            glb,
            meshes,
            rtc_center: work.rtc_center,
            copyright: work.copyright,
            features,
        },
    )
}

/// A document whose roots were moved, and where to.
pub struct Rebase {
    pub json: Json,
    pub center: Vec<serde_json::Number>,
}

/// The work after the roots were moved, where they are to be moved.
pub open spec fn rebased(w: Work, georeferenced: bool, rebase: Option<Rebase>) -> Work {
    match rebase {
        Some(r) => if georeferenced && w.rtc_center is None {
            Work { tree: r.json@, rtc_center: Some(r.center@), rebased: true, ..w }
        } else {
            w
        },
        None => w,
    }
}

/// What preparing a tile comes to, given what was computed outside.
pub open spec fn prepared(
    bytes: Seq<u8>,
    georeferenced: bool,
    extract: bool,
    rebase: Option<Rebase>,
    decoded: Seq<Result<Seq<u8>, Message>>,
) -> Result<Option<Prepared>, (DecodeStage, Message)> {
    match start_of(bytes, georeferenced, extract) {
        Err(m) => Err((DecodeStage::Content, m)),
        Ok(Start::Declined) => Ok(None),
        Ok(Start::Echo) => Ok(
            Some(
                Prepared {
                    glb: bytes,
                    meshes: None,
                    rtc_center: None,
                    copyright: None,
                    features: None,
                },
            ),
        ),
        Ok(Start::Work(w)) => match finished(
            bytes,
            rebased(w, georeferenced, rebase),
            decoded,
            extract,
        ) {
            Ok(p) => Ok(Some(p)),
            Err(e) => Err(e),
        },
    }
}

/// What a call that prepares a tile returned.
pub open spec fn prepared_view(r: Result<Option<PreparedTile>, DecodeError>) -> Result<
    Option<Prepared>,
    (DecodeStage, Message),
> {
    match r {
        Ok(Some(p)) => Ok(Some(p@)),
        Ok(None) => Ok(None),
        Err(e) => Err(e.parts()),
    }
}

fn prepare_tile_inner(
    bytes: &[u8],
    georeferenced: bool,
    extract: bool,
    rebase: Option<Rebase>,
    decoded: &Vec<Result<Vec<u8>, String>>,
) -> (r: Result<Option<PreparedTile>, DecodeError>)
    ensures
        prepared_view(r) == prepared(
            bytes@,
            georeferenced,
            extract,
            rebase,
            results_view(decoded@),
        ),
{
    let work = match begin_prepare(bytes, georeferenced, extract) {
        Ok(Begun::Declined) => {
            return Ok(None);
        },
        Ok(Begun::Echo) => {
            return Ok(
                Some(
                    PreparedTile {
                        glb: vstd::slice::slice_to_vec(bytes),
                        meshes: None,
                        rtc_center: None,
                        copyright: None,
                        features: None,
                    },
                ),
            );
        },
        Ok(Begun::Work(w)) => w,
        Err(e) => {
            return Err(e);
        },
    };
    let work = match rebase {
        Some(m) => if work.wants_offset(georeferenced) {
            work.rebase(m.json, m.center)
        } else {
            work
        },
        None => work,
    };
    match finish_prepare(bytes, work, decoded, extract) {
        Ok(p) => Ok(Some(p)),
        Err(e) => Err(e),
    }
}

/// Prepares a tile: every rewrite that its marks ask for, in one parse and one
/// rebuild. None where the tile needs a decoder of the platform.
///
/// `rebase` is the document with its roots moved, where they carry positions on
/// the planet; `decoded` is what the meshopt decoder made of the tile's jobs.
pub fn prepare_tile(
    bytes: &[u8],
    georeferenced: bool,
    rebase: Option<Rebase>,
    decoded: &Vec<Result<Vec<u8>, String>>,
) -> (r: Result<Option<PreparedTile>, DecodeError>)
    ensures
        prepared_view(r) == prepared(
            bytes@,
            georeferenced,
            false,
            rebase,
            results_view(decoded@),
        ),
{
    prepare_tile_inner(bytes, georeferenced, false, rebase, decoded)
}

/// [`prepare_tile`] with the geometry extracted, where it can be.
pub fn prepare_tile_extracting(
    bytes: &[u8],
    georeferenced: bool,
    rebase: Option<Rebase>,
    decoded: &Vec<Result<Vec<u8>, String>>,
) -> (r: Result<Option<PreparedTile>, DecodeError>)
    ensures
        prepared_view(r) == prepared(bytes@, georeferenced, true, rebase, results_view(decoded@)),
{
    prepare_tile_inner(bytes, georeferenced, true, rebase, decoded)
}

/// The triage agrees with preparation: where it says that preparation would
/// decline, preparation returns nothing or the bytes unchanged with nothing
/// beside them, whatever is handed in from outside; and where it does not, and
/// the bytes are a container, there is a document to parse.
pub proof fn triage_agrees_with_preparation(
    bytes: Seq<u8>,
    georeferenced: bool,
    rebase: Option<Rebase>,
    decoded: Seq<Result<Seq<u8>, Message>>,
)
    ensures
        would_decline(bytes, georeferenced) ==> match prepared(
            bytes,
            georeferenced,
            false,
            rebase,
            decoded,
        ) {
            Ok(None) => true,
            Ok(Some(p)) => p.glb == bytes && p.meshes is None && p.rtc_center is None
                && p.copyright is None && p.features is None,
            Err(_) => false,
        },
        !would_decline(bytes, georeferenced) ==> (start_of(bytes, georeferenced, false) matches Ok(
            s,
        ) ==> s is Work),
{
}

/// A tile that carries extracted geometry has an empty container, and a tile
/// without it keeps its bytes unless a rewrite was asked for.
pub proof fn geometry_travels_one_way(
    bytes: Seq<u8>,
    w: Work,
    decoded: Seq<Result<Seq<u8>, Message>>,
    extract: bool,
)
    ensures
        finished(bytes, w, decoded, extract) matches Ok(p) ==> {
            &&& p.meshes is Some ==> p.glb.len() == 0 && extract
            &&& p.meshes is None && !(w.rebased || w.marks.rtc || w.marks.meshopt
                || w.marks.basisu) ==> p.glb == bytes
        },
{
}

} // verus!
