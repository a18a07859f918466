//! What decoding and preparing take over from a document.
use crate::content::{decode_from, tidied, DecodeFrom};
use crate::extract_laws::{lists, may_list};
use crate::format_laws::{is_said, marks_are_what_is_named};
use crate::glb::{split_of, Marks};
use crate::gltf::Message;
use crate::json::{parsed, Tree};
use crate::prepare::{
    prepared, rebased, rewrites_done, start_of, work_of, Rebase, Start, Work,
};
use crate::primitive::{cloud_point, first_uvs};
use crate::rewrite_laws::stripping_drops_the_handled_extensions;
use crate::schema::{georeference_of, kind_of, BoundingVolume, Georeference};
use crate::spawn::{cached, children_of, Cached, DecodedItem};
use vstd::prelude::*;

verus! {

/// What a document says of itself: its notice, and the three numbers of its
/// center.
pub open spec fn tells(t: Tree, copyright: Option<Seq<char>>, center: Option<Seq<serde_json::Number>>) -> bool {
    let c = t.at("extensions"@).at("CESIUM_RTC"@).at("center"@);
    &&& match copyright {
        Some(s) => t.at("asset"@).at("copyright"@) == Tree::Text(s),
        None => !(t.at("asset"@).at("copyright"@) is Text),
    }
    &&& may_list(c, 3) ==> lists(c, 3, center)
    &&& !(c is Array) ==> center is None
    &&& center matches Some(v) ==> v.len() == 3
}

/// The work on a document starts with the document as it was parsed, its notice
/// and its center.
pub proof fn work_starts_with_the_document(t: Tree, marks: Marks)
    ensures
        ({
            let w = work_of(t, marks);
            &&& w.tree == t
            &&& w.marks == marks
            &&& !w.rebased
            &&& tells(t, w.copyright, w.rtc_center)
        }),
{
    let c = t.at("extensions"@).at("CESIUM_RTC"@).at("center"@);
    if may_list(c, 3) && !(c is Null) {
        crate::extract_laws::lemma_all_numbers(c.items());
        crate::extract_laws::lemma_numbers(c.items());
    }
}

/// Preparing a tile gives back the notice of its document, and its center, or the
/// one onto which its roots were moved where it has none of its own and lies on
/// the planet.
pub proof fn prepared_tiles_keep_notice_and_center(
    bytes: Seq<u8>,
    georeferenced: bool,
    extract: bool,
    rebase: Option<Rebase>,
    decoded: Seq<Result<Seq<u8>, Message>>,
)
    ensures
        start_of(bytes, georeferenced, extract) matches Ok(Start::Work(w)) ==> {
            &&& split_of(bytes) matches Ok((json, _)) && parsed(json) == Ok::<_, Seq<char>>(w.tree)
            &&& tells(w.tree, w.copyright, w.rtc_center)
            &&& prepared(bytes, georeferenced, extract, rebase, decoded) matches Ok(Some(p)) ==> {
                &&& p.copyright == w.copyright
                &&& p.rtc_center == if georeferenced && w.rtc_center is None && rebase is Some {
                    Some(rebase->Some_0.center@)
                } else {
                    w.rtc_center
                }
                &&& p.meshes is Some ==> extract
                &&& p.features is Some ==> w.marks.features
            }
        },
{
    if let Ok(Start::Work(w)) = start_of(bytes, georeferenced, extract) {
        let json = split_of(bytes)->Ok_0.0;
        work_starts_with_the_document(parsed(json)->Ok_0, crate::glb::marks_of(json));
    }
}

/// Decoding takes a tile as it stands where it names nothing to handle and does
/// not lie on the planet; it reads splats as splats where it is told to, and
/// rewrites any other document.
pub proof fn decoding_starts_where_it_must(bytes: Seq<u8>, georeferenced: bool, splats: bool, json: Seq<u8>, bin: Option<Seq<u8>>, t: Tree)
    requires
        split_of(bytes) == Ok::<(Seq<u8>, Option<Seq<u8>>), Seq<char>>((json, bin)),
        parsed(json) == Ok::<Tree, Seq<char>>(t),
    ensures
        ({
            let idle = !georeferenced && !is_said(json, "KHR_draco_mesh_compression"@) && !is_said(
                json,
                "KHR_gaussian_splatting"@,
            ) && !is_said(json, "CESIUM_RTC"@) && !is_said(json, "copyright"@) && !is_said(
                json,
                "EXT_meshopt_compression"@,
            ) && !is_said(json, "KHR_texture_basisu"@) && !is_said(json, "EXT_mesh_features"@);
            match decode_from(bytes, georeferenced, splats) {
                Ok(DecodeFrom::Vanilla) => idle,
                Ok(DecodeFrom::Splat(w)) => !idle && splats && is_said(
                    json,
                    "KHR_gaussian_splatting"@,
                ) && w.tree == t && tells(t, w.copyright, w.rtc_center),
                Ok(DecodeFrom::Rewrite(w)) => !idle && !(splats && is_said(
                    json,
                    "KHR_gaussian_splatting"@,
                )) && w.tree == t && tells(t, w.copyright, w.rtc_center),
                Err(_) => false,
            }
        }),
{
    marks_are_what_is_named(json);
    work_starts_with_the_document(t, crate::glb::marks_of(json));
}

/// The last rewrites leave a document alone that asks for none; a document with a
/// center loses it, for it was taken over.
pub proof fn only_marked_documents_are_rewritten(marks: Marks, t: Tree)
    ensures
        !marks.basisu && !marks.rtc ==> rewrites_done(marks, t) == t,
        !marks.basisu && !marks.rtc && !marks.draco ==> tidied(marks, t) == t,
        marks.rtc ==> rewrites_done(marks, t).at("extensions"@).at("CESIUM_RTC"@) is Null,
        marks.rtc || marks.draco ==> tidied(marks, t).at("extensions"@).at("CESIUM_RTC"@) is Null,
        !marks.draco ==> tidied(marks, t) == rewrites_done(marks, t),
{
    let t2 = if marks.basisu {
        crate::rewrite::basisu_rewritten(t)
    } else {
        t
    };
    stripping_drops_the_handled_extensions(t2);
}

/// Moving the roots changes the document and the center together, and only where
/// a tile on the planet has no center of its own.
pub proof fn roots_move_with_their_center(w: Work, georeferenced: bool, rebase: Option<Rebase>)
    ensures
        ({
            let r = rebased(w, georeferenced, rebase);
            let moved = georeferenced && w.rtc_center is None && rebase is Some;
            &&& !moved ==> r == w
            &&& moved ==> r.rebased && r.tree == rebase->Some_0.json@ && r.rtc_center == Some(
                rebase->Some_0.center@,
            )
            &&& r.copyright == w.copyright && r.marks == w.marks
        }),
{
}

/// A volume is the box where there is one, else the sphere, else the region.
pub proof fn boxes_count_before_spheres_before_regions(v: BoundingVolume)
    ensures
        match georeference_of(kind_of(v)) {
            Georeference::Yes => v.obb is None && v.sphere is None && v.region is Some,
            Georeference::No => v.obb is None && v.sphere is None && v.region is None,
            Georeference::IfFar(c) => match (v.obb, v.sphere) {
                (Some(b), _) => c[0] == b[0] && c[1] == b[1] && c[2] == b[2],
                (None, Some(s)) => c[0] == s[0] && c[1] == s[1] && c[2] == s[2],
                _ => false,
            },
        },
{
}

/// A point of a cloud stands where it was read, has the color that was read for
/// it, and is white, which is four times one, where there was none.
pub proof fn points_keep_place_and_color(positions: Seq<[u32; 3]>, colors: Option<Seq<[u32; 4]>>, i: int)
    requires
        0 <= i < positions.len(),
    ensures
        ({
            let p = cloud_point(positions, colors, i);
            &&& p.position == positions[i]
            &&& colors is Some && i < colors->Some_0.len() ==> p.color == colors->Some_0[i]
            &&& colors is None || i >= colors->Some_0.len() ==> forall|c: int|
                0 <= c < 4 ==> #[trigger] p.color[c] == 0x3f80_0000
        }),
{
}

/// A texture set that was read is kept; one is made up only for features.
pub proof fn texture_sets_are_made_up_for_features_only(uvs: Option<Seq<[u32; 2]>>, features: bool, vertices: nat)
    ensures
        uvs is Some ==> first_uvs(uvs, features, vertices) == uvs,
        uvs is None ==> (first_uvs(uvs, features, vertices) is Some <==> features),
        uvs is None && features ==> first_uvs(uvs, features, vertices)->Some_0.len() == vertices,
{
}

/// Under a tile stands one thing for each item that was kept, in their order; all
/// belong to its tileset and owner, and what can be picked says so.
pub proof fn children_stand_for_their_items(
    items: Seq<DecodedItem>,
    owner: Option<Seq<char>>,
    owners: Seq<Option<Seq<Seq<char>>>>,
    set_id: u64,
    i: int,
)
    requires
        0 <= i < items.len(),
    ensures
        ({
            let cache = Seq::new(items.len(), |i: int| cached(items[i], owner, owners[i]));
            let c = children_of(cache, set_id, owner);
            &&& c.len() == items.len()
            &&& c[i].item == i
            &&& c[i].set_id == set_id
            &&& c[i].owner == owner
            &&& c[i].has_pick <==> (items[i] matches DecodedItem::Mesh { features: Some(_), .. })
                && owner is Some && owners[i] is Some
            &&& items[i] matches DecodedItem::Points { cloud, transform } ==> cache[i]
                == (Cached::Points { cloud, transform })
            &&& items[i] matches DecodedItem::Splat { cloud, transform } ==> cache[i]
                == (Cached::Splat { cloud, transform })
        }),
{
}

} // verus!
