//! What is kept of decoded content, and how it is put into the scene. Meshes,
//! materials, clouds and transforms go by the names that the host gave them.
use crate::api::{owned, TileFeaturePick};
use crate::gltf::strings;
use crate::text;
use crate::text::decimal_chars;
use crate::tree::opt_text;
use vstd::prelude::*;

verus! {

/// The features of a mesh.
#[derive(Debug)]
pub struct TileFeatures {
    pub feature_of_triangle: Vec<u32>,
    /// The path of the node that each feature came from.
    pub node_of_feature: Vec<String>,
}

/// Something that was decoded.
#[derive(Debug)]
pub enum DecodedItem {
    Mesh { mesh: u64, material: u64, transform: u64, features: Option<TileFeatures> },
    Points { cloud: u64, transform: u64 },
    Splat { cloud: u64, transform: u64 },
}

/// What is kept of something that was decoded, so that it can be put into the
/// scene again.
#[derive(Debug, Clone)]
pub enum CachedItem {
    Mesh { mesh: u64, material: u64, transform: u64, pick: Option<TileFeaturePick> },
    Points { cloud: u64, transform: u64 },
    Splat { cloud: u64, transform: u64 },
}

/// A pick as a mathematical value.
pub struct Pick {
    pub features: Seq<u32>,
    pub owners: Seq<Seq<char>>,
}

/// [`CachedItem`] as a mathematical value.
pub enum Cached {
    Mesh { mesh: u64, material: u64, transform: u64, pick: Option<Pick> },
    Points { cloud: u64, transform: u64 },
    Splat { cloud: u64, transform: u64 },
}

/// The pick, where there is one.
pub open spec fn pick_view(p: Option<TileFeaturePick>) -> Option<Pick> {
    match p {
        Some(t) => Some(
            Pick { features: t.feature_of_triangle@, owners: strings(t.owner_of_feature@) },
        ),
        None => None,
    }
}

impl View for CachedItem {
    type V = Cached;

    open spec fn view(&self) -> Cached {
        match *self {
            CachedItem::Mesh { mesh, material, transform, pick } => Cached::Mesh {
                mesh,
                material,
                transform,
                pick: pick_view(pick),
            },
            CachedItem::Points { cloud, transform } => Cached::Points { cloud, transform },
            CachedItem::Splat { cloud, transform } => Cached::Splat { cloud, transform },
        }
    }
}

/// The views of cached items.
pub open spec fn cache_view(v: Seq<CachedItem>) -> Seq<Cached> {
    Seq::new(v.len(), |i: int| v[i]@)
}

/// What is kept of an item. Features are resolved where the set has an owner and
/// the host resolves them: `owners` is then whom it named for each, and the
/// owner of the set stands in for whom it did not name.
pub open spec fn cached(item: DecodedItem, owner: Option<Seq<char>>, owners: Option<Seq<Seq<char>>>) -> Cached {
    match item {
        DecodedItem::Mesh { mesh, material, transform, features } => Cached::Mesh {
            mesh,
            material,
            transform,
            pick: match (features, owner, owners) {
                (Some(f), Some(anchor), Some(o)) => Some(
                    Pick { features: f.feature_of_triangle@, owners: owned(o, anchor) },
                ),
                _ => None,
            },
        },
        DecodedItem::Points { cloud, transform } => Cached::Points { cloud, transform },
        DecodedItem::Splat { cloud, transform } => Cached::Splat { cloud, transform },
    }
}

/// The list of names, where there is one.
pub open spec fn opt_strings(v: Option<Vec<String>>) -> Option<Seq<Seq<char>>> {
    match v {
        Some(l) => Some(strings(l@)),
        None => None,
    }
}

/// Makes what is kept of decoded items. `resolved` holds for each item whom the
/// host named for its features, where it resolves features at all.
pub fn build_tile_cache(
    items: Vec<DecodedItem>,
    owner: &Option<String>,
    resolved: &Vec<Option<Vec<String>>>,
) -> (r: Vec<CachedItem>)
    requires
        resolved@.len() == items@.len(),
    ensures
        cache_view(r@) == Seq::new(
            items@.len(),
            |i: int| cached(items@[i], opt_text(*owner), opt_strings(resolved@[i])),
        ),
{
    let ghost all = items@;
    let n: usize = items.len();
    let mut rest = items;
    let mut r: Vec<CachedItem> = Vec::new();
    let mut i: usize = 0;
    assert(rest@ =~= all.skip(0));
    while i < n
        invariant
            i <= n,
            n == all.len(),
            resolved@.len() == n,
            rest@ == all.skip(i as int),
            r@.len() == i,
            forall|k: int|
                0 <= k < i ==> (#[trigger] r@[k])@ == cached(
                    all[k],
                    opt_text(*owner),
                    opt_strings(resolved@[k]),
                ),
        decreases n - i,
    {
        let item = rest.remove(0);
        assert(item == all[i as int]);
        assert(rest@ =~= all.skip(i + 1));
        let made = match item {
            DecodedItem::Mesh { mesh, material, transform, features } => {
                let pick = match (features, owner, &resolved[i]) {
                    (Some(f), Some(anchor), Some(owners)) => Some(
                        TileFeaturePick::new(f.feature_of_triangle, owners, anchor.as_str()),
                    ),
                    _ => None,
                };
                CachedItem::Mesh { mesh, material, transform, pick }
            },
            DecodedItem::Points { cloud, transform } => CachedItem::Points { cloud, transform },
            DecodedItem::Splat { cloud, transform } => CachedItem::Splat { cloud, transform },
        };
        assert(made@ == cached(all[i as int], opt_text(*owner), opt_strings(resolved@[i as int])));
        r.push(made);
        i = i + 1;
    }
    assert(cache_view(r@) =~= Seq::new(
        all.len(),
        |i: int| cached(all[i], opt_text(*owner), opt_strings(resolved@[i])),
    ));
    r
}

/// Something under a tile in the scene.
#[derive(Debug)]
pub struct ChildPlan {
    /// Which of the kept items it is made from.
    pub item: usize,
    /// The tileset it comes from.
    pub set_id: u64,
    pub owner: Option<String>,
    /// It carries the picking of features.
    pub has_pick: bool,
}

/// [`ChildPlan`] as a mathematical value.
pub struct Child {
    pub item: int,
    pub set_id: u64,
    pub owner: Option<Seq<char>>,
    pub has_pick: bool,
}

impl View for ChildPlan {
    type V = Child;

    open spec fn view(&self) -> Child {
        Child {
            item: self.item as int,
            set_id: self.set_id,
            owner: opt_text(self.owner),
            has_pick: self.has_pick,
        }
    }
}

/// A tile in the scene.
#[derive(Debug)]
pub struct TilePlan {
    pub name: String,
    pub set_id: u64,
    pub tile: usize,
    pub children: Vec<ChildPlan>,
}

/// The name of a tile in the scene.
pub open spec fn tile_name(label: Seq<char>, tile: nat) -> Seq<char> {
    "Tiles3dTile("@ + label + " #"@ + decimal_chars(tile) + ")"@
}

/// A cached item carries the picking of features.
pub open spec fn carries_pick(c: Cached) -> bool {
    c matches Cached::Mesh { pick: Some(_), .. }
}

/// What stands under a tile: one thing for each kept item, tagged with the
/// tileset, and with the owner where there is one.
pub open spec fn children_of(cache: Seq<Cached>, set_id: u64, owner: Option<Seq<char>>) -> Seq<Child> {
    Seq::new(
        cache.len(),
        |i: int| (Child { item: i, set_id, owner, has_pick: carries_pick(cache[i]) }),
    )
}

/// The views of children.
pub open spec fn children_view(v: Seq<ChildPlan>) -> Seq<Child> {
    Seq::new(v.len(), |i: int| v[i]@)
}

/// Plans how a tile is put into the scene, from what was kept of its content.
pub fn spawn_tile_entities(
    set_id: u64,
    label: &str,
    owner: &Option<String>,
    tile: usize,
    cache: &Vec<CachedItem>,
) -> (r: TilePlan)
    ensures
        r.name@ == tile_name(label@, tile as nat),
        r.set_id == set_id,
        r.tile == tile,
        children_view(r.children@) == children_of(cache_view(cache@), set_id, opt_text(*owner)),
{
    let mut name = text::join3("Tiles3dTile(", label, " #");
    name.append(text::decimal(tile as u64).as_str());
    name.append(")");
    let mut children: Vec<ChildPlan> = Vec::new();
    let mut i: usize = 0;
    while i < cache.len()
        invariant
            i <= cache@.len(),
            children@.len() == i,
            forall|k: int|
                0 <= k < i ==> (#[trigger] children@[k])@ == children_of(
                    cache_view(cache@),
                    set_id,
                    opt_text(*owner),
                )[k],
        decreases cache@.len() - i,
    {
        assert(cache_view(cache@)[i as int] == cache@[i as int]@);
        let has_pick = match &cache[i] {
            CachedItem::Mesh { pick: Some(_), .. } => true,
            _ => false,
        };
        let mine: Option<String> = match owner {
            Some(o) => Some(String::from_str(o.as_str())),
            None => None,
        };
        children.push(ChildPlan { item: i, set_id, owner: mine, has_pick });
        i = i + 1;
    }
    assert(children_view(children@) =~= children_of(cache_view(cache@), set_id, opt_text(*owner)));
    TilePlan { name, set_id, tile, children }
}

} // verus!
