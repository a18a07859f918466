//! What hosts see of the streamer: tags on what stands in the scene, and the
//! picking of features.
use crate::gltf::strings;
use crate::text;
use vstd::prelude::*;

verus! {

/// The two steps of a frame. Receiving comes before driving.
#[derive(Debug, Clone, Copy, PartialEq, Eq, Hash)]
pub enum Tiles3dSet {
    /// Sets come and go, and content is taken in.
    Receive,
    /// The cut is picked and applied, and loads start.
    Drive,
}

/// Whose geometry something is.
#[derive(Debug, Clone)]
pub struct TileOwner {
    pub id: String,
}

/// Which tileset geometry comes from.
#[derive(Debug, Clone, Copy, PartialEq, Eq, Structural)]
pub struct TileGeometry {
    pub set_id: u64,
}

/// The priority class of a set; lower comes first.
#[derive(Debug, Clone, Copy, PartialEq, Eq, PartialOrd, Ord, Structural)]
pub struct TilePriorityClass(pub u8);

impl Default for TilePriorityClass {
    fn default() -> (r: Self)
        ensures
            r.0 == 1,
    {
        TilePriorityClass(1)
    }
}

/// Which feature a triangle belongs to, and whose it is.
#[derive(Debug, Clone)]
pub struct TileFeaturePick {
    pub feature_of_triangle: Vec<u32>,
    pub owner_of_feature: Vec<String>,
}

/// The owners, with the anchor in place of those that are empty.
pub open spec fn owned(owners: Seq<Seq<char>>, anchor: Seq<char>) -> Seq<Seq<char>> {
    Seq::new(
        owners.len(),
        |i: int|
            if owners[i].len() == 0 {
                anchor
            } else {
                owners[i]
            },
    )
}

/// Puts the anchor in place of the owners that are empty.
pub fn owners_or_anchor(owners: &Vec<String>, anchor: &str) -> (r: Vec<String>)
    ensures
        strings(r@) == owned(strings(owners@), anchor@),
{
    let mut r: Vec<String> = Vec::new();
    let mut i: usize = 0;
    while i < owners.len()
        invariant
            i <= owners@.len(),
            r@.len() == i,
            forall|k: int|
                0 <= k < i ==> (#[trigger] r@[k])@ == owned(strings(owners@), anchor@)[k],
        decreases owners@.len() - i,
    {
        assert(strings(owners@)[i as int] == owners@[i as int]@);
        proof {
            reveal_strlit("");
        }
        let o = owners[i].as_str();
        let empty = text::same(o, "");
        assert(empty == (owners@[i as int]@.len() == 0)) by {
            if owners@[i as int]@.len() == 0 {
                assert(owners@[i as int]@ =~= ""@);
            }
        }
        let one = if empty {
            String::from_str(anchor)
        } else {
            String::from_str(o)
        };
        r.push(one);
        i = i + 1;
    }
    assert(strings(r@) =~= owned(strings(owners@), anchor@));
    r
}

/// One owner for each of `n` features: the anchor, where nobody says otherwise.
pub fn anchor_for_each(anchor: &str, n: usize) -> (r: Vec<String>)
    ensures
        strings(r@) == Seq::new(n as nat, |i: int| anchor@),
{
    let mut r: Vec<String> = Vec::new();
    while r.len() < n
        invariant
            r@.len() <= n,
            forall|k: int| 0 <= k < r@.len() ==> (#[trigger] r@[k])@ == anchor@,
        decreases n - r@.len(),
    {
        r.push(String::from_str(anchor));
    }
    assert(strings(r@) =~= Seq::new(n as nat, |i: int| anchor@));
    r
}

/// The owner of a triangle, where its feature has one.
pub open spec fn owner_at(features: Seq<u32>, owners: Seq<Seq<char>>, triangle: int) -> Option<Seq<char>> {
    if triangle < features.len() && features[triangle] < owners.len() {
        Some(owners[features[triangle] as int])
    } else {
        None
    }
}

impl TileFeaturePick {
    /// Picks for the triangles of a mesh. `resolved` is whom the host named for
    /// each feature.
    pub fn new(feature_of_triangle: Vec<u32>, resolved: &Vec<String>, anchor: &str) -> (r: Self)
        ensures
            r.feature_of_triangle@ == feature_of_triangle@,
            strings(r.owner_of_feature@) == owned(strings(resolved@), anchor@),
    {
        TileFeaturePick {
            feature_of_triangle,
            owner_of_feature: owners_or_anchor(resolved, anchor),
        }
    }

    /// Whose a triangle is.
    pub fn owner_of(&self, triangle: usize) -> (r: Option<&String>)
        ensures
            match owner_at(
                self.feature_of_triangle@,
                strings(self.owner_of_feature@),
                triangle as int,
            ) {
                Some(o) => r matches Some(s) && s@ == o,
                None => r is None,
            },
    {
        if triangle < self.feature_of_triangle.len() {
            let f: u32 = self.feature_of_triangle[triangle];
            let total: usize = self.owner_of_feature.len();
            if (f as u64) < total as u64 {
                assert(strings(self.owner_of_feature@)[f as int] == self.owner_of_feature@[f as int]@);
                return Some(&self.owner_of_feature[f as usize]);
            }
        }
        None
    }
}

/// A pick never names nobody: where the host named none, it is the anchor.
pub proof fn picks_name_someone(owners: Seq<Seq<char>>, anchor: Seq<char>, f: int)
    requires
        0 <= f < owners.len(),
        anchor.len() > 0,
    ensures
        owned(owners, anchor)[f].len() > 0,
{
}

} // verus!
