//! The parts of a `tileset.json` that the streamer works on. Numbers with a
//! fraction are held as the bits of an `f64`.
use vstd::prelude::*;

verus! {

/// A `tileset.json`.
#[derive(Debug)]
pub struct Tileset {
    pub asset: Asset,
    /// The error in metres where nothing of the tileset is drawn.
    pub geometric_error: u64,
    pub root: Tile,
}

/// What the file says of itself.
#[derive(Debug)]
pub struct Asset {
    pub version: String,
}

/// A tile of the explicit tree.
#[derive(Debug)]
pub struct Tile {
    pub bounding_volume: BoundingVolume,
    /// The error in metres where this tile is drawn in place of its children.
    pub geometric_error: u64,
    pub refine: Option<Refine>,
    /// A transform by columns; the identity where it is absent.
    pub transform: Option<[u64; 16]>,
    pub content: Option<Content>,
    pub children: Vec<Tile>,
}

/// How children relate to their parent.
#[derive(Debug, Clone, Copy, PartialEq, Eq, Structural)]
pub enum Refine {
    Replace,
    Add,
}

/// Where the content of a tile is.
#[derive(Debug)]
pub struct Content {
    pub uri: String,
}

/// The volume of a tile. One of the three should be there.
#[derive(Debug, Clone, Copy)]
pub struct BoundingVolume {
    /// The center and three half axes.
    pub obb: Option<[u64; 12]>,
    /// The center and the radius.
    pub sphere: Option<[u64; 4]>,
    /// West, south, east, north in radians; the lowest and the highest point.
    pub region: Option<[u64; 6]>,
}

/// The volume that counts.
#[derive(Debug, Clone, Copy)]
pub enum VolumeKind {
    Box([u64; 12]),
    Sphere([u64; 4]),
    Region([u64; 6]),
}

/// The volume that counts: the box before the sphere before the region.
pub open spec fn kind_of(v: BoundingVolume) -> Option<VolumeKind> {
    match v.obb {
        Some(b) => Some(VolumeKind::Box(b)),
        None => match v.sphere {
            Some(s) => Some(VolumeKind::Sphere(s)),
            None => match v.region {
                Some(r) => Some(VolumeKind::Region(r)),
                None => None,
            },
        },
    }
}

impl BoundingVolume {
    /// The volume that counts.
    pub fn kind(&self) -> (r: Option<VolumeKind>)
        ensures
            r == kind_of(*self),
    {
        if let Some(b) = self.obb {
            Some(VolumeKind::Box(b))
        } else if let Some(s) = self.sphere {
            Some(VolumeKind::Sphere(s))
        } else {
            match self.region {
                Some(r) => Some(VolumeKind::Region(r)),
                None => None,
            }
        }
    }
}

/// Whether a tileset lies in the earth's own frame.
#[derive(Debug, Clone, Copy)]
pub enum Georeference {
    Yes,
    No,
    /// It does where this center, under the root's transform, is at planetary
    /// distance.
    IfFar([u64; 3]),
}

/// Whether a tileset with this root volume lies in the earth's own frame: a
/// region does, and no volume does not.
pub open spec fn georeference_of(k: Option<VolumeKind>) -> Georeference {
    match k {
        Some(VolumeKind::Region(_)) => Georeference::Yes,
        Some(VolumeKind::Sphere(s)) => Georeference::IfFar([s[0], s[1], s[2]]),
        Some(VolumeKind::Box(b)) => Georeference::IfFar([b[0], b[1], b[2]]),
        None => Georeference::No,
    }
}

impl Tileset {
    /// Whether the tileset lies in the earth's own frame.
    pub fn georeference(&self) -> (r: Georeference)
        ensures
            r == georeference_of(kind_of(self.root.bounding_volume)),
    {
        match self.root.bounding_volume.kind() {
            Some(VolumeKind::Region(_)) => Georeference::Yes,
            Some(VolumeKind::Sphere(s)) => Georeference::IfFar([s[0], s[1], s[2]]),
            Some(VolumeKind::Box(b)) => Georeference::IfFar([b[0], b[1], b[2]]),
            None => Georeference::No,
        }
    }
}

} // verus!
