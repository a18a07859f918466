//! The vertex data of a drawn primitive. Floats are held by their bits.
use crate::content::{feature_of_triangle, feature_of_vertex, triangle_features, vertices_filled};
use crate::gltf::Component;
use vstd::prelude::*;

verus! {

/// The vertex data of a primitive as a reader of glTF hands it out. What is
/// absent, or lies in another file, is `None`.
pub struct RawPrimitive {
    pub positions: Option<Vec<[u32; 3]>>,
    pub normals: Option<Vec<[u32; 3]>>,
    pub uvs: Option<Vec<[u32; 2]>>,
    pub colors: Option<Vec<[u32; 4]>>,
    pub indices: Option<Vec<u32>>,
}

/// The feature ids of a primitive, vertex by vertex: as they were read, and
/// rounded.
pub struct FeatureIds {
    pub read: Vec<Component>,
    pub rounded: Vec<u32>,
}

/// The features of a primitive.
pub struct PrimitiveFeatures {
    pub of_triangle: Vec<u32>,
    /// The first coordinate of the second texture set; the other one is zero.
    pub of_vertex: Vec<Component>,
}

/// The streams of a mesh of triangles.
pub struct MeshStreams {
    pub positions: Vec<[u32; 3]>,
    /// Computed from the triangles where there are none.
    pub normals: Option<Vec<[u32; 3]>>,
    pub uvs: Option<Vec<[u32; 2]>>,
    pub colors: Option<Vec<[u32; 4]>>,
    pub indices: Option<Vec<u32>>,
    pub features: Option<PrimitiveFeatures>,
}

/// The contents of an optional list.
pub open spec fn opt_list<T>(v: Option<Vec<T>>) -> Option<Seq<T>> {
    match v {
        Some(v) => Some(v@),
        None => None,
    }
}

/// The first texture set: the one that was read. Features need one, so a
/// primitive with features and without a set has one of zeros.
pub open spec fn first_uvs(uvs: Option<Seq<[u32; 2]>>, features: bool, vertices: nat) -> Option<
    Seq<[u32; 2]>,
> {
    match uvs {
        Some(v) => Some(v),
        None if features => Some(Seq::new(vertices, |i: int| [0u32, 0u32])),
        None => None,
    }
}

/// Whether these are the features that the ids of the vertices give.
pub open spec fn are_features(
    f: Option<PrimitiveFeatures>,
    ids: Option<FeatureIds>,
    indices: Option<Seq<u32>>,
    vertices: int,
) -> bool {
    match (f, ids) {
        (None, None) => true,
        (Some(f), Some(v)) => {
            &&& f.of_triangle@ == triangle_features(v.rounded@, indices, vertices)
            &&& f.of_vertex@ == vertices_filled(v.read@, vertices)
        },
        _ => false,
    }
}

/// A texture set of zeros.
fn zero_uvs(n: usize) -> (out: Vec<[u32; 2]>)
    ensures
        out@ == Seq::new(n as nat, |i: int| [0u32, 0u32]),
{
    let mut out: Vec<[u32; 2]> = Vec::new();
    while out.len() < n
        invariant
            out@.len() <= n,
            forall|k: int| 0 <= k < out@.len() ==> #[trigger] out@[k] == [0u32, 0u32],
        decreases n - out@.len(),
    {
        out.push([0, 0]);
    }
    assert(out@ =~= Seq::new(n as nat, |i: int| [0u32, 0u32]));
    out
}

/// Puts a mesh together. A primitive without positions has none, and ids that
/// could not be read fail it.
pub fn assemble_primitive(raw: RawPrimitive, ids: Result<Option<FeatureIds>, String>) -> (r: Result<
    MeshStreams,
    String,
>)
    ensures
        match (raw.positions, ids) {
            (None, _) => r matches Err(e) && e@
                == "primitive has no POSITION (or buffer is an external URI)"@,
            (Some(_), Err(why)) => r == Err::<MeshStreams, String>(why),
            (Some(p), Ok(ids)) => {
                &&& r matches Ok(m)
                &&& m.positions == p
                &&& m.normals == raw.normals
                &&& opt_list(m.uvs) == first_uvs(opt_list(raw.uvs), ids is Some, p@.len())
                &&& m.colors == raw.colors
                &&& m.indices == raw.indices
                &&& are_features(m.features, ids, opt_list(raw.indices), p@.len() as int)
            },
        },
{
    let positions = match raw.positions {
        Some(p) => p,
        None => {
            return Err("primitive has no POSITION (or buffer is an external URI)".to_string());
        },
    };
    let n: usize = positions.len();
    let features = match ids {
        Err(why) => {
            return Err(why);
        },
        Ok(None) => None,
        Ok(Some(v)) => {
            let of_triangle = match &raw.indices {
                Some(ix) => feature_of_triangle(&v.rounded, Some(ix.as_slice()), n),
                None => feature_of_triangle(&v.rounded, None, n),
            };
            Some(PrimitiveFeatures { of_triangle, of_vertex: feature_of_vertex(&v.read, n) })
        },
    };
    let uvs = match raw.uvs {
        Some(v) => Some(v),
        None => match &features {
            Some(_) => Some(zero_uvs(n)),
            None => None,
        },
    };
    Ok(
        MeshStreams {
            positions,
            normals: raw.normals,
            uvs,
            colors: raw.colors,
            indices: raw.indices,
            features,
        },
    )
}

/// A point of a cloud.
#[derive(Clone, Copy, Debug, PartialEq, Eq)]
pub struct CloudPoint {
    pub position: [u32; 3],
    /// Minus one, in the bits of a float: the size that all points share.
    pub size: u32,
    pub color: [u32; 4],
}

/// The bits of minus one.
pub const SHARED_SIZE: u32 = 0xbf80_0000;

/// The bits of one.
pub const FULL: u32 = 0x3f80_0000;

/// Point `i` of a cloud. Points without a color are white.
pub open spec fn cloud_point(
    positions: Seq<[u32; 3]>,
    colors: Option<Seq<[u32; 4]>>,
    i: int,
) -> CloudPoint {
    CloudPoint {
        position: positions[i],
        size: SHARED_SIZE,
        color: match colors {
            Some(c) if i < c.len() => c[i],
            _ => [FULL, FULL, FULL, FULL],
        },
    }
}

/// Puts a cloud of points together.
pub fn assemble_points(raw: RawPrimitive) -> (r: Result<Vec<CloudPoint>, String>)
    ensures
        match raw.positions {
            None => r matches Err(e) && e@
                == "points primitive has no POSITION (or buffer is an external URI)"@,
            Some(p) => r matches Ok(out) && out@ == Seq::new(
                p@.len(),
                |i: int| cloud_point(p@, opt_list(raw.colors), i),
            ),
        },
{
    let positions = match raw.positions {
        Some(p) => p,
        None => {
            return Err(
                "points primitive has no POSITION (or buffer is an external URI)".to_string(),
            );
        },
    };
    let n: usize = positions.len();
    let mut out: Vec<CloudPoint> = Vec::new();
    let mut i: usize = 0;
    while i < n
        invariant
            i <= n,
            n == positions@.len(),
            out@.len() == i,
            forall|k: int|
                0 <= k < i ==> #[trigger] out@[k] == cloud_point(
                    positions@,
                    opt_list(raw.colors),
                    k,
                ),
        decreases n - i,
    {
        let color = match &raw.colors {
            Some(c) => if i < c.len() {
                c[i]
            } else {
                [FULL, FULL, FULL, FULL]
            },
            None => [FULL, FULL, FULL, FULL],
        };
        out.push(CloudPoint { position: positions[i], size: SHARED_SIZE, color });
        i = i + 1;
    }
    assert(out@ =~= Seq::new(
        positions@.len(),
        |i: int| cloud_point(positions@, opt_list(raw.colors), i),
    ));
    Ok(out)
}

} // verus!
