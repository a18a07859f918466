//! Reading tiles of Gaussian splats.
use crate::extract::{numbers, numbers_in, opt_numbers};
use crate::glb::opt_bytes;
use crate::gltf::{accessor_of, nth64, or_zero, read_accessor, rows, unwrap_or_zero, Component, Message};
use crate::json::{down, opt_array, opt_tree, opt_u64, trees, Json, Tree};
use crate::text;
use crate::text::decimal_chars;
use vstd::prelude::*;

verus! {

/// The placement of a node: a matrix of sixteen numbers, or its parts. What is
/// absent or has another length counts as nothing.
#[derive(Debug)]
pub struct SplatLocal {
    pub matrix: Option<Vec<serde_json::Number>>,
    pub translation: Option<Vec<serde_json::Number>>,
    pub rotation: Option<Vec<serde_json::Number>>,
    pub scale: Option<Vec<serde_json::Number>>,
}

/// [`SplatLocal`] as a mathematical value.
pub struct Placement {
    pub matrix: Option<Seq<serde_json::Number>>,
    pub translation: Option<Seq<serde_json::Number>>,
    pub rotation: Option<Seq<serde_json::Number>>,
    pub scale: Option<Seq<serde_json::Number>>,
}

impl View for SplatLocal {
    type V = Placement;

    open spec fn view(&self) -> Placement {
        Placement {
            matrix: opt_numbers(self.matrix),
            translation: opt_numbers(self.translation),
            rotation: opt_numbers(self.rotation),
            scale: opt_numbers(self.scale),
        }
    }
}

/// The numbers of an array, where there are exactly `n`.
pub open spec fn exactly(t: Tree, n: int) -> Option<Seq<serde_json::Number>> {
    match t {
        Tree::Array(items) => if numbers_in(items).len() == n {
            Some(numbers_in(items))
        } else {
            None
        },
        _ => None,
    }
}

/// The placement of a node.
pub open spec fn placement_of(node: Tree) -> Placement {
    Placement {
        matrix: exactly(node.at("matrix"@), 16),
        translation: exactly(node.at("translation"@), 3),
        rotation: exactly(node.at("rotation"@), 4),
        scale: exactly(node.at("scale"@), 3),
    }
}

fn read_exactly(j: Option<&Json>, n: usize) -> (r: Option<Vec<serde_json::Number>>)
    ensures
        opt_numbers(r) == exactly(opt_tree(j), n as int),
{
    match opt_array(j) {
        Some(items) => {
            let v = numbers(items);
            if v.len() == n {
                Some(v)
            } else {
                None
            }
        },
        None => None,
    }
}

/// The placement of a node.
pub fn node_transform(node: &Json) -> (r: SplatLocal)
    ensures
        r@ == placement_of(node@),
{
    SplatLocal {
        matrix: read_exactly(node.get("matrix"), 16),
        translation: read_exactly(node.get("translation"), 3),
        rotation: read_exactly(node.get("rotation"), 4),
        scale: read_exactly(node.get("scale"), 3),
    }
}

/// Where the color of splats comes from.
#[derive(Debug)]
pub enum SplatColor {
    /// Coefficients of the zeroth spherical harmonic.
    Harmonic(Vec<Vec<Component>>),
    /// Plain colors.
    Plain(Vec<Vec<Component>>),
}

/// The splats of one primitive.
#[derive(Debug)]
pub struct SplatPrimitive {
    /// The nodes from the root to the primitive's own, by index.
    pub transform: Vec<usize>,
    pub positions: Vec<Vec<Component>>,
    pub rotations: Vec<Vec<Component>>,
    pub scales: Vec<Vec<Component>>,
    pub opacities: Vec<Vec<Component>>,
    pub color: SplatColor,
}

/// The splats of one primitive as a mathematical value.
pub struct Splats {
    pub positions: Seq<Seq<Component>>,
    pub rotations: Seq<Seq<Component>>,
    pub scales: Seq<Seq<Component>>,
    pub opacities: Seq<Seq<Component>>,
    pub harmonic: bool,
    pub color: Seq<Seq<Component>>,
}

/// The rows of an attribute that must be there.
pub open spec fn required_rows(t: Tree, bin: Option<Seq<u8>>, attrs: Tree, name: Seq<char>, n: int) -> Result<
    Seq<Seq<Component>>,
    Message,
> {
    match attrs.at(name).as_u64() {
        None => Err("splat primitive missing "@ + name),
        Some(ix) => accessor_of(t, bin, ix as int, n),
    }
}

/// The colors: the harmonics where they are, else the plain colors.
pub open spec fn color_rows(t: Tree, bin: Option<Seq<u8>>, attrs: Tree) -> Result<
    (bool, Seq<Seq<Component>>),
    Message,
> {
    match attrs.at("KHR_gaussian_splatting:SH_DEGREE_0_COEF_0"@).as_u64() {
        Some(ix) => match accessor_of(t, bin, ix as int, 3) {
            Ok(v) => Ok((true, v)),
            Err(e) => Err(e),
        },
        None => match attrs.at("COLOR_0"@).as_u64() {
            Some(ix) => match accessor_of(t, bin, ix as int, 4) {
                Ok(v) => Ok((false, v)),
                Err(e) => Err(e),
            },
            None => Err("splat primitive has neither SH_DEGREE_0_COEF_0 nor COLOR_0"@),
        },
    }
}

/// The message for attributes of different lengths.
pub open spec fn counts_disagree(n: nat, rot: nat, scale: nat, opacity: nat) -> Message {
    "splat attribute counts disagree: pos="@ + decimal_chars(n) + " rot="@ + decimal_chars(rot)
        + " scale="@ + decimal_chars(scale) + " opacity="@ + decimal_chars(opacity)
}

/// The splats of a primitive, read in order; the first error decides.
pub open spec fn splats_of(t: Tree, bin: Option<Seq<u8>>, attrs: Tree) -> Result<Splats, Message> {
    match required_rows(t, bin, attrs, "POSITION"@, 3) {
        Err(e) => Err(e),
        Ok(positions) => match required_rows(
            t,
            bin,
            attrs,
            "KHR_gaussian_splatting:ROTATION"@,
            4,
        ) {
            Err(e) => Err(e),
            Ok(rotations) => match required_rows(
                t,
                bin,
                attrs,
                "KHR_gaussian_splatting:SCALE"@,
                3,
            ) {
                Err(e) => Err(e),
                Ok(scales) => match required_rows(
                    t,
                    bin,
                    attrs,
                    "KHR_gaussian_splatting:OPACITY"@,
                    1,
                ) {
                    Err(e) => Err(e),
                    Ok(opacities) => match color_rows(t, bin, attrs) {
                        Err(e) => Err(e),
                        Ok((harmonic, color)) => {
                            let n = positions.len();
                            if rotations.len() != n || scales.len() != n || opacities.len() != n {
                                Err(
                                    counts_disagree(
                                        n,
                                        rotations.len(),
                                        scales.len(),
                                        opacities.len(),
                                    ),
                                )
                            } else if color.len() < n {
                                Err("splat primitive has too few colors"@)
                            } else {
                                Ok(
                                    Splats {
                                        positions,
                                        rotations,
                                        scales,
                                        opacities,
                                        harmonic,
                                        color,
                                    },
                                )
                            }
                        },
                    },
                },
            },
        },
    }
}

/// `p` holds the splats `w`.
pub open spec fn splats_are(p: SplatPrimitive, w: Splats) -> bool {
    &&& rows(p.positions@) == w.positions
    &&& rows(p.rotations@) == w.rotations
    &&& rows(p.scales@) == w.scales
    &&& rows(p.opacities@) == w.opacities
    &&& match p.color {
        SplatColor::Harmonic(v) => w.harmonic && rows(v@) == w.color,
        SplatColor::Plain(v) => !w.harmonic && rows(v@) == w.color,
    }
}

fn read_required(json: &Json, bin: Option<&[u8]>, attrs: Option<&Json>, name: &str, n: usize) -> (r: Result<
    Vec<Vec<Component>>,
    String,
>)
    requires
        1 <= n <= 4,
    ensures
        crate::gltf::rows_view(r) == required_rows(
            json@,
            opt_bytes(bin),
            opt_tree(attrs),
            name@,
            n as int,
        ),
{
    match opt_u64(down(attrs, name)) {
        None => Err(text::join2("splat primitive missing ", name)),
        Some(ix) => read_accessor(json, bin, ix, n),
    }
}

fn read_color(json: &Json, bin: Option<&[u8]>, attrs: Option<&Json>) -> (r: Result<SplatColor, String>)
    ensures
        match color_rows(json@, opt_bytes(bin), opt_tree(attrs)) {
            Ok((true, w)) => r matches Ok(SplatColor::Harmonic(v)) && rows(v@) == w,
            Ok((false, w)) => r matches Ok(SplatColor::Plain(v)) && rows(v@) == w,
            Err(m) => r matches Err(e) && e@ == m,
        },
{
    match opt_u64(down(attrs, "KHR_gaussian_splatting:SH_DEGREE_0_COEF_0")) {
        Some(ix) => match read_accessor(json, bin, ix, 3) {
            Ok(v) => Ok(SplatColor::Harmonic(v)),
            Err(e) => Err(e),
        },
        None => match opt_u64(down(attrs, "COLOR_0")) {
            Some(ix) => match read_accessor(json, bin, ix, 4) {
                Ok(v) => Ok(SplatColor::Plain(v)),
                Err(e) => Err(e),
            },
            None => Err(
                String::from_str("splat primitive has neither SH_DEGREE_0_COEF_0 nor COLOR_0"),
            ),
        },
    }
}

/// Reads the splats of a primitive: positions, rotations, scales and opacities
/// of one count, and a color for each.
pub fn decode_splat_primitive(
    json: &Json,
    bin: Option<&[u8]>,
    attrs: Option<&Json>,
    transform: Vec<usize>,
) -> (r: Result<SplatPrimitive, String>)
    ensures
        match splats_of(json@, opt_bytes(bin), opt_tree(attrs)) {
            Ok(w) => r matches Ok(p) && splats_are(p, w) && p.transform == transform,
            Err(m) => r matches Err(e) && e@ == m,
        },
{
    let positions = match read_required(json, bin, attrs, "POSITION", 3) {
        Ok(v) => v,
        Err(e) => {
            return Err(e);
        },
    };
    let rotations = match read_required(
        json,
        bin,
        attrs,
        "KHR_gaussian_splatting:ROTATION",
        4,
    ) {
        Ok(v) => v,
        Err(e) => {
            return Err(e);
        },
    };
    let scales = match read_required(json, bin, attrs, "KHR_gaussian_splatting:SCALE", 3) {
        Ok(v) => v,
        Err(e) => {
            return Err(e);
        },
    };
    let opacities = match read_required(json, bin, attrs, "KHR_gaussian_splatting:OPACITY", 1) {
        Ok(v) => v,
        Err(e) => {
            return Err(e);
        },
    };
    let color = match read_color(json, bin, attrs) {
        Ok(v) => v,
        Err(e) => {
            return Err(e);
        },
    };
    let n: usize = positions.len();
    if rotations.len() != n || scales.len() != n || opacities.len() != n {
        let mut m = text::join3(
            "splat attribute counts disagree: pos=",
            text::decimal(n as u64).as_str(),
            " rot=",
        );
        m.append(text::decimal(rotations.len() as u64).as_str());
        m.append(" scale=");
        m.append(text::decimal(scales.len() as u64).as_str());
        m.append(" opacity=");
        m.append(text::decimal(opacities.len() as u64).as_str());
        return Err(m);
    }
    let colors: usize = match &color {
        SplatColor::Harmonic(v) => v.len(),
        SplatColor::Plain(v) => v.len(),
    };
    if colors < n {
        return Err(String::from_str("splat primitive has too few colors"));
    }
    Ok(SplatPrimitive { transform, positions, rotations, scales, opacities, color })
}

/// How many invisible splats fill `n` up to a multiple of 32.
pub fn splat_padding(n: usize) -> (pad: usize)
    ensures
        pad < 32,
        (n + pad) % 32 == 0,
{
    (32 - n % 32) % 32
}

/// The splats under nodes, each with the nodes from the root to its own.
pub type Found = Seq<(Seq<usize>, Splats)>;

/// Two runs of splats, one after the other; the first error decides.
pub open spec fn followed(a: Result<Found, Message>, b: Result<Found, Message>) -> Result<
    Found,
    Message,
> {
    match a {
        Err(e) => Err(e),
        Ok(x) => match b {
            Err(e) => Err(e),
            Ok(y) => Ok(x + y),
        },
    }
}

/// The splats of the first `k` primitives of a mesh. A primitive without a
/// rotation holds none.
pub open spec fn mesh_splats(t: Tree, bin: Option<Seq<u8>>, prims: Seq<Tree>, k: int, chain: Seq<usize>) -> Result<
    Found,
    Message,
>
    decreases k,
{
    if k <= 0 {
        Ok(Seq::empty())
    } else {
        let attrs = prims[k - 1].at("attributes"@);
        followed(
            mesh_splats(t, bin, prims, k - 1, chain),
            if attrs.at("KHR_gaussian_splatting:ROTATION"@) is Null {
                Ok(Seq::empty())
            } else {
                match splats_of(t, bin, attrs) {
                    Ok(w) => Ok(seq![(chain, w)]),
                    Err(e) => Err(e),
                }
            },
        )
    }
}

/// The splats of a node itself.
pub open spec fn own_splats(t: Tree, bin: Option<Seq<u8>>, node: Tree, chain: Seq<usize>) -> Result<
    Found,
    Message,
> {
    match node.at("mesh"@).as_u64() {
        None => Ok(Seq::empty()),
        Some(ix) => match t.at("meshes"@).item(ix as int).at("primitives"@) {
            Tree::Array(prims) => mesh_splats(t, bin, prims, prims.len() as int, chain),
            _ => Err("mesh without primitives"@),
        },
    }
}

/// The splats under node `ix`: its own, then those of its children. `fuel` is
/// how many nodes deep the walk may still go.
pub open spec fn node_splats(t: Tree, bin: Option<Seq<u8>>, ix: u64, chain: Seq<usize>, fuel: nat) -> Result<
    Found,
    Message,
>
    decreases fuel, 0int, 0int,
{
    let node = t.at("nodes"@).item(ix as int);
    if node is Null {
        Err("node "@ + decimal_chars(ix as nat) + " out of bounds"@)
    } else if fuel == 0 {
        Err("node graph has a cycle"@)
    } else {
        let down = chain.push(ix as usize);
        followed(
            own_splats(t, bin, node, down),
            match node.at("children"@) {
                Tree::Array(children) => child_splats(
                    t,
                    bin,
                    children,
                    children.len() as int,
                    down,
                    (fuel - 1) as nat,
                    "bad child index"@,
                ),
                _ => Ok(Seq::empty()),
            },
        )
    }
}

/// The splats under the first `k` of the nodes that `list` names.
pub open spec fn child_splats(
    t: Tree,
    bin: Option<Seq<u8>>,
    list: Seq<Tree>,
    k: int,
    chain: Seq<usize>,
    fuel: nat,
    bad: Message,
) -> Result<Found, Message>
    decreases fuel, 1int, k,
{
    if k <= 0 {
        Ok(Seq::empty())
    } else {
        followed(
            child_splats(t, bin, list, k - 1, chain, fuel, bad),
            match list[k - 1].as_u64() {
                None => Err(bad),
                Some(ix) => node_splats(t, bin, ix, chain, fuel),
            },
        )
    }
}

/// The splats of a document.
pub open spec fn document_splats(t: Tree, bin: Option<Seq<u8>>) -> Result<Found, Message> {
    match t.at("scenes"@).item(or_zero(t.at("scene"@).as_u64()) as int).at("nodes"@) {
        Tree::Array(roots) => child_splats(
            t,
            bin,
            roots,
            roots.len() as int,
            Seq::empty(),
            t.at("nodes"@).items().len(),
            "bad node index"@,
        ),
        _ => Err("splat tile has no scene nodes"@),
    }
}

/// `list` holds the splats `w`, in order.
pub open spec fn found_is(list: Seq<SplatPrimitive>, w: Found) -> bool {
    list.len() == w.len() && forall|i: int|
        0 <= i < list.len() ==> (#[trigger] list[i]).transform@ == w[i].0 && splats_are(
            list[i],
            w[i].1,
        )
}

/// What a walk added to the splats it was given.
pub open spec fn walked(want: Result<Found, Message>, r: Result<(), String>, before: Found, after: Seq<SplatPrimitive>) -> bool {
    match want {
        Ok(more) => r is Ok && found_is(after, before + more),
        Err(m) => r matches Err(e) && e@ == m,
    }
}

fn copy_chain(v: &Vec<usize>) -> (r: Vec<usize>)
    ensures
        r@ == v@,
{
    let r = v.clone();
    assert(r@ =~= v@);
    r
}

fn walk_mesh(
    json: &Json,
    bin: Option<&[u8]>,
    prims: &Vec<Json>,
    chain: &Vec<usize>,
    out: &mut Vec<SplatPrimitive>,
    Ghost(before): Ghost<Found>,
) -> (r: Result<(), String>)
    requires
        found_is(old(out)@, before),
    ensures
        walked(
            mesh_splats(
                json@,
                opt_bytes(bin),
                trees(prims@),
                prims@.len() as int,
                chain@,
            ),
            r,
            before,
            final(out)@,
        ),
{
    let ghost all = trees(prims@);
    let ghost n = all.len() as int;
    let ghost b = opt_bytes(bin);
    let mut k: usize = 0;
    assert(before + mesh_splats(json@, b, all, 0, chain@)->Ok_0 =~= before);
    while k < prims.len()
        invariant
            k <= prims@.len(),
            all == trees(prims@),
            n == all.len(),
            b == opt_bytes(bin),
            mesh_splats(json@, b, all, k as int, chain@) matches Ok(more) && found_is(
                out@,
                before + more,
            ),
        decreases prims@.len() - k,
    {
        let ghost more = mesh_splats(json@, b, all, k as int, chain@)->Ok_0;
        let attrs = prims[k].get("attributes");
        let turned = match down(attrs, "KHR_gaussian_splatting:ROTATION") {
            None => false,
            Some(Json::Null) => false,
            _ => true,
        };
        if turned {
            match decode_splat_primitive(json, bin, attrs, copy_chain(chain)) {
                Ok(p) => {
                    out.push(p);
                    proof {
                        let w = splats_of(json@, b, opt_tree(attrs))->Ok_0;
                        assert(before + (more + seq![(chain@, w)]) =~= (before + more).push(
                            (chain@, w),
                        ));
                    }
                },
                Err(e) => {
                    proof {
                        lemma_mesh_stop(json@, b, all, k + 1, n, chain@);
                    }
                    return Err(e);
                },
            }
        } else {
            assert(more + Seq::<(Seq<usize>, Splats)>::empty() =~= more);
        }
        k = k + 1;
    }
    Ok(())
}

proof fn lemma_mesh_stop(t: Tree, bin: Option<Seq<u8>>, prims: Seq<Tree>, k: int, n: int, chain: Seq<usize>)
    requires
        0 <= k <= n,
        mesh_splats(t, bin, prims, k, chain) is Err,
    ensures
        mesh_splats(t, bin, prims, n, chain) == mesh_splats(t, bin, prims, k, chain),
    decreases n - k,
{
    if k < n {
        assert(mesh_splats(t, bin, prims, k + 1, chain) == mesh_splats(t, bin, prims, k, chain));
        lemma_mesh_stop(t, bin, prims, k + 1, n, chain);
    }
}

proof fn lemma_children_stop(
    t: Tree,
    bin: Option<Seq<u8>>,
    list: Seq<Tree>,
    k: int,
    n: int,
    chain: Seq<usize>,
    fuel: nat,
    bad: Message,
)
    requires
        0 <= k <= n,
        child_splats(t, bin, list, k, chain, fuel, bad) is Err,
    ensures
        child_splats(t, bin, list, n, chain, fuel, bad) == child_splats(
            t,
            bin,
            list,
            k,
            chain,
            fuel,
            bad,
        ),
    decreases n - k,
{
    if k < n {
        assert(child_splats(t, bin, list, k + 1, chain, fuel, bad) == child_splats(
            t,
            bin,
            list,
            k,
            chain,
            fuel,
            bad,
        ));
        lemma_children_stop(t, bin, list, k + 1, n, chain, fuel, bad);
    }
}

fn walk_children(
    json: &Json,
    bin: Option<&[u8]>,
    list: &Vec<Json>,
    chain: &Vec<usize>,
    fuel: usize,
    bad: &str,
    out: &mut Vec<SplatPrimitive>,
    Ghost(before): Ghost<Found>,
) -> (r: Result<(), String>)
    requires
        found_is(old(out)@, before),
    ensures
        walked(
            child_splats(
                json@,
                opt_bytes(bin),
                trees(list@),
                list@.len() as int,
                chain@,
                fuel as nat,
                bad@,
            ),
            r,
            before,
            final(out)@,
        ),
    decreases fuel, 1int,
{
    let ghost all = trees(list@);
    let ghost n = all.len() as int;
    let ghost b = opt_bytes(bin);
    let mut k: usize = 0;
    assert(before + child_splats(json@, b, all, 0, chain@, fuel as nat, bad@)->Ok_0 =~= before);
    while k < list.len()
        invariant
            k <= list@.len(),
            all == trees(list@),
            n == all.len(),
            b == opt_bytes(bin),
            child_splats(json@, b, all, k as int, chain@, fuel as nat, bad@) matches Ok(more)
                && found_is(out@, before + more),
        decreases list@.len() - k,
    {
        let ghost more = child_splats(json@, b, all, k as int, chain@, fuel as nat, bad@)->Ok_0;
        match list[k].as_u64() {
            None => {
                proof {
                    lemma_children_stop(json@, b, all, k + 1, n, chain@, fuel as nat, bad@);
                }
                return Err(String::from_str(bad));
            },
            Some(ix) => {
                let done = walk_node(json, bin, ix, chain, fuel, out, Ghost(before + more));
                proof {
                    let here = node_splats(json@, b, ix, chain@, fuel as nat);
                    if let Ok(p) = here {
                        assert(before + (more + p) =~= before + more + p);
                    } else {
                        lemma_children_stop(json@, b, all, k + 1, n, chain@, fuel as nat, bad@);
                    }
                }
                match done {
                    Ok(()) => {},
                    Err(e) => {
                        return Err(e);
                    },
                }
            },
        }
        k = k + 1;
    }
    Ok(())
}

fn walk_node(
    json: &Json,
    bin: Option<&[u8]>,
    ix: u64,
    chain: &Vec<usize>,
    fuel: usize,
    out: &mut Vec<SplatPrimitive>,
    Ghost(before): Ghost<Found>,
) -> (r: Result<(), String>)
    requires
        found_is(old(out)@, before),
    ensures
        walked(
            node_splats(json@, opt_bytes(bin), ix, chain@, fuel as nat),
            r,
            before,
            final(out)@,
        ),
    decreases fuel, 0int,
{
    let node = nth64(json.get("nodes"), ix);
    let found = match node {
        None => None,
        Some(Json::Null) => None,
        Some(j) => Some(j),
    };
    let node = match found {
        Some(j) => j,
        None => {
            return Err(
                text::join3("node ", text::decimal(ix).as_str(), " out of bounds"),
            );
        },
    };
    if fuel == 0 {
        return Err(String::from_str("node graph has a cycle"));
    }
    let mut deeper = copy_chain(chain);
    deeper.push(ix as usize);
    let ghost b = opt_bytes(bin);
    let ghost own = own_splats(json@, b, node@, deeper@);
    match opt_u64(node.get("mesh")) {
        None => {
            assert(before + Seq::<(Seq<usize>, Splats)>::empty() =~= before);
        },
        Some(mesh_ix) => {
            let prims = match opt_array(down(nth64(json.get("meshes"), mesh_ix), "primitives")) {
                Some(v) => v,
                None => {
                    return Err(String::from_str("mesh without primitives"));
                },
            };
            match walk_mesh(json, bin, prims, &deeper, out, Ghost(before)) {
                Ok(()) => {},
                Err(e) => {
                    return Err(e);
                },
            }
        },
    }
    let ghost so_far = before + own->Ok_0;
    match opt_array(node.get("children")) {
        Some(list) => {
            let done = walk_children(
                json,
                bin,
                list,
                &deeper,
                fuel - 1,
                "bad child index",
                out,
                Ghost(so_far),
            );
            proof {
                let below = child_splats(
                    json@,
                    b,
                    trees(list@),
                    list@.len() as int,
                    deeper@,
                    (fuel - 1) as nat,
                    "bad child index"@,
                );
                if let Ok(p) = below {
                    assert(before + own->Ok_0 + p =~= before + (own->Ok_0 + p));
                }
            }
            done
        },
        None => {
            assert(before + (own->Ok_0 + Seq::<(Seq<usize>, Splats)>::empty()) =~= so_far);
            Ok(())
        },
    }
}

/// Reads every splat primitive of a document, in the order of the walk: a
/// node's own before those of its children. Primitives of other kinds are
/// skipped.
pub fn decode_splat_gltf(json: &Json, bin: Option<&[u8]>) -> (r: Result<
    Vec<SplatPrimitive>,
    String,
>)
    ensures
        match document_splats(json@, opt_bytes(bin)) {
            Ok(w) => r matches Ok(v) && found_is(v@, w),
            Err(m) => r matches Err(e) && e@ == m,
        },
{
    let scene: u64 = unwrap_or_zero(opt_u64(json.get("scene")));
    let roots = match opt_array(down(nth64(json.get("scenes"), scene), "nodes")) {
        Some(v) => v,
        None => {
            return Err(String::from_str("splat tile has no scene nodes"));
        },
    };
    let fuel: usize = match opt_array(json.get("nodes")) {
        Some(v) => v.len(),
        None => 0,
    };
    let mut out: Vec<SplatPrimitive> = Vec::new();
    let chain: Vec<usize> = Vec::new();
    let ghost none: Found = Seq::empty();
    assert(chain@ =~= Seq::<usize>::empty());
    match walk_children(json, bin, roots, &chain, fuel, "bad node index", &mut out, Ghost(none)) {
        Ok(()) => {
            assert(forall|w: Found| none + w =~= w);
            Ok(out)
        },
        Err(e) => Err(e),
    }
}

} // verus!
