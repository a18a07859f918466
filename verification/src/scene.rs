//! What of a plain glTF document is drawn, and what it costs.
use crate::bytes::{le32, le_at};
use crate::glb::{has_magic, magic, opt_bytes, split_glb, split_of};
use crate::gltf::{lossy_text, text_of, Message};
use crate::text;
use crate::text::decimal_chars;
use vstd::prelude::*;

verus! {

/// A node of a document.
#[derive(Debug)]
pub struct OutlineNode {
    pub mesh: Option<usize>,
    pub children: Vec<usize>,
}

/// The shape of a document: what its scenes, nodes and meshes refer to.
#[derive(Debug)]
pub struct Outline {
    /// The scene that is shown by default, where one is named.
    pub default_scene: Option<usize>,
    /// For each scene its root nodes.
    pub scenes: Vec<Vec<usize>>,
    pub nodes: Vec<OutlineNode>,
    /// For each mesh the modes of its primitives.
    pub modes: Vec<Vec<u32>>,
}

/// [`OutlineNode`] as a mathematical value.
pub struct ShapeNode {
    pub mesh: Option<usize>,
    pub children: Seq<usize>,
}

/// [`Outline`] as a mathematical value.
pub struct Shape {
    pub default_scene: Option<usize>,
    pub scenes: Seq<Seq<usize>>,
    pub nodes: Seq<ShapeNode>,
    pub modes: Seq<Seq<u32>>,
}

impl View for Outline {
    type V = Shape;

    open spec fn view(&self) -> Shape {
        Shape {
            default_scene: self.default_scene,
            scenes: Seq::new(self.scenes@.len(), |i: int| self.scenes@[i]@),
            nodes: Seq::new(
                self.nodes@.len(),
                |i: int|
                    (ShapeNode {
                        mesh: self.nodes@[i].mesh,
                        children: self.nodes@[i].children@,
                    }),
            ),
            modes: Seq::new(self.modes@.len(), |i: int| self.modes@[i]@),
        }
    }
}

/// What reading an outline came to.
pub open spec fn outline_view(r: Result<Outline, String>) -> Result<Shape, Message> {
    match r {
        Ok(o) => Ok(o@),
        Err(e) => Err(e@),
    }
}

/// What `gltf::Gltf::from_slice` reads, as far as an outline holds it, or the
/// text of its error.
pub uninterp spec fn outlined(bytes: Seq<u8>) -> Result<Shape, Message>;

/// A container whose header states fewer bytes than the header itself takes.
pub open spec fn header_too_short(bytes: Seq<u8>) -> bool {
    bytes.len() >= 12 && has_magic(bytes) && le_at(bytes, 8, 4) < 12
}

/// What `gltf::Gltf::from_slice_without_validation` reads of positions: the
/// number of accessors, and for each mesh and primitive the accessor that its
/// positions name. None where the bytes cannot be read.
pub uninterp spec fn positions_named(bytes: Seq<u8>) -> Option<(usize, Seq<Seq<Option<usize>>>)>;

/// The positions that a document names, as mathematical values.
pub open spec fn positions_view(r: Option<(usize, Vec<Vec<Option<usize>>>)>) -> Option<
    (usize, Seq<Seq<Option<usize>>>),
> {
    match r {
        Some((n, named)) => Some((n, Seq::new(named@.len(), |m: int| named@[m]@))),
        None => None,
    }
}

/// The accessors of a mesh's positions are among the first `n`.
pub open spec fn mesh_stands(n: usize, named: Seq<Option<usize>>) -> bool {
    forall|p: int| 0 <= p < named.len() ==> match #[trigger] named[p] {
        Some(a) => a < n,
        None => true,
    }
}

/// The accessors that positions name are there.
pub open spec fn positions_stand(r: Option<(usize, Seq<Seq<Option<usize>>>)>) -> bool {
    match r {
        Some((n, named)) => forall|m: int|
            0 <= m < named.len() ==> mesh_stands(n, #[trigger] named[m]),
        None => true,
    }
}

/// Calls `gltf::Gltf::from_slice_without_validation`, and lists the accessors
/// that the positions of its primitives name. The result depends on the bytes
/// alone. A container that states a length under that of its header is left
/// out, as for [`read_outline`].
#[verifier::external_body]
fn read_positions(bytes: &[u8]) -> (r: Option<(usize, Vec<Vec<Option<usize>>>)>)
    requires
        !header_too_short(bytes@),
    ensures
        positions_view(r) == positions_named(bytes@),
{
    let g = gltf::Gltf::from_slice_without_validation(bytes).ok()?;
    let key = gltf::json::validation::Checked::Valid(gltf::json::mesh::Semantic::Positions);
    let j = g.as_json();
    Some((j.accessors.len(), j.meshes.iter().map(|m| {
        m.primitives.iter().map(|p| p.attributes.get(&key).map(|a| a.value())).collect()
    }).collect()))
}

/// Whether the accessors that positions name are there.
pub fn positions_are_there(r: &Option<(usize, Vec<Vec<Option<usize>>>)>) -> (ok: bool)
    ensures
        ok == positions_stand(positions_view(*r)),
{
    match r {
        None => true,
        Some((n, named)) => {
            let ghost all = positions_view(*r)->Some_0.1;
            let mut m: usize = 0;
            while m < named.len()
                invariant
                    m <= named@.len(),
                    all == Seq::new(named@.len(), |m: int| named@[m]@),
                    positions_view(*r) == Some((*n, all)),
                    forall|k: int| 0 <= k < m ==> mesh_stands(*n, #[trigger] all[k]),
                decreases named@.len() - m,
            {
                let list = &named[m];
                assert(all[m as int] == list@);
                let mut p: usize = 0;
                while p < list.len()
                    invariant
                        p <= list@.len(),
                        m < all.len(),
                        all[m as int] == list@,
                        positions_view(*r) == Some((*n, all)),
                        forall|k: int| 0 <= k < p ==> match #[trigger] list@[k] {
                            Some(a) => a < *n,
                            None => true,
                        },
                    decreases list@.len() - p,
                {
                    if let Some(a) = list[p] {
                        if a >= *n {
                            assert(all[m as int][p as int] == Some(a));
                            assert(!mesh_stands(*n, all[m as int]));
                            assert(positions_view(*r)->Some_0.1 == all);
                            return false;
                        }
                    }
                    p = p + 1;
                }
                m = m + 1;
            }
            true
        },
    }
}

/// Calls `gltf::Gltf::from_slice`, which parses and validates the document, and
/// lists what its scenes, nodes and meshes refer to. The result depends on the
/// bytes alone. A container that states a length under that of its header is
/// left out: there the length that remains underflows. So is a document whose
/// positions name an accessor that is not there: validation indexes with it.
#[verifier::external_body]
fn read_outline(bytes: &[u8]) -> (r: Result<Outline, String>)
    requires
        !header_too_short(bytes@),
        positions_stand(positions_named(bytes@)),
    ensures
        outline_view(r) == outlined(bytes@),
{
    let g = gltf::Gltf::from_slice(bytes).map_err(|e| e.to_string())?;
    Ok(Outline {
        default_scene: g.default_scene().map(|s| s.index()),
        scenes: g.scenes().map(|s| s.nodes().map(|n| n.index()).collect()).collect(),
        nodes: g.nodes().map(|n| OutlineNode {
            mesh: n.mesh().map(|m| m.index()),
            children: n.children().map(|c| c.index()).collect()
        }).collect(),
        modes: g.meshes().map(|m| m.primitives().map(|p| p.mode().as_gl_enum()).collect()).collect()
    })
}

/// The text that `Debug` gives for a string.
pub uninterp spec fn quoted_text(s: Seq<char>) -> Seq<char>;

/// Formats a string with `Debug`: in quotes, with escapes.
#[verifier::external_body]
fn quoted(s: &str) -> (r: String)
    ensures
        r@ == quoted_text(s@),
{
    format!("{s:?}")
}

/// How a primitive is drawn.
#[derive(Clone, Copy, Debug, PartialEq, Eq, Structural)]
pub enum DrawKind {
    Triangles,
    Points,
}

/// A primitive to be drawn.
#[derive(Debug)]
pub struct DrawItem {
    /// The nodes from the root to the primitive's own, by index.
    pub transform: Vec<usize>,
    pub mesh: usize,
    pub primitive: usize,
    pub kind: DrawKind,
}

/// [`DrawItem`] as a mathematical value.
pub struct Drawn {
    pub transform: Seq<usize>,
    pub mesh: int,
    pub primitive: int,
    pub kind: DrawKind,
}

impl View for DrawItem {
    type V = Drawn;

    open spec fn view(&self) -> Drawn {
        Drawn {
            transform: self.transform@,
            mesh: self.mesh as int,
            primitive: self.primitive as int,
            kind: self.kind,
        }
    }
}

/// The views of draw items.
pub open spec fn drawn(v: Seq<DrawItem>) -> Seq<Drawn> {
    Seq::new(v.len(), |i: int| v[i]@)
}

/// How mode `m` is drawn: triangles always, points where they are wanted, and
/// nothing else.
pub open spec fn kind_of(m: u32, points: bool) -> Option<DrawKind> {
    if m == 4 {
        Some(DrawKind::Triangles)
    } else if m == 0 && points {
        Some(DrawKind::Points)
    } else {
        None
    }
}

/// What is drawn of the first `k` primitives of a mesh.
pub open spec fn mesh_items(modes: Seq<u32>, k: int, mesh: int, chain: Seq<usize>, points: bool) -> Seq<Drawn>
    decreases k,
{
    if k <= 0 {
        Seq::empty()
    } else {
        let before = mesh_items(modes, k - 1, mesh, chain, points);
        match kind_of(modes[k - 1], points) {
            Some(kind) => before.push(
                Drawn { transform: chain, mesh, primitive: k - 1, kind },
            ),
            None => before,
        }
    }
}

/// What is drawn of a node itself.
pub open spec fn own_items(s: Shape, node: ShapeNode, chain: Seq<usize>, points: bool) -> Seq<Drawn> {
    match node.mesh {
        Some(m) => if m < s.modes.len() {
            mesh_items(s.modes[m as int], s.modes[m as int].len() as int, m as int, chain, points)
        } else {
            Seq::empty()
        },
        None => Seq::empty(),
    }
}

/// What is drawn under a node: its own primitives, then those of its children.
/// `fuel` is how many nodes deep the walk may still go; `None` says that it
/// went deeper.
pub open spec fn node_items(s: Shape, ix: usize, chain: Seq<usize>, fuel: nat, points: bool) -> Option<
    Seq<Drawn>,
>
    decreases fuel, 0int, 0int,
{
    if ix >= s.nodes.len() {
        Some(Seq::empty())
    } else if fuel == 0 {
        None
    } else {
        let node = s.nodes[ix as int];
        let down = chain.push(ix);
        match list_items(
            s,
            node.children,
            node.children.len() as int,
            down,
            (fuel - 1) as nat,
            points,
        ) {
            Some(below) => Some(own_items(s, node, down, points) + below),
            None => None,
        }
    }
}

/// What is drawn under the first `k` of the nodes that `list` names.
pub open spec fn list_items(
    s: Shape,
    list: Seq<usize>,
    k: int,
    chain: Seq<usize>,
    fuel: nat,
    points: bool,
) -> Option<Seq<Drawn>>
    decreases fuel, 1int, k,
{
    if k <= 0 {
        Some(Seq::empty())
    } else {
        match list_items(s, list, k - 1, chain, fuel, points) {
            None => None,
            Some(before) => match node_items(s, list[k - 1], chain, fuel, points) {
                None => None,
                Some(more) => Some(before + more),
            },
        }
    }
}

/// The scene that is drawn: the default one, else the first.
pub open spec fn scene_drawn(s: Shape) -> int {
    match s.default_scene {
        Some(i) => i as int,
        None => 0,
    }
}

/// The roots that are drawn; none where there is no such scene.
pub open spec fn roots_drawn(s: Shape) -> Seq<usize> {
    if scene_drawn(s) < s.scenes.len() {
        s.scenes[scene_drawn(s)]
    } else {
        Seq::empty()
    }
}

/// Everything that is drawn of a document; `None` where its nodes form a cycle.
pub open spec fn items_of(s: Shape, points: bool) -> Option<Seq<Drawn>> {
    list_items(
        s,
        roots_drawn(s),
        roots_drawn(s).len() as int,
        Seq::empty(),
        s.nodes.len(),
        points,
    )
}

/// The message for a document that does not parse: the error, and the start
/// and the end of the text.
pub open spec fn parse_message(bytes: Seq<u8>, e: Message) -> Message {
    let j = match split_of(bytes) {
        Ok((json, _)) => json,
        Err(_) => bytes,
    };
    let n = j.len() as int;
    let cut = if n < 180 {
        n
    } else {
        180
    };
    "gltf parse: "@ + e + " | json_len="@ + decimal_chars(n as nat) + " head="@ + quoted_text(
        lossy_text(j.subrange(0, cut)),
    ) + " tail="@ + quoted_text(lossy_text(j.subrange(n - cut, n)))
}

/// The shape of a document.
pub open spec fn shape_of(bytes: Seq<u8>) -> Result<Shape, Message> {
    if header_too_short(bytes) {
        Err("could not completely read the object"@)
    } else if !positions_stand(positions_named(bytes)) {
        Err("POSITION accessor out of bounds"@)
    } else {
        outlined(bytes)
    }
}

/// What is drawn of plain glTF bytes.
pub open spec fn scene_of(bytes: Seq<u8>, points: bool) -> Result<Seq<Drawn>, Message> {
    match shape_of(bytes) {
        Err(e) => Err(parse_message(bytes, e)),
        Ok(s) => match items_of(s, points) {
            Some(items) => Ok(items),
            None => Err("node graph has a cycle"@),
        },
    }
}

fn copy_chain(v: &Vec<usize>) -> (r: Vec<usize>)
    ensures
        r@ == v@,
{
    let r = v.clone();
    assert(r@ =~= v@);
    r
}

fn draw_mesh(
    modes: &Vec<u32>,
    mesh: usize,
    chain: &Vec<usize>,
    points: bool,
    out: &mut Vec<DrawItem>,
    Ghost(before): Ghost<Seq<Drawn>>,
)
    requires
        drawn(old(out)@) == before,
    ensures
        drawn(final(out)@) == before + mesh_items(
            modes@,
            modes@.len() as int,
            mesh as int,
            chain@,
            points,
        ),
{
    let mut k: usize = 0;
    assert(before + mesh_items(modes@, 0, mesh as int, chain@, points) =~= before);
    while k < modes.len()
        invariant
            k <= modes@.len(),
            drawn(out@) == before + mesh_items(modes@, k as int, mesh as int, chain@, points),
        decreases modes@.len() - k,
    {
        let m: u32 = modes[k];
        let kind = if m == 4 {
            Some(DrawKind::Triangles)
        } else if m == 0 && points {
            Some(DrawKind::Points)
        } else {
            None
        };
        let ghost so_far = mesh_items(modes@, k as int, mesh as int, chain@, points);
        match kind {
            Some(kind) => {
                let item = DrawItem { transform: copy_chain(chain), mesh, primitive: k, kind };
                let ghost had = drawn(out@);
                out.push(item);
                assert(drawn(out@) =~= had.push(item@));
                assert(before + so_far.push(item@) =~= (before + so_far).push(item@));
            },
            None => {},
        }
        k = k + 1;
    }
}

proof fn lemma_list_stop(s: Shape, list: Seq<usize>, k: int, n: int, chain: Seq<usize>, fuel: nat, points: bool)
    requires
        0 <= k <= n,
        list_items(s, list, k, chain, fuel, points) is None,
    ensures
        list_items(s, list, n, chain, fuel, points) is None,
    decreases n - k,
{
    if k < n {
        assert(list_items(s, list, k + 1, chain, fuel, points) is None);
        lemma_list_stop(s, list, k + 1, n, chain, fuel, points);
    }
}

fn draw_list(
    o: &Outline,
    list: &Vec<usize>,
    chain: &Vec<usize>,
    fuel: usize,
    points: bool,
    out: &mut Vec<DrawItem>,
    Ghost(before): Ghost<Seq<Drawn>>,
) -> (ok: bool)
    requires
        drawn(old(out)@) == before,
    ensures
        match list_items(o@, list@, list@.len() as int, chain@, fuel as nat, points) {
            Some(more) => ok && drawn(final(out)@) == before + more,
            None => !ok,
        },
    decreases fuel, 1int,
{
    let ghost n = list@.len() as int;
    let mut k: usize = 0;
    assert(before + list_items(o@, list@, 0, chain@, fuel as nat, points)->Some_0 =~= before);
    while k < list.len()
        invariant
            k <= list@.len(),
            n == list@.len(),
            list_items(o@, list@, k as int, chain@, fuel as nat, points) matches Some(more)
                && drawn(out@) == before + more,
        decreases list@.len() - k,
    {
        let ghost more = list_items(o@, list@, k as int, chain@, fuel as nat, points)->Some_0;
        let ok = draw_node(o, list[k], chain, fuel, points, out, Ghost(before + more));
        proof {
            match node_items(o@, list@[k as int], chain@, fuel as nat, points) {
                Some(p) => {
                    assert(before + (more + p) =~= before + more + p);
                },
                None => {
                    lemma_list_stop(o@, list@, k + 1, n, chain@, fuel as nat, points);
                },
            }
        }
        if !ok {
            return false;
        }
        k = k + 1;
    }
    true
}

fn draw_node(
    o: &Outline,
    ix: usize,
    chain: &Vec<usize>,
    fuel: usize,
    points: bool,
    out: &mut Vec<DrawItem>,
    Ghost(before): Ghost<Seq<Drawn>>,
) -> (ok: bool)
    requires
        drawn(old(out)@) == before,
    ensures
        match node_items(o@, ix, chain@, fuel as nat, points) {
            Some(more) => ok && drawn(final(out)@) == before + more,
            None => !ok,
        },
    decreases fuel, 0int,
{
    if ix >= o.nodes.len() {
        assert(before + Seq::<Drawn>::empty() =~= before);
        return true;
    }
    if fuel == 0 {
        return false;
    }
    let node = &o.nodes[ix];
    assert(o@.nodes[ix as int].mesh == node.mesh);
    assert(o@.nodes[ix as int].children == node.children@);
    let mut deeper = copy_chain(chain);
    deeper.push(ix);
    let ghost own = own_items(o@, o@.nodes[ix as int], deeper@, points);
    match node.mesh {
        Some(m) => {
            if m < o.modes.len() {
                draw_mesh(&o.modes[m], m, &deeper, points, out, Ghost(before));
            } else {
                assert(before + own =~= before);
            }
        },
        None => {
            assert(before + own =~= before);
        },
    }
    let ok = draw_list(
        o,
        &node.children,
        &deeper,
        fuel - 1,
        points,
        out,
        Ghost(before + own),
    );
    proof {
        if let Some(below) = list_items(
            o@,
            node.children@,
            node.children@.len() as int,
            deeper@,
            (fuel - 1) as nat,
            points,
        ) {
            assert(before + own + below =~= before + (own + below));
        }
    }
    ok
}

/// Lists what is drawn of a document, in the order of the walk: the default
/// scene, else the first; a node's own primitives before its children's.
pub fn draw_items(o: &Outline, points: bool) -> (r: Option<Vec<DrawItem>>)
    ensures
        match items_of(o@, points) {
            Some(items) => r matches Some(v) && drawn(v@) == items,
            None => r is None,
        },
{
    let none: Vec<usize> = Vec::new();
    assert(none@ =~= Seq::<usize>::empty());
    let scene: usize = match o.default_scene {
        Some(i) => i,
        None => 0,
    };
    let roots: &Vec<usize> = if scene < o.scenes.len() {
        assert(o@.scenes[scene as int] == o.scenes@[scene as int]@);
        &o.scenes[scene]
    } else {
        &none
    };
    let mut out: Vec<DrawItem> = Vec::new();
    let ghost start: Seq<Drawn> = Seq::empty();
    assert(drawn(out@) =~= start);
    if draw_list(o, roots, &none, o.nodes.len(), points, &mut out, Ghost(start)) {
        assert(forall|w: Seq<Drawn>| start + w =~= w);
        Some(out)
    } else {
        None
    }
}

fn parse_failed(bytes: &[u8], e: String) -> (m: String)
    ensures
        m@ == parse_message(bytes@, e@),
{
    let j: &[u8] = match split_glb(bytes) {
        Ok((json, _)) => json,
        Err(_) => bytes,
    };
    let n: usize = j.len();
    let cut: usize = if n < 180 {
        n
    } else {
        180
    };
    let head = text_of(vstd::slice::slice_subrange(j, 0, cut));
    let tail = text_of(vstd::slice::slice_subrange(j, n - cut, n));
    let mut m = text::join3("gltf parse: ", e.as_str(), " | json_len=");
    m.append(text::decimal(n as u64).as_str());
    m.append(" head=");
    m.append(quoted(head.as_str()).as_str());
    m.append(" tail=");
    m.append(quoted(tail.as_str()).as_str());
    m
}

/// Reads plain glTF bytes and lists what is drawn of them.
pub fn decode_scene(bytes: &[u8], points: bool) -> (r: Result<Vec<DrawItem>, String>)
    ensures
        match scene_of(bytes@, points) {
            Ok(items) => r matches Ok(v) && drawn(v@) == items,
            Err(m) => r matches Err(e) && e@ == m,
        },
{
    let short = bytes.len() >= 12 && bytes[0] == 0x67 && bytes[1] == 0x6c && bytes[2] == 0x54
        && bytes[3] == 0x46 && le32(bytes, 8) < 12;
    assert(short == header_too_short(bytes@)) by {
        if bytes@.len() >= 12 {
            if has_magic(bytes@) {
                assert(bytes@.subrange(0, 4)[0] == magic()[0]);
                assert(bytes@.subrange(0, 4)[1] == magic()[1]);
                assert(bytes@.subrange(0, 4)[2] == magic()[2]);
                assert(bytes@.subrange(0, 4)[3] == magic()[3]);
            }
            if bytes@[0] == 0x67 && bytes@[1] == 0x6c && bytes@[2] == 0x54 && bytes@[3] == 0x46 {
                assert(bytes@.subrange(0, 4) =~= magic());
            }
        }
    }
    let read = if short {
        Err(String::from_str("could not completely read the object"))
    } else if !positions_are_there(&read_positions(bytes)) {
        Err(String::from_str("POSITION accessor out of bounds"))
    } else {
        read_outline(bytes)
    };
    match read {
        Err(e) => Err(parse_failed(bytes, e)),
        Ok(o) => match draw_items(&o, points) {
            Some(v) => Ok(v),
            None => Err(String::from_str("node graph has a cycle")),
        },
    }
}

/// Where the pixels of a texture are.
pub enum ImageSource {
    /// In a file of its own.
    Uri,
    /// In a part of a buffer. `external` says that the buffer is a file of its
    /// own.
    View { external: bool, offset: usize, length: usize, mime: String },
}

/// The pixels of a texture, still encoded.
pub enum EncodedImage {
    /// Transcoded later.
    Ktx2(Vec<u8>),
    /// Decoded at once.
    Plain { mime: String, bytes: Vec<u8> },
}

/// The bytes of a texture, or why there are none.
pub open spec fn texture_of(source: ImageSource, blob: Option<Seq<u8>>) -> Result<Seq<u8>, Message> {
    match source {
        ImageSource::Uri => Err("external texture URIs unsupported in tile content"@),
        ImageSource::View { external, offset, length, mime } => if external || blob is None {
            Err("texture bufferView points at an external buffer"@)
        } else if offset + length > blob->Some_0.len() {
            Err("texture bufferView out of bounds"@)
        } else {
            Ok(blob->Some_0.subrange(offset as int, offset + length))
        },
    }
}

/// Takes the bytes of a texture out of the binary chunk, and says whether they
/// are decoded at once.
pub fn texture_bytes(source: ImageSource, blob: Option<&[u8]>) -> (r: Result<EncodedImage, String>)
    ensures
        match texture_of(source, opt_bytes(blob)) {
            Ok(b) => match r {
                Ok(EncodedImage::Ktx2(v)) => source->mime@ == "image/ktx2"@ && v@ == b,
                Ok(EncodedImage::Plain { mime, bytes }) => source->mime@ != "image/ktx2"@
                    && mime@ == source->mime@ && bytes@ == b,
                Err(_) => false,
            },
            Err(m) => r matches Err(e) && e@ == m,
        },
{
    match source {
        ImageSource::Uri => Err(
            String::from_str("external texture URIs unsupported in tile content"),
        ),
        ImageSource::View { external, offset, length, mime } => {
            if external {
                return Err(String::from_str("texture bufferView points at an external buffer"));
            }
            match blob {
                None => Err(
                    String::from_str("texture bufferView points at an external buffer"),
                ),
                Some(b) => {
                    let n: usize = b.len();
                    if offset > n || length > n - offset {
                        return Err(String::from_str("texture bufferView out of bounds"));
                    }
                    let bytes = vstd::slice::slice_to_vec(
                        vstd::slice::slice_subrange(b, offset, offset + length),
                    );
                    assert(bytes@ =~= b@.subrange(offset as int, offset + length));
                    if text::same(mime.as_str(), "image/ktx2") {
                        Ok(EncodedImage::Ktx2(bytes))
                    } else {
                        Ok(EncodedImage::Plain { mime, bytes })
                    }
                },
            }
        },
    }
}

/// The size of the indices of a mesh.
#[derive(Clone, Copy, Debug)]
pub enum IndexSize {
    Absent,
    U16(u64),
    U32(u64),
}

/// The size of a decoded item.
#[derive(Debug)]
pub enum ItemSize {
    /// A mesh: the bytes of each attribute, and its indices.
    Mesh { attributes: Vec<u64>, indices: IndexSize },
    /// A list of points or splats: how many, and the bytes of each.
    Records { count: u64, size: u64 },
}

/// The sum of numbers.
pub open spec fn sum_of(v: Seq<u64>) -> nat
    decreases v.len(),
{
    if v.len() == 0 {
        0
    } else {
        sum_of(v.drop_last()) + v.last() as nat
    }
}

/// The bytes of an item.
pub open spec fn item_cost(i: ItemSize) -> nat {
    match i {
        ItemSize::Mesh { attributes, indices } => sum_of(attributes@) + match indices {
            IndexSize::Absent => 0nat,
            IndexSize::U16(n) => 2 * n as nat,
            IndexSize::U32(n) => 4 * n as nat,
        },
        ItemSize::Records { count, size } => count as nat * size as nat,
    }
}

/// The bytes of items.
pub open spec fn cost_of(items: Seq<ItemSize>) -> nat
    decreases items.len(),
{
    if items.len() == 0 {
        0
    } else {
        cost_of(items.drop_last()) + item_cost(items.last())
    }
}

proof fn lemma_sum_grows(v: Seq<u64>, k: int)
    requires
        0 <= k <= v.len(),
    ensures
        sum_of(v.take(k)) <= sum_of(v),
    decreases v.len() - k,
{
    if k < v.len() {
        lemma_sum_grows(v, k + 1);
        assert(v.take(k + 1).drop_last() =~= v.take(k));
    } else {
        assert(v.take(k) =~= v);
    }
}

proof fn lemma_cost_grows(v: Seq<ItemSize>, k: int)
    requires
        0 <= k <= v.len(),
    ensures
        cost_of(v.take(k)) <= cost_of(v),
    decreases v.len() - k,
{
    if k < v.len() {
        lemma_cost_grows(v, k + 1);
        assert(v.take(k + 1).drop_last() =~= v.take(k));
    } else {
        assert(v.take(k) =~= v);
    }
}

fn sum(v: &Vec<u64>) -> (t: u64)
    requires
        sum_of(v@) <= u64::MAX,
    ensures
        t == sum_of(v@),
{
    let mut t: u64 = 0;
    let mut k: usize = 0;
    assert(v@.take(0) =~= Seq::empty());
    while k < v.len()
        invariant
            k <= v@.len(),
            sum_of(v@) <= u64::MAX,
            t == sum_of(v@.take(k as int)),
        decreases v@.len() - k,
    {
        proof {
            lemma_sum_grows(v@, k + 1);
            assert(v@.take(k + 1).drop_last() =~= v@.take(k as int));
        }
        t = t + v[k];
        k = k + 1;
    }
    assert(v@.take(v@.len() as int) =~= v@);
    t
}

/// The main-memory cost of a tile's items: the attributes and indices of its
/// meshes, and its points and splats. Textures are not counted: they live with
/// the renderer.
pub fn resident_cost_bytes(items: &Vec<ItemSize>) -> (total: u64)
    requires
        cost_of(items@) <= u64::MAX,
    ensures
        total == cost_of(items@),
{
    let mut total: u64 = 0;
    let mut k: usize = 0;
    assert(items@.take(0) =~= Seq::empty());
    while k < items.len()
        invariant
            k <= items@.len(),
            cost_of(items@) <= u64::MAX,
            total == cost_of(items@.take(k as int)),
        decreases items@.len() - k,
    {
        proof {
            lemma_cost_grows(items@, k + 1);
            assert(items@.take(k + 1).drop_last() =~= items@.take(k as int));
        }
        let cost: u64 = match &items[k] {
            ItemSize::Mesh { attributes, indices } => {
                let base: u64 = sum(attributes);
                match indices {
                    IndexSize::Absent => base,
                    IndexSize::U16(n) => base + 2 * *n,
                    IndexSize::U32(n) => base + 4 * *n,
                }
            },
            ItemSize::Records { count, size } => *count * *size,
        };
        total = total + cost;
        k = k + 1;
    }
    assert(items@.take(items@.len() as int) =~= items@);
    total
}

} // verus!
