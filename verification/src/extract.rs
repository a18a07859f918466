//! Extracting the geometry of a tile from its parsed document.
//!
//! Extraction is narrow on purpose: what it cannot hand over exactly as a glTF
//! reader would, it declines, and what a glTF reader would refuse, it never
//! guesses.
use crate::bytes::{le16, le32, le_at};
use crate::decode::{DecodeError, DecodeStage};
use crate::glb::opt_bytes;
use crate::gltf::{
    accessor_of, buffer_view, first_outside, nth64, or_zero, read_accessor, rows, slice_of, sliced,
    unwrap_or_zero, Component, Message,
};
use crate::json::{down, number_clone, opt_array, opt_str, opt_tree, opt_u64, trees, Json, Tree};
use crate::rewrite::number_in;
use crate::text;
use crate::text::decimal_chars;
use vstd::prelude::*;

verus! {

/// The deepest node that is walked; a deeper one declines the tile.
pub const MAX_NODE_DEPTH: usize = 256;

/// An optional index.
pub enum Index {
    Absent,
    At(u64),
    /// Present, and no unsigned integer.
    Bad,
}

/// The optional index that `t` is.
pub open spec fn index_in(t: Tree) -> Index {
    match t {
        Tree::Null => Index::Absent,
        _ => match t.as_u64() {
            Some(v) => Index::At(v),
            None => Index::Bad,
        },
    }
}

fn opt_index(j: Option<&Json>) -> (r: Index)
    ensures
        r == index_in(opt_tree(j)),
{
    match j {
        None => Index::Absent,
        Some(Json::Null) => Index::Absent,
        Some(j) => match j.as_u64() {
            Some(v) => Index::At(v),
            None => Index::Bad,
        },
    }
}

/// The factors and flags of a material. A factor that is absent is the default
/// of glTF: white, fully metallic, fully rough.
#[derive(Debug)]
pub struct ExtractedMaterial {
    /// Four numbers.
    pub base_color: Option<Vec<serde_json::Number>>,
    pub metallic: Option<serde_json::Number>,
    pub roughness: Option<serde_json::Number>,
    pub double_sided: bool,
    pub unlit: bool,
}

/// [`ExtractedMaterial`] as a mathematical value.
pub struct Material {
    pub base_color: Option<Seq<serde_json::Number>>,
    pub metallic: Option<serde_json::Number>,
    pub roughness: Option<serde_json::Number>,
    pub double_sided: bool,
    pub unlit: bool,
}

/// The numbers of an optional list.
pub open spec fn opt_numbers(v: Option<Vec<serde_json::Number>>) -> Option<Seq<serde_json::Number>> {
    match v {
        Some(v) => Some(v@),
        None => None,
    }
}

impl View for ExtractedMaterial {
    type V = Material;

    open spec fn view(&self) -> Material {
        Material {
            base_color: opt_numbers(self.base_color),
            metallic: self.metallic,
            roughness: self.roughness,
            double_sided: self.double_sided,
            unlit: self.unlit,
        }
    }
}

impl Default for ExtractedMaterial {
    fn default() -> (r: Self)
        ensures
            r@ == (Material {
                base_color: None,
                metallic: None,
                roughness: None,
                double_sided: false,
                unlit: false,
            }),
    {
        ExtractedMaterial {
            base_color: None,
            metallic: None,
            roughness: None,
            double_sided: false,
            unlit: false,
        }
    }
}

/// The numbers among items, in order.
pub open spec fn numbers_in(items: Seq<Tree>) -> Seq<serde_json::Number>
    decreases items.len(),
{
    if items.len() == 0 {
        Seq::empty()
    } else {
        match number_in(items.last()) {
            Some(n) => numbers_in(items.drop_last()).push(n),
            None => numbers_in(items.drop_last()),
        }
    }
}

/// An optional number: absent, there, or present and no number.
pub open spec fn factor_in(t: Tree) -> Option<Option<serde_json::Number>> {
    match t {
        Tree::Null => Some(None),
        Tree::Number(n) => Some(Some(n)),
        _ => None,
    }
}

/// A material, where its factors are sound.
pub open spec fn material_in(m: Tree) -> Option<Material> {
    let pbr = m.at("pbrMetallicRoughness"@);
    let color = pbr.at("baseColorFactor"@);
    match (factor_in(pbr.at("metallicFactor"@)), factor_in(pbr.at("roughnessFactor"@))) {
        (Some(metallic), Some(roughness)) => if color is Array && numbers_in(
            color->Array_0,
        ).len() != 4 {
            None
        } else {
            Some(
                Material {
                    base_color: if color is Array {
                        Some(numbers_in(color->Array_0))
                    } else {
                        None
                    },
                    metallic,
                    roughness,
                    double_sided: m.at("doubleSided"@).as_bool() == Some(true),
                    unlit: !(m.at("extensions"@).at("KHR_materials_unlit"@) is Null),
                },
            )
        },
        _ => None,
    }
}

/// The first `k` materials, where they are sound.
pub open spec fn materials_in(items: Seq<Tree>, k: int) -> Option<Seq<Material>>
    decreases k,
{
    if k <= 0 {
        Some(Seq::empty())
    } else {
        match (materials_in(items, k - 1), material_in(items[k - 1])) {
            (Some(rest), Some(m)) => Some(rest.push(m)),
            _ => None,
        }
    }
}

/// The materials of a document, where they are sound.
pub open spec fn materials_of(t: Tree) -> Option<Seq<Material>> {
    match t.at("materials"@) {
        Tree::Null => Some(Seq::empty()),
        Tree::Array(items) => materials_in(items, items.len() as int),
        _ => None,
    }
}

/// The materials of a list.
pub open spec fn materials_view(v: Seq<ExtractedMaterial>) -> Seq<Material> {
    Seq::new(v.len(), |i: int| v[i]@)
}

pub(crate) fn numbers(items: &Vec<Json>) -> (out: Vec<serde_json::Number>)
    ensures
        out@ == numbers_in(trees(items@)),
{
    let ghost all = trees(items@);
    let mut out: Vec<serde_json::Number> = Vec::new();
    let mut i: usize = 0;
    assert(out@ =~= numbers_in(all.take(0)));
    while i < items.len()
        invariant
            i <= items@.len(),
            all == trees(items@),
            out@ == numbers_in(all.take(i as int)),
        decreases items@.len() - i,
    {
        if let Json::Number(n) = &items[i] {
            out.push(number_clone(n));
        }
        i = i + 1;
        assert(all.take(i as int).drop_last() =~= all.take(i - 1));
        assert(all.take(i as int).last() == all[i - 1]);
    }
    assert(all.take(i as int) =~= all);
    out
}

fn factor(j: Option<&Json>) -> (r: Option<Option<serde_json::Number>>)
    ensures
        r == factor_in(opt_tree(j)),
{
    match j {
        None => Some(None),
        Some(Json::Null) => Some(None),
        Some(Json::Number(n)) => Some(Some(number_clone(n))),
        _ => None,
    }
}

fn is_true(j: Option<&Json>) -> (r: bool)
    ensures
        r == (opt_tree(j).as_bool() == Some(true)),
{
    match j {
        Some(Json::Bool(b)) => *b,
        _ => false,
    }
}

fn is_null(j: Option<&Json>) -> (r: bool)
    ensures
        r == (opt_tree(j) is Null),
{
    match j {
        None => true,
        Some(Json::Null) => true,
        _ => false,
    }
}

fn extract_material(m: &Json) -> (r: Option<ExtractedMaterial>)
    ensures
        match material_in(m@) {
            Some(w) => r matches Some(x) && x@ == w,
            None => r is None,
        },
{
    let pbr = m.get("pbrMetallicRoughness");
    let double_sided = is_true(m.get("doubleSided"));
    let unlit = !is_null(down(m.get("extensions"), "KHR_materials_unlit"));
    let base_color = match opt_array(down(pbr, "baseColorFactor")) {
        Some(items) => {
            let v = numbers(items);
            if v.len() != 4 {
                return None;
            }
            Some(v)
        },
        None => None,
    };
    let metallic = match factor(down(pbr, "metallicFactor")) {
        Some(f) => f,
        None => {
            return None;
        },
    };
    let roughness = match factor(down(pbr, "roughnessFactor")) {
        Some(f) => f,
        None => {
            return None;
        },
    };
    Some(ExtractedMaterial { base_color, metallic, roughness, double_sided, unlit })
}

proof fn lemma_unsound(items: Seq<Tree>, k: int, n: int)
    requires
        0 <= k <= n,
        materials_in(items, k) is None,
    ensures
        materials_in(items, n) is None,
    decreases n - k,
{
    if k < n {
        lemma_unsound(items, k + 1, n);
    }
}

/// Every material of the document; none where one of them is not sound.
pub fn extract_materials(json: &Json) -> (r: Option<Vec<ExtractedMaterial>>)
    ensures
        match materials_of(json@) {
            Some(w) => r matches Some(v) && materials_view(v@) == w,
            None => r is None,
        },
{
    let mut out: Vec<ExtractedMaterial> = Vec::new();
    assert(materials_view(out@) =~= Seq::<Material>::empty());
    let found = json.get("materials");
    let items = match opt_array(found) {
        Some(v) => v,
        None => {
            if is_null(found) {
                return Some(out);
            }
            return None;
        },
    };
    let ghost all = trees(items@);
    let mut i: usize = 0;
    while i < items.len()
        invariant
            i <= items@.len(),
            all == trees(items@),
            json@.at("materials"@) == Tree::Array(all),
            materials_in(all, i as int) == Some(materials_view(out@)),
        decreases items@.len() - i,
    {
        match extract_material(&items[i]) {
            Some(m) => {
                let ghost before = materials_view(out@);
                out.push(m);
                assert(materials_view(out@) =~= before.push(m@));
            },
            None => {
                proof {
                    lemma_unsound(all, i + 1, all.len() as int);
                }
                return None;
            },
        }
        i = i + 1;
    }
    Some(out)
}

/// The placement of a node in its parent.
#[derive(Debug)]
pub enum LocalTransform {
    /// Sixteen numbers, column by column.
    Matrix(Vec<serde_json::Number>),
    /// What is absent moves, turns or scales nothing.
    Trs {
        translation: Option<Vec<serde_json::Number>>,
        rotation: Option<Vec<serde_json::Number>>,
        scale: Option<Vec<serde_json::Number>>,
    },
}

/// [`LocalTransform`] as a mathematical value.
pub enum Local {
    Matrix(Seq<serde_json::Number>),
    Trs {
        translation: Option<Seq<serde_json::Number>>,
        rotation: Option<Seq<serde_json::Number>>,
        scale: Option<Seq<serde_json::Number>>,
    },
}

impl View for LocalTransform {
    type V = Local;

    open spec fn view(&self) -> Local {
        match *self {
            LocalTransform::Matrix(v) => Local::Matrix(v@),
            LocalTransform::Trs { translation, rotation, scale } => Local::Trs {
                translation: opt_numbers(translation),
                rotation: opt_numbers(rotation),
                scale: opt_numbers(scale),
            },
        }
    }
}

/// The placements along a chain of nodes.
pub open spec fn chain_view(v: Seq<LocalTransform>) -> Seq<Local> {
    Seq::new(v.len(), |i: int| v[i]@)
}

/// A list of `n` numbers, where `t` is one: absent, there, or unsound.
pub open spec fn floats_in(t: Tree, n: int) -> Option<Option<Seq<serde_json::Number>>> {
    match t {
        Tree::Null => Some(None),
        Tree::Array(items) => if items.len() == n && numbers_in(items).len() == n {
            Some(Some(numbers_in(items)))
        } else {
            None
        },
        _ => None,
    }
}

/// The placement of a node, where it is sound.
pub open spec fn local_of(node: Tree) -> Option<Local> {
    match node.at("matrix"@) {
        Tree::Null => match (
            floats_in(node.at("translation"@), 3),
            floats_in(node.at("rotation"@), 4),
            floats_in(node.at("scale"@), 3),
        ) {
            (Some(translation), Some(rotation), Some(scale)) => Some(
                Local::Trs { translation, rotation, scale },
            ),
            _ => None,
        },
        m => match floats_in(m, 16) {
            Some(Some(v)) => Some(Local::Matrix(v)),
            _ => None,
        },
    }
}

fn read_floats(j: Option<&Json>, n: usize) -> (r: Option<Option<Vec<serde_json::Number>>>)
    ensures
        match floats_in(opt_tree(j), n as int) {
            Some(w) => r matches Some(v) && opt_numbers(v) == w,
            None => r is None,
        },
{
    match opt_array(j) {
        Some(items) => {
            let v = numbers(items);
            if items.len() == n && v.len() == n {
                Some(Some(v))
            } else {
                None
            }
        },
        None => if is_null(j) {
            Some(None)
        } else {
            None
        },
    }
}

/// The placement of a node in its parent; none where it is not sound.
pub fn node_matrix(node: &Json) -> (r: Option<LocalTransform>)
    ensures
        match local_of(node@) {
            Some(w) => r matches Some(l) && l@ == w,
            None => r is None,
        },
{
    let m = node.get("matrix");
    if !is_null(m) {
        return match read_floats(m, 16) {
            Some(Some(v)) => Some(LocalTransform::Matrix(v)),
            _ => None,
        };
    }
    let translation = match read_floats(node.get("translation"), 3) {
        Some(v) => v,
        None => {
            return None;
        },
    };
    let rotation = match read_floats(node.get("rotation"), 4) {
        Some(v) => v,
        None => {
            return None;
        },
    };
    let scale = match read_floats(node.get("scale"), 3) {
        Some(v) => v,
        None => {
            return None;
        },
    };
    Some(LocalTransform::Trs { translation, rotation, scale })
}

/// What a step comes to that may also decline the tile.
pub type Tried<T> = Result<Option<T>, Message>;

/// The elements of a float attribute of `n` components; declined where the
/// accessor is sparse, holds anything but floats, or is no `dims`.
pub open spec fn float_attr(t: Tree, bin: Option<Seq<u8>>, ix: int, n: int, dims: Seq<char>) -> Tried<
    Seq<Seq<Component>>,
> {
    let acc = t.at("accessors"@).item(ix);
    if acc.at("componentType"@).as_u64() != Some(5126u64) || acc.at("type"@).as_str() != Some(dims)
        || !(acc.at("sparse"@) is Null) {
        Ok(None)
    } else {
        match accessor_of(t, bin, ix, n) {
            Ok(rows) => Ok(Some(rows)),
            Err(e) => Err(e),
        }
    }
}

/// An optional float attribute.
pub open spec fn optional_attr(t: Tree, bin: Option<Seq<u8>>, attr: Tree, n: int, dims: Seq<char>) -> Tried<
    Option<Seq<Seq<Component>>>,
> {
    match index_in(attr) {
        Index::Absent => Ok(Some(None)),
        Index::Bad => Ok(None),
        Index::At(ix) => match float_attr(t, bin, ix as int, n, dims) {
            Ok(Some(rows)) => Ok(Some(Some(rows))),
            Ok(None) => Ok(None),
            Err(e) => Err(e),
        },
    }
}

/// The rows of a step.
pub open spec fn tried_rows(r: Result<Option<Vec<Vec<Component>>>, String>) -> Tried<
    Seq<Seq<Component>>,
> {
    match r {
        Ok(Some(v)) => Ok(Some(rows(v@))),
        Ok(None) => Ok(None),
        Err(e) => Err(e@),
    }
}

/// The rows of an optional list.
pub open spec fn opt_rows(v: Option<Vec<Vec<Component>>>) -> Option<Seq<Seq<Component>>> {
    match v {
        Some(v) => Some(rows(v@)),
        None => None,
    }
}

/// The optional rows of a step.
pub open spec fn tried_opt_rows(r: Result<Option<Option<Vec<Vec<Component>>>>, String>) -> Tried<
    Option<Seq<Seq<Component>>>,
> {
    match r {
        Ok(Some(v)) => Ok(Some(opt_rows(v))),
        Ok(None) => Ok(None),
        Err(e) => Err(e@),
    }
}

fn float_attribute(json: &Json, bin: Option<&[u8]>, ix: u64, n: usize, dims: &str) -> (r: Result<
    Option<Vec<Vec<Component>>>,
    String,
>)
    requires
        1 <= n <= 4,
    ensures
        tried_rows(r) == float_attr(json@, opt_bytes(bin), ix as int, n as int, dims@),
{
    let acc = nth64(json.get("accessors"), ix);
    let float = match opt_u64(down(acc, "componentType")) {
        Some(v) => v == 5126,
        None => false,
    };
    let shaped = match opt_str(down(acc, "type")) {
        Some(s) => text::same(s.as_str(), dims),
        None => false,
    };
    if !float || !shaped || !is_null(down(acc, "sparse")) {
        return Ok(None);
    }
    match read_accessor(json, bin, ix, n) {
        Ok(v) => Ok(Some(v)),
        Err(e) => Err(e),
    }
}

fn optional_float(json: &Json, bin: Option<&[u8]>, attr: Option<&Json>, n: usize, dims: &str) -> (r: Result<
    Option<Option<Vec<Vec<Component>>>>,
    String,
>)
    requires
        1 <= n <= 4,
    ensures
        tried_opt_rows(r) == optional_attr(
            json@,
            opt_bytes(bin),
            opt_tree(attr),
            n as int,
            dims@,
        ),
{
    match opt_index(attr) {
        Index::Absent => Ok(Some(None)),
        Index::Bad => Ok(None),
        Index::At(ix) => match float_attribute(json, bin, ix, n, dims) {
            Ok(Some(v)) => Ok(Some(Some(v))),
            Ok(None) => Ok(None),
            Err(e) => Err(e),
        },
    }
}

/// The width of an index of glTF type `code`.
pub open spec fn index_width(code: Option<u64>) -> Option<int> {
    if code == Some(5121u64) {
        Some(1)
    } else if code == Some(5123u64) {
        Some(2)
    } else if code == Some(5125u64) {
        Some(4)
    } else {
        None
    }
}

/// The indices of an accessor, widened to 32 bits.
pub open spec fn indices_of(t: Tree, bin: Option<Seq<u8>>, ix: int) -> Tried<Seq<u32>> {
    let acc = t.at("accessors"@).item(ix);
    let offset = or_zero(acc.at("byteOffset"@).as_u64()) as int;
    match index_width(acc.at("componentType"@).as_u64()) {
        None => Ok(None),
        Some(width) => if acc.at("type"@).as_str() != Some("SCALAR"@) || !(acc.at("sparse"@) is Null) {
            Ok(None)
        } else {
            match (acc.at("count"@).as_u64(), acc.at("bufferView"@).as_u64()) {
                (None, _) => Err("index accessor without count"@),
                (_, None) => Err("index accessor without bufferView"@),
                (Some(count), Some(view_ix)) => {
                    let bv = buffer_view(t, view_ix as int);
                    if bv.at("buffer"@).as_u64() != Some(0u64) {
                        Err("index bufferView must reference buffer 0 (BIN chunk)"@)
                    } else if bin is None {
                        Err("index accessor references the BIN chunk but the GLB has none"@)
                    } else if bv.at("byteLength"@).as_u64() is None {
                        Err("index bufferView without byteLength"@)
                    } else {
                        match sliced(
                            bin->0,
                            or_zero(bv.at("byteOffset"@).as_u64()),
                            bv.at("byteLength"@).as_u64()->0,
                        ) {
                            None => Err("index bufferView out of BIN bounds"@),
                            Some(view) => {
                                let stride = match bv.at("byteStride"@).as_u64() {
                                    Some(s) => s as int,
                                    None => width,
                                };
                                match first_outside(
                                    view.len(),
                                    offset,
                                    stride,
                                    width,
                                    count as int,
                                    0,
                                ) {
                                    Some(i) => Err(
                                        "index accessor "@ + decimal_chars(ix as nat)
                                            + " element "@ + decimal_chars(i as nat)
                                            + " out of bounds"@,
                                    ),
                                    None => Ok(
                                        Some(
                                            Seq::new(
                                                count as nat,
                                                |i: int|
                                                    le_at(view, offset + i * stride, width) as u32,
                                            ),
                                        ),
                                    ),
                                }
                            },
                        }
                    }
                },
            }
        },
    }
}

/// The indices of a step.
pub open spec fn tried_indices(r: Result<Option<Vec<u32>>, String>) -> Tried<Seq<u32>> {
    match r {
        Ok(Some(v)) => Ok(Some(v@)),
        Ok(None) => Ok(None),
        Err(e) => Err(e@),
    }
}

fn index_elements(view: &[u8], offset: u64, stride: u64, count: u64, width: usize) -> (r: Result<
    Vec<u32>,
    u64,
>)
    requires
        width == 1 || width == 2 || width == 4,
    ensures
        ({
            let bad = first_outside(
                view@.len(),
                offset as int,
                stride as int,
                width as int,
                count as int,
                0,
            );
            match r {
                Ok(v) => bad is None && v@ == Seq::new(
                    count as nat,
                    |i: int| le_at(view@, offset + i * stride, width as int) as u32,
                ),
                Err(i) => bad == Some(i as int),
            }
        }),
{
    let len: usize = view.len();
    let mut out: Vec<u32> = Vec::new();
    let mut i: u64 = 0;
    let mut base: u128 = offset as u128;
    assert(0 * stride == 0);
    while i < count
        invariant
            i <= count,
            width == 1 || width == 2 || width == 4,
            len == view@.len(),
            base == offset + i * stride,
            base <= len + stride || base == offset,
            out@.len() == i,
            first_outside(
                view@.len(),
                offset as int,
                stride as int,
                width as int,
                count as int,
                0,
            ) == first_outside(
                view@.len(),
                offset as int,
                stride as int,
                width as int,
                count as int,
                i as int,
            ),
            forall|k: int|
                0 <= k < i ==> #[trigger] out@[k] == le_at(
                    view@,
                    offset + k * stride,
                    width as int,
                ) as u32,
        decreases count - i,
    {
        if base + width as u128 > len as u128 {
            return Err(i);
        }
        let at: usize = base as usize;
        let v: u32 = if width == 1 {
            crate::bytes::read_le(view, at, 1) as u32
        } else if width == 2 {
            le16(view, at) as u32
        } else {
            le32(view, at)
        };
        out.push(v);
        assert((i + 1) * stride == i * stride + stride) by (nonlinear_arith);
        base = base + stride as u128;
        i = i + 1;
    }
    assert(out@ =~= Seq::new(
        count as nat,
        |i: int| le_at(view@, offset + i * stride, width as int) as u32,
    ));
    Ok(out)
}

/// Reads an index accessor, widened to 32 bits; declined where it is sparse or
/// holds anything but unsigned integers.
pub fn read_indices(json: &Json, bin: Option<&[u8]>, acc_ix: u64) -> (r: Result<
    Option<Vec<u32>>,
    String,
>)
    ensures
        tried_indices(r) == indices_of(json@, opt_bytes(bin), acc_ix as int),
{
    let acc = nth64(json.get("accessors"), acc_ix);
    let scalar = match opt_str(down(acc, "type")) {
        Some(s) => text::same(s.as_str(), "SCALAR"),
        None => false,
    };
    if !scalar || !is_null(down(acc, "sparse")) {
        return Ok(None);
    }
    let width: usize = match opt_u64(down(acc, "componentType")) {
        Some(5121) => 1,
        Some(5123) => 2,
        Some(5125) => 4,
        _ => {
            return Ok(None);
        },
    };
    let count: u64 = match opt_u64(down(acc, "count")) {
        Some(v) => v,
        None => {
            return Err(String::from_str("index accessor without count"));
        },
    };
    let view_ix: u64 = match opt_u64(down(acc, "bufferView")) {
        Some(v) => v,
        None => {
            return Err(String::from_str("index accessor without bufferView"));
        },
    };
    let bv = nth64(json.get("bufferViews"), view_ix);
    let in_bin = match opt_u64(down(bv, "buffer")) {
        Some(v) => v == 0,
        None => false,
    };
    if !in_bin {
        return Err(String::from_str("index bufferView must reference buffer 0 (BIN chunk)"));
    }
    let chunk = match bin {
        Some(b) => b,
        None => {
            return Err(
                String::from_str("index accessor references the BIN chunk but the GLB has none"),
            );
        },
    };
    let view_offset: u64 = unwrap_or_zero(opt_u64(down(bv, "byteOffset")));
    let view_len: u64 = match opt_u64(down(bv, "byteLength")) {
        Some(v) => v,
        None => {
            return Err(String::from_str("index bufferView without byteLength"));
        },
    };
    let stride: u64 = match opt_u64(down(bv, "byteStride")) {
        Some(v) => v,
        None => width as u64,
    };
    let offset: u64 = unwrap_or_zero(opt_u64(down(acc, "byteOffset")));
    let view = match slice_of(chunk, view_offset, view_len) {
        Some(v) => v,
        None => {
            return Err(String::from_str("index bufferView out of BIN bounds"));
        },
    };
    match index_elements(view, offset, stride, count, width) {
        Ok(v) => Ok(Some(v)),
        Err(i) => {
            let mut m = text::join3(
                "index accessor ",
                text::decimal(acc_ix).as_str(),
                " element ",
            );
            m.append(text::decimal(i).as_str());
            m.append(" out of bounds");
            Err(m)
        },
    }
}

/// One primitive of triangles, flattened out of the node graph.
#[derive(Debug)]
pub struct ExtractedPrimitive {
    /// The placements of the nodes from the root to the primitive's node.
    pub transform: Vec<LocalTransform>,
    pub mesh_ix: u64,
    pub prim_ix: u64,
    /// The material, where it is not the default.
    pub material: Option<u64>,
    pub positions: Vec<Vec<Component>>,
    pub normals: Option<Vec<Vec<Component>>>,
    pub uvs: Option<Vec<Vec<Component>>>,
    pub colors: Option<Vec<Vec<Component>>>,
    pub indices: Option<Vec<u32>>,
}

/// [`ExtractedPrimitive`] as a mathematical value.
pub struct Primitive {
    pub transform: Seq<Local>,
    pub mesh_ix: u64,
    pub prim_ix: u64,
    pub material: Option<u64>,
    pub positions: Seq<Seq<Component>>,
    pub normals: Option<Seq<Seq<Component>>>,
    pub uvs: Option<Seq<Seq<Component>>>,
    pub colors: Option<Seq<Seq<Component>>>,
    pub indices: Option<Seq<u32>>,
}

/// The indices of an optional list.
pub open spec fn opt_indices(v: Option<Vec<u32>>) -> Option<Seq<u32>> {
    match v {
        Some(v) => Some(v@),
        None => None,
    }
}

impl View for ExtractedPrimitive {
    type V = Primitive;

    open spec fn view(&self) -> Primitive {
        Primitive {
            transform: chain_view(self.transform@),
            mesh_ix: self.mesh_ix,
            prim_ix: self.prim_ix,
            material: self.material,
            positions: rows(self.positions@),
            normals: opt_rows(self.normals),
            uvs: opt_rows(self.uvs),
            colors: opt_rows(self.colors),
            indices: opt_indices(self.indices),
        }
    }
}

/// The primitives of a list.
pub open spec fn prims_view(v: Seq<ExtractedPrimitive>) -> Seq<Primitive> {
    Seq::new(v.len(), |i: int| v[i]@)
}

/// The optional indices of a primitive.
pub open spec fn prim_indices(t: Tree, bin: Option<Seq<u8>>, prim: Tree) -> Tried<
    Option<Seq<u32>>,
> {
    match index_in(prim.at("indices"@)) {
        Index::Absent => Ok(Some(None)),
        Index::Bad => Ok(None),
        Index::At(ix) => match indices_of(t, bin, ix as int) {
            Ok(Some(v)) => Ok(Some(Some(v))),
            Ok(None) => Ok(None),
            Err(e) => Err(e),
        },
    }
}

/// The optional material of a primitive.
pub open spec fn prim_material(prim: Tree) -> Option<Option<u64>> {
    match index_in(prim.at("material"@)) {
        Index::Absent => Some(None),
        Index::At(ix) => Some(Some(ix)),
        Index::Bad => None,
    }
}

/// A primitive whose geometry is read in order: positions, normals, texture
/// coordinates, colors, indices. The first that is declined or fails decides.
pub open spec fn prim_of(t: Tree, bin: Option<Seq<u8>>, prim: Tree, chain: Seq<Local>, mesh_ix: u64, prim_ix: u64) -> Tried<
    Primitive,
> {
    let attrs = prim.at("attributes"@);
    match attrs.at("POSITION"@).as_u64() {
        None => Ok(None),
        Some(ix) => match float_attr(t, bin, ix as int, 3, "VEC3"@) {
            Err(e) => Err(e),
            Ok(None) => Ok(None),
            Ok(Some(positions)) => match optional_attr(t, bin, attrs.at("NORMAL"@), 3, "VEC3"@) {
                Err(e) => Err(e),
                Ok(None) => Ok(None),
                Ok(Some(normals)) => match optional_attr(
                    t,
                    bin,
                    attrs.at("TEXCOORD_0"@),
                    2,
                    "VEC2"@,
                ) {
                    Err(e) => Err(e),
                    Ok(None) => Ok(None),
                    Ok(Some(uvs)) => match optional_attr(
                        t,
                        bin,
                        attrs.at("COLOR_0"@),
                        4,
                        "VEC4"@,
                    ) {
                        Err(e) => Err(e),
                        Ok(None) => Ok(None),
                        Ok(Some(colors)) => match prim_indices(t, bin, prim) {
                            Err(e) => Err(e),
                            Ok(None) => Ok(None),
                            Ok(Some(indices)) => match prim_material(prim) {
                                None => Ok(None),
                                Some(material) => Ok(
                                    Some(
                                        Primitive {
                                            transform: chain,
                                            mesh_ix,
                                            prim_ix,
                                            material,
                                            positions,
                                            normals,
                                            uvs,
                                            colors,
                                            indices,
                                        },
                                    ),
                                ),
                            },
                        },
                    },
                },
            },
        },
    }
}

/// A primitive is made of triangles: its mode is that, or absent.
pub open spec fn triangles(prim: Tree) -> bool {
    match index_in(prim.at("mode"@)) {
        Index::Absent => true,
        Index::At(v) => v == 4,
        Index::Bad => false,
    }
}

/// The first `k` primitives of a mesh.
pub open spec fn mesh_prims(t: Tree, bin: Option<Seq<u8>>, prims: Seq<Tree>, k: int, chain: Seq<Local>, mesh_ix: u64) -> Tried<
    Seq<Primitive>,
>
    decreases k,
{
    if k <= 0 {
        Ok(Some(Seq::empty()))
    } else {
        match mesh_prims(t, bin, prims, k - 1, chain, mesh_ix) {
            Err(e) => Err(e),
            Ok(None) => Ok(None),
            Ok(Some(rest)) => if !triangles(prims[k - 1]) {
                Ok(None)
            } else {
                match prim_of(t, bin, prims[k - 1], chain, mesh_ix, (k - 1) as u64) {
                    Err(e) => Err(e),
                    Ok(None) => Ok(None),
                    Ok(Some(p)) => Ok(Some(rest.push(p))),
                }
            },
        }
    }
}

/// The primitives of a node itself.
pub open spec fn own_prims(t: Tree, bin: Option<Seq<u8>>, node: Tree, chain: Seq<Local>) -> Tried<
    Seq<Primitive>,
> {
    match index_in(node.at("mesh"@)) {
        Index::Absent => Ok(Some(Seq::empty())),
        Index::Bad => Ok(None),
        Index::At(ix) => match t.at("meshes"@).item(ix as int).at("primitives"@) {
            Tree::Array(prims) => mesh_prims(t, bin, prims, prims.len() as int, chain, ix),
            _ => Ok(None),
        },
    }
}

/// Two runs of primitives, one after the other; the first that is declined or
/// fails decides.
pub open spec fn followed(a: Tried<Seq<Primitive>>, b: Tried<Seq<Primitive>>) -> Tried<
    Seq<Primitive>,
> {
    match a {
        Err(e) => Err(e),
        Ok(None) => Ok(None),
        Ok(Some(x)) => match b {
            Err(e) => Err(e),
            Ok(None) => Ok(None),
            Ok(Some(y)) => Ok(Some(x + y)),
        },
    }
}

/// The primitives under node `ix`: its own, then those of its children.
pub open spec fn node_prims(t: Tree, bin: Option<Seq<u8>>, ix: int, chain: Seq<Local>, depth: int) -> Tried<
    Seq<Primitive>,
>
    decreases MAX_NODE_DEPTH + 1 - depth, 0int, 0int,
{
    let node = t.at("nodes"@).item(ix);
    if depth > MAX_NODE_DEPTH || node is Null {
        Ok(None)
    } else {
        match local_of(node) {
            None => Ok(None),
            Some(local) => {
                let down = chain.push(local);
                followed(
                    own_prims(t, bin, node, down),
                    match node.at("children"@) {
                        Tree::Null => Ok(Some(Seq::empty())),
                        Tree::Array(children) => child_prims(
                            t,
                            bin,
                            children,
                            children.len() as int,
                            down,
                            depth + 1,
                        ),
                        _ => Ok(None),
                    },
                )
            },
        }
    }
}

/// The primitives under the first `k` of the nodes that `children` names.
pub open spec fn child_prims(t: Tree, bin: Option<Seq<u8>>, children: Seq<Tree>, k: int, chain: Seq<Local>, depth: int) -> Tried<
    Seq<Primitive>,
>
    decreases MAX_NODE_DEPTH + 1 - depth, 1int, k,
{
    if k <= 0 {
        Ok(Some(Seq::empty()))
    } else {
        followed(
            child_prims(t, bin, children, k - 1, chain, depth),
            match children[k - 1].as_u64() {
                None => Ok(None),
                Some(ix) => node_prims(t, bin, ix as int, chain, depth),
            },
        )
    }
}

/// The geometry of a tile as a mathematical value: its primitives and its
/// materials.
pub struct Meshes {
    pub primitives: Seq<Primitive>,
    pub materials: Seq<Material>,
}

/// An array with something in it.
pub open spec fn non_empty(t: Tree) -> bool {
    t.items().len() > 0
}

/// The roots of the default scene: none where the document has nothing to draw,
/// declined where a glTF reader would refuse it.
pub open spec fn scene_roots(t: Tree) -> Option<Seq<Tree>> {
    match index_in(t.at("scene"@)) {
        Index::Bad => None,
        scene => match t.at("scenes"@) {
            Tree::Array(scenes) => {
                let i = match scene {
                    Index::At(v) => v as int,
                    _ => 0,
                };
                if i >= scenes.len() {
                    if scene is Absent {
                        Some(Seq::empty())
                    } else {
                        None
                    }
                } else {
                    scenes[i].at("nodes"@).as_array()
                }
            },
            Tree::Null => if scene is Absent {
                Some(Seq::empty())
            } else {
                None
            },
            _ => None,
        },
    }
}

/// Every material that a primitive names is there.
pub open spec fn materials_exist(prims: Seq<Primitive>, n: nat) -> bool {
    forall|i: int|
        0 <= i < prims.len() ==> ((#[trigger] prims[i]).material matches Some(m) ==> m < n)
}

/// The geometry of a document.
pub open spec fn meshes_of(t: Tree, bin: Option<Seq<u8>>) -> Tried<Meshes> {
    if non_empty(t.at("images"@)) || non_empty(t.at("textures"@)) || non_empty(
        t.at("extensionsRequired"@),
    ) {
        Ok(None)
    } else {
        match (materials_of(t), scene_roots(t)) {
            (Some(materials), Some(roots)) => match child_prims(
                t,
                bin,
                roots,
                roots.len() as int,
                Seq::empty(),
                0,
            ) {
                Err(e) => Err(e),
                Ok(None) => Ok(None),
                Ok(Some(primitives)) => if materials_exist(primitives, materials.len()) {
                    Ok(Some(Meshes { primitives, materials }))
                } else {
                    Ok(None)
                },
            },
            _ => Ok(None),
        }
    }
}

fn copy_numbers(v: &Vec<serde_json::Number>) -> (r: Vec<serde_json::Number>)
    ensures
        r@ == v@,
{
    let mut out: Vec<serde_json::Number> = Vec::new();
    let mut i: usize = 0;
    while i < v.len()
        invariant
            i <= v@.len(),
            out@ == v@.take(i as int),
        decreases v@.len() - i,
    {
        out.push(number_clone(&v[i]));
        i = i + 1;
        assert(v@.take(i as int) =~= v@.take(i - 1).push(v@[i - 1]));
    }
    assert(v@.take(i as int) =~= v@);
    out
}

fn copy_opt_numbers(v: &Option<Vec<serde_json::Number>>) -> (r: Option<Vec<serde_json::Number>>)
    ensures
        opt_numbers(r) == opt_numbers(*v),
{
    match v {
        Some(v) => Some(copy_numbers(v)),
        None => None,
    }
}

fn copy_chain(v: &Vec<LocalTransform>) -> (r: Vec<LocalTransform>)
    ensures
        chain_view(r@) == chain_view(v@),
{
    let mut out: Vec<LocalTransform> = Vec::new();
    let mut i: usize = 0;
    while i < v.len()
        invariant
            i <= v@.len(),
            out@.len() == i,
            forall|k: int| 0 <= k < i ==> (#[trigger] out@[k])@ == v@[k]@,
        decreases v@.len() - i,
    {
        let one = match &v[i] {
            LocalTransform::Matrix(m) => LocalTransform::Matrix(copy_numbers(m)),
            LocalTransform::Trs { translation, rotation, scale } => LocalTransform::Trs {
                translation: copy_opt_numbers(translation),
                rotation: copy_opt_numbers(rotation),
                scale: copy_opt_numbers(scale),
            },
        };
        out.push(one);
        i = i + 1;
    }
    assert(chain_view(out@) =~= chain_view(v@));
    out
}

fn extract_primitive(
    json: &Json,
    bin: Option<&[u8]>,
    prim: &Json,
    chain: &Vec<LocalTransform>,
    mesh_ix: u64,
    prim_ix: u64,
) -> (r: Result<Option<ExtractedPrimitive>, String>)
    ensures
        match prim_of(
            json@,
            opt_bytes(bin),
            prim@,
            chain_view(chain@),
            mesh_ix,
            prim_ix,
        ) {
            Ok(Some(w)) => r matches Ok(Some(p)) && p@ == w,
            Ok(None) => r matches Ok(None),
            Err(m) => r matches Err(e) && e@ == m,
        },
{
    let attrs = prim.get("attributes");
    let pos_ix: u64 = match opt_u64(down(attrs, "POSITION")) {
        Some(v) => v,
        None => {
            return Ok(None);
        },
    };
    let positions = match float_attribute(json, bin, pos_ix, 3, "VEC3") {
        Ok(Some(v)) => v,
        Ok(None) => {
            return Ok(None);
        },
        Err(e) => {
            return Err(e);
        },
    };
    let normals = match optional_float(json, bin, down(attrs, "NORMAL"), 3, "VEC3") {
        Ok(Some(v)) => v,
        Ok(None) => {
            return Ok(None);
        },
        Err(e) => {
            return Err(e);
        },
    };
    let uvs = match optional_float(json, bin, down(attrs, "TEXCOORD_0"), 2, "VEC2") {
        Ok(Some(v)) => v,
        Ok(None) => {
            return Ok(None);
        },
        Err(e) => {
            return Err(e);
        },
    };
    let colors = match optional_float(json, bin, down(attrs, "COLOR_0"), 4, "VEC4") {
        Ok(Some(v)) => v,
        Ok(None) => {
            return Ok(None);
        },
        Err(e) => {
            return Err(e);
        },
    };
    let indices = match opt_index(prim.get("indices")) {
        Index::Absent => None,
        Index::Bad => {
            return Ok(None);
        },
        Index::At(ix) => match read_indices(json, bin, ix) {
            Ok(Some(v)) => Some(v),
            Ok(None) => {
                return Ok(None);
            },
            Err(e) => {
                return Err(e);
            },
        },
    };
    let material = match opt_index(prim.get("material")) {
        Index::Absent => None,
        Index::At(ix) => Some(ix),
        Index::Bad => {
            return Ok(None);
        },
    };
    Ok(
        Some(
            ExtractedPrimitive {
                transform: copy_chain(chain),
                mesh_ix,
                prim_ix,
                material,
                positions,
                normals,
                uvs,
                colors,
                indices,
            },
        ),
    )
}

/// What a walk added to the primitives it was given: nothing is said of them
/// where it was declined or failed.
pub open spec fn walked(want: Tried<Seq<Primitive>>, r: Result<bool, String>, before: Seq<Primitive>, after: Seq<Primitive>) -> bool {
    match want {
        Ok(Some(more)) => r matches Ok(done) && done && after == before + more,
        Ok(None) => r matches Ok(done) && !done,
        Err(m) => r matches Err(e) && e@ == m,
    }
}

proof fn lemma_prims_stop(t: Tree, bin: Option<Seq<u8>>, prims: Seq<Tree>, k: int, n: int, chain: Seq<Local>, mesh_ix: u64)
    requires
        0 <= k <= n,
        !(mesh_prims(t, bin, prims, k, chain, mesh_ix) matches Ok(Some(_))),
    ensures
        mesh_prims(t, bin, prims, n, chain, mesh_ix) == mesh_prims(
            t,
            bin,
            prims,
            k,
            chain,
            mesh_ix,
        ),
    decreases n - k,
{
    if k < n {
        assert(mesh_prims(t, bin, prims, k + 1, chain, mesh_ix) == mesh_prims(
            t,
            bin,
            prims,
            k,
            chain,
            mesh_ix,
        ));
        lemma_prims_stop(t, bin, prims, k + 1, n, chain, mesh_ix);
    }
}

proof fn lemma_children_stop(t: Tree, bin: Option<Seq<u8>>, children: Seq<Tree>, k: int, n: int, chain: Seq<Local>, depth: int)
    requires
        0 <= k <= n,
        !(child_prims(t, bin, children, k, chain, depth) matches Ok(Some(_))),
    ensures
        child_prims(t, bin, children, n, chain, depth) == child_prims(
            t,
            bin,
            children,
            k,
            chain,
            depth,
        ),
    decreases n - k,
{
    if k < n {
        assert(child_prims(t, bin, children, k + 1, chain, depth) == child_prims(
            t,
            bin,
            children,
            k,
            chain,
            depth,
        ));
        lemma_children_stop(t, bin, children, k + 1, n, chain, depth);
    }
}

fn extract_own(
    json: &Json,
    bin: Option<&[u8]>,
    node: &Json,
    chain: &Vec<LocalTransform>,
    out: &mut Vec<ExtractedPrimitive>,
) -> (r: Result<bool, String>)
    ensures
        walked(
            own_prims(json@, opt_bytes(bin), node@, chain_view(chain@)),
            r,
            prims_view(old(out)@),
            prims_view(final(out)@),
        ),
{
    let mesh_ix: u64 = match opt_index(node.get("mesh")) {
        Index::Absent => {
            assert(prims_view(out@) + Seq::<Primitive>::empty() =~= prims_view(out@));
            return Ok(true);
        },
        Index::Bad => {
            return Ok(false);
        },
        Index::At(ix) => ix,
    };
    let prims = match opt_array(down(nth64(json.get("meshes"), mesh_ix), "primitives")) {
        Some(v) => v,
        None => {
            return Ok(false);
        },
    };
    let ghost all = trees(prims@);
    let ghost n = all.len() as int;
    let ghost before = prims_view(out@);
    let ghost ch = chain_view(chain@);
    let ghost b = opt_bytes(bin);
    let mut k: usize = 0;
    assert(before + Seq::<Primitive>::empty() =~= before);
    while k < prims.len()
        invariant
            k <= prims@.len(),
            all == trees(prims@),
            n == all.len(),
            ch == chain_view(chain@),
            b == opt_bytes(bin),
            before == prims_view(old(out)@),
            own_prims(json@, b, node@, ch) == mesh_prims(json@, b, all, n, ch, mesh_ix),
            mesh_prims(json@, b, all, k as int, ch, mesh_ix) matches Ok(Some(more)) && prims_view(
                out@,
            ) == before + more,
        decreases prims@.len() - k,
    {
        let ghost more = mesh_prims(json@, b, all, k as int, ch, mesh_ix)->Ok_0->0;
        let flat = match opt_index(prims[k].get("mode")) {
            Index::Absent => true,
            Index::At(v) => v == 4,
            Index::Bad => false,
        };
        if !flat {
            proof {
                lemma_prims_stop(json@, b, all, k + 1, n, ch, mesh_ix);
            }
            return Ok(false);
        }
        match extract_primitive(json, bin, &prims[k], chain, mesh_ix, k as u64) {
            Ok(Some(p)) => {
                let ghost so_far = prims_view(out@);
                out.push(p);
                assert(prims_view(out@) =~= so_far.push(p@));
                assert(before + more.push(p@) =~= (before + more).push(p@));
            },
            Ok(None) => {
                proof {
                    lemma_prims_stop(json@, b, all, k + 1, n, ch, mesh_ix);
                }
                return Ok(false);
            },
            Err(e) => {
                proof {
                    lemma_prims_stop(json@, b, all, k + 1, n, ch, mesh_ix);
                }
                return Err(e);
            },
        }
        k = k + 1;
    }
    Ok(true)
}

fn extract_children(
    json: &Json,
    bin: Option<&[u8]>,
    children: &Vec<Json>,
    chain: &Vec<LocalTransform>,
    depth: usize,
    out: &mut Vec<ExtractedPrimitive>,
) -> (r: Result<bool, String>)
    requires
        depth <= MAX_NODE_DEPTH + 1,
    ensures
        walked(
            child_prims(
                json@,
                opt_bytes(bin),
                trees(children@),
                children@.len() as int,
                chain_view(chain@),
                depth as int,
            ),
            r,
            prims_view(old(out)@),
            prims_view(final(out)@),
        ),
    decreases MAX_NODE_DEPTH + 1 - depth, 1int,
{
    let ghost all = trees(children@);
    let ghost n = all.len() as int;
    let ghost before = prims_view(out@);
    let ghost ch = chain_view(chain@);
    let ghost b = opt_bytes(bin);
    let mut k: usize = 0;
    assert(before + Seq::<Primitive>::empty() =~= before);
    while k < children.len()
        invariant
            k <= children@.len(),
            all == trees(children@),
            n == all.len(),
            ch == chain_view(chain@),
            b == opt_bytes(bin),
            depth <= MAX_NODE_DEPTH + 1,
            before == prims_view(old(out)@),
            child_prims(json@, b, all, k as int, ch, depth as int) matches Ok(Some(more))
                && prims_view(out@) == before + more,
        decreases children@.len() - k,
    {
        let ghost more = child_prims(json@, b, all, k as int, ch, depth as int)->Ok_0->0;
        match children[k].as_u64() {
            None => {
                proof {
                    lemma_children_stop(json@, b, all, k + 1, n, ch, depth as int);
                }
                return Ok(false);
            },
            Some(ix) => {
                let ghost so_far = prims_view(out@);
                let done = extract_node(json, bin, ix, chain, depth, out);
                proof {
                    let here = node_prims(json@, b, ix as int, ch, depth as int);
                    if let Ok(Some(p)) = here {
                        assert(before + (more + p) =~= so_far + p);
                    } else {
                        lemma_children_stop(json@, b, all, k + 1, n, ch, depth as int);
                    }
                }
                match done {
                    Ok(true) => {},
                    Ok(false) => {
                        return Ok(false);
                    },
                    Err(e) => {
                        return Err(e);
                    },
                }
            },
        }
        k = k + 1;
    }
    Ok(true)
}

/// Walks one node: its own primitives first, then those of its children. False
/// where the tile is declined.
fn extract_node(
    json: &Json,
    bin: Option<&[u8]>,
    node_ix: u64,
    parent: &Vec<LocalTransform>,
    depth: usize,
    out: &mut Vec<ExtractedPrimitive>,
) -> (r: Result<bool, String>)
    requires
        depth <= MAX_NODE_DEPTH + 1,
    ensures
        walked(
            node_prims(
                json@,
                opt_bytes(bin),
                node_ix as int,
                chain_view(parent@),
                depth as int,
            ),
            r,
            prims_view(old(out)@),
            prims_view(final(out)@),
        ),
    decreases MAX_NODE_DEPTH + 1 - depth, 0int,
{
    if depth > MAX_NODE_DEPTH {
        return Ok(false);
    }
    let node = match nth64(json.get("nodes"), node_ix) {
        Some(n) => n,
        None => {
            return Ok(false);
        },
    };
    if is_null(Some(node)) {
        return Ok(false);
    }
    let local = match node_matrix(node) {
        Some(l) => l,
        None => {
            return Ok(false);
        },
    };
    let ghost l = local@;
    let mut chain = copy_chain(parent);
    let ghost before = prims_view(out@);
    chain.push(local);
    assert(chain_view(chain@) =~= chain_view(parent@).push(l));
    match extract_own(json, bin, node, &chain, out) {
        Ok(true) => {},
        Ok(false) => {
            return Ok(false);
        },
        Err(e) => {
            return Err(e);
        },
    }
    let ghost own = own_prims(json@, opt_bytes(bin), node@, chain_view(chain@))->Ok_0->0;
    assert(before + own + Seq::<Primitive>::empty() =~= before + (own + Seq::<Primitive>::empty()));
    let children = node.get("children");
    if is_null(children) {
        assert(before + own =~= before + (own + Seq::<Primitive>::empty()));
        return Ok(true);
    }
    match opt_array(children) {
        Some(list) => {
            let done = extract_children(json, bin, list, &chain, depth + 1, out);
            proof {
                let below = child_prims(
                    json@,
                    opt_bytes(bin),
                    trees(list@),
                    list@.len() as int,
                    chain_view(chain@),
                    depth + 1,
                );
                if let Ok(Some(p)) = below {
                    assert(before + own + p =~= before + (own + p));
                }
            }
            done
        },
        None => Ok(false),
    }
}

/// The geometry of a tile: every primitive of triangles of its default scene, a
/// node's own before those of its children, and the document's materials.
#[derive(Debug)]
pub struct ExtractedMeshes {
    pub primitives: Vec<ExtractedPrimitive>,
    pub materials: Vec<ExtractedMaterial>,
}

impl View for ExtractedMeshes {
    type V = Meshes;

    open spec fn view(&self) -> Meshes {
        Meshes {
            primitives: prims_view(self.primitives@),
            materials: materials_view(self.materials@),
        }
    }
}

fn has_items(j: Option<&Json>) -> (r: bool)
    ensures
        r == non_empty(opt_tree(j)),
{
    match opt_array(j) {
        Some(v) => v.len() > 0,
        None => false,
    }
}

fn find_roots<'a>(json: &'a Json, none: &'a Vec<Json>) -> (r: Option<&'a Vec<Json>>)
    requires
        none@.len() == 0,
    ensures
        match scene_roots(json@) {
            Some(w) => r matches Some(v) && trees(v@) == w,
            None => r is None,
        },
{
    let scene = opt_index(json.get("scene"));
    assert(trees(none@) =~= Seq::<Tree>::empty());
    let (named, i) = match scene {
        Index::Bad => {
            return None;
        },
        Index::Absent => (false, 0u64),
        Index::At(v) => (true, v),
    };
    let found = json.get("scenes");
    match opt_array(found) {
        Some(scenes) => {
            let n: usize = scenes.len();
            if i >= n as u64 {
                return if named {
                    None
                } else {
                    Some(none)
                };
            }
            opt_array(scenes[i as usize].get("nodes"))
        },
        None => if is_null(found) && !named {
            Some(none)
        } else {
            None
        },
    }
}

fn materials_are_there(prims: &Vec<ExtractedPrimitive>, n: usize) -> (r: bool)
    ensures
        r == materials_exist(prims_view(prims@), n as nat),
{
    let mut i: usize = 0;
    while i < prims.len()
        invariant
            i <= prims@.len(),
            forall|k: int|
                0 <= k < i ==> ((#[trigger] prims_view(prims@)[k]).material matches Some(m) ==> m
                    < n),
        decreases prims@.len() - i,
    {
        if let Some(m) = prims[i].material {
            if m >= n as u64 {
                assert(prims_view(prims@)[i as int].material == Some(m));
                return false;
            }
        }
        i = i + 1;
    }
    true
}

/// Extracts every renderable primitive of a parsed and rewritten document.
///
/// Declined, with no error: any image or texture, a required extension that no
/// pass handled, primitives that are no triangles, attributes that are sparse
/// or no floats, a graph deeper than [`MAX_NODE_DEPTH`], and what a glTF reader
/// refuses. An accessor that cannot be read is an error.
pub fn extract_tile_meshes(json: &Json, bin: Option<&[u8]>) -> (r: Result<
    Option<ExtractedMeshes>,
    DecodeError,
>)
    ensures
        match meshes_of(json@, opt_bytes(bin)) {
            Ok(Some(w)) => r matches Ok(Some(m)) && m@ == w,
            Ok(None) => r matches Ok(None),
            Err(m) => r matches Err(e) && e.parts() == (DecodeStage::Content, m),
        },
{
    if has_items(json.get("images")) || has_items(json.get("textures")) || has_items(
        json.get("extensionsRequired"),
    ) {
        return Ok(None);
    }
    let materials = match extract_materials(json) {
        Some(m) => m,
        None => {
            return Ok(None);
        },
    };
    let none: Vec<Json> = Vec::new();
    let roots = match find_roots(json, &none) {
        Some(v) => v,
        None => {
            return Ok(None);
        },
    };
    let mut primitives: Vec<ExtractedPrimitive> = Vec::new();
    let chain: Vec<LocalTransform> = Vec::new();
    assert(chain_view(chain@) =~= Seq::<Local>::empty());
    assert(prims_view(primitives@) =~= Seq::<Primitive>::empty());
    match extract_children(json, bin, roots, &chain, 0, &mut primitives) {
        Ok(true) => {},
        Ok(false) => {
            return Ok(None);
        },
        Err(e) => {
            return Err(DecodeError::from(e));
        },
    }
    assert(forall|p: Seq<Primitive>| Seq::<Primitive>::empty() + p =~= p);
    if !materials_are_there(&primitives, materials.len()) {
        return Ok(None);
    }
    Ok(Some(ExtractedMeshes { primitives, materials }))
}

} // verus!
