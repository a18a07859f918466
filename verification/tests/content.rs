use tiles3d::content::{
    after_hook, begin_decode, feature_of_triangle, feature_of_vertex, rewrite_tile, DecodeStart,
    HookOutcome, RewrittenTile,
};
use tiles3d::decode::{DecodeError, DecodeStage};
use tiles3d::glb::{assemble_glb, memmem, split_glb};
use tiles3d::gltf::{read_accessor, Component};
use tiles3d::json::Json;
use tiles3d::prepare::{prepare_tile, PreparedTile};
use tiles3d::primitive::{assemble_points, assemble_primitive, FeatureIds, RawPrimitive};
use tiles3d::rewrite::{
    find_draco_prims, meshopt_jobs, move_root, planetary_roots, preprocess_basisu,
    root_translation, strip_handled_extensions,
};
use tiles3d::scene::{
    decode_scene, draw_items, positions_are_there, resident_cost_bytes, texture_bytes, DrawKind, EncodedImage,
    ImageSource, IndexSize, ItemSize, Outline, OutlineNode,
};
use tiles3d::splat::{decode_splat_gltf, node_transform, splat_padding, SplatColor};
use tiles3d::splice::{splice_draco, DracoAttribute, DracoMesh};

fn json(text: &str) -> Json {
    Json::parse(text.as_bytes()).unwrap()
}

fn base64(parts: &[&str]) -> Vec<u8> {
    let mut out = Vec::new();
    let (mut acc, mut bits) = (0u32, 0);
    for c in parts.concat().bytes() {
        let v = match c {
            b'A'..=b'Z' => c - b'A',
            b'a'..=b'z' => c - b'a' + 26,
            b'0'..=b'9' => c - b'0' + 52,
            b'+' => 62,
            b'/' => 63,
            _ => break,
        };
        acc = acc << 6 | u32::from(v);
        bits += 6;
        if bits >= 8 {
            bits -= 8;
            out.push((acc >> bits) as u8);
            acc &= (1 << bits) - 1;
        }
    }
    out
}

fn le(values: &[f32]) -> Vec<u8> {
    values.iter().flat_map(|v| v.to_le_bytes()).collect()
}

fn floats(rows: &[Vec<Component>]) -> Vec<Vec<f32>> {
    rows.iter()
        .map(|r| {
            r.iter()
                .map(|c| match c {
                    Component::F32(b) => f32::from_bits(*b),
                    Component::U8(v, true) => f32::from(*v) / 255.0,
                    _ => panic!("another component"),
                })
                .collect()
        })
        .collect()
}

/// One triangle with colors, under a node that is moved.
fn tiny_glb_with(asset: &str, more: &str) -> Vec<u8> {
    let mut bin = le(&[0.0, 0.0, 0.0, 1.0, 0.0, 0.0, 0.0, 1.0, 0.0]);
    for _ in 0..3 {
        bin.extend(le(&[1.0, 0.0, 0.0, 1.0]));
    }
    let idx_offset = bin.len();
    for i in [0u16, 1, 2, 0] {
        bin.extend(i.to_le_bytes());
    }
    let text = format!(
        r#"{{"asset":{{"version":"2.0"{asset}}},"scene":0,"scenes":[{{"nodes":[0]}}],
            "nodes":[{{"mesh":0,"translation":[0.0,2.0,0.0]}}],
            "meshes":[{{"primitives":[{{"attributes":{{"POSITION":0,"COLOR_0":1}},"indices":2,"mode":4}}]}}],
            "accessors":[
                {{"bufferView":0,"componentType":5126,"count":3,"type":"VEC3","min":[0.0,0.0,0.0],"max":[1.0,1.0,0.0]}},
                {{"bufferView":1,"componentType":5126,"count":3,"type":"VEC4"}},
                {{"bufferView":2,"componentType":5123,"count":3,"type":"SCALAR"}}],
            "bufferViews":[
                {{"buffer":0,"byteOffset":0,"byteLength":36}},
                {{"buffer":0,"byteOffset":36,"byteLength":48}},
                {{"buffer":0,"byteOffset":{idx_offset},"byteLength":6}}],
            "buffers":[{{"byteLength":{}}}]{more}}}"#,
        bin.len()
    );
    assemble_glb(text.as_bytes(), &bin)
}

fn tiny_glb() -> Vec<u8> {
    tiny_glb_with("", "")
}

#[test]
fn plain_documents_list_what_they_draw() {
    let items = decode_scene(&tiny_glb(), true).expect("decode");
    assert_eq!(items.len(), 1);
    assert_eq!(items[0].kind, DrawKind::Triangles);
    assert_eq!((items[0].mesh, items[0].primitive), (0, 0));
    assert_eq!(items[0].transform, vec![0]);
}

#[test]
fn garbage_bytes_error_cleanly() {
    assert!(decode_scene(b"not a glb", true).is_err());
}

#[test]
fn parse_errors_show_the_text() {
    let err = decode_scene(b"not a glb", true).unwrap_err();
    assert!(err.starts_with("gltf parse: "), "{err}");
    assert!(
        err.ends_with(r#" | json_len=9 head="not a glb" tail="not a glb""#),
        "{err}"
    );
    // A header that states fewer bytes than it takes.
    let mut bad = tiny_glb();
    bad[8..12].copy_from_slice(&4u32.to_le_bytes());
    let err = decode_scene(&bad, true).unwrap_err();
    assert!(err.starts_with("gltf parse: could not completely read the object | "), "{err}");
}

#[test]
fn positions_without_an_accessor_are_an_error() {
    let text = |index: u32| {
        format!(
            r#"{{"asset":{{"version":"2.0"}},
                "accessors":[{{"bufferView":0,"componentType":5126,"count":1,"type":"VEC3","min":[0,0,0],"max":[0,0,0]}}],
                "bufferViews":[{{"buffer":0,"byteLength":12}}],
                "buffers":[{{"byteLength":12}}],
                "meshes":[{{"primitives":[{{"attributes":{{"POSITION":{index}}}}}]}}]}}"#
        )
    };
    let glb = |index: u32| assemble_glb(text(index).as_bytes(), &[0; 12]);
    assert!(decode_scene(&glb(0), true).is_ok());
    let err = decode_scene(&glb(1), true).unwrap_err();
    assert!(err.starts_with("gltf parse: POSITION accessor out of bounds | json_len="), "{err}");
    let bare = br#"{"asset":{"version":"2.0"},"meshes":[{"primitives":[{"attributes":{"POSITION":0}}]}]}"#;
    let err = decode_scene(bare, true).unwrap_err();
    assert!(err.starts_with("gltf parse: POSITION accessor out of bounds | json_len=85 "), "{err}");

    assert!(positions_are_there(&None));
    assert!(positions_are_there(&Some((0, vec![vec![None], vec![]]))));
    assert!(positions_are_there(&Some((2, vec![vec![Some(0)], vec![None, Some(1)]]))));
    assert!(!positions_are_there(&Some((2, vec![vec![Some(0)], vec![None, Some(2)]]))));
    assert!(!positions_are_there(&Some((0, vec![vec![Some(0)]]))));
}

#[test]
fn decode_tile_extracts_copyright_and_rtc() {
    assert!(matches!(begin_decode(&tiny_glb(), false, true), Ok(DecodeStart::Vanilla)));

    let glb = tiny_glb_with(
        r#","copyright":"Data A;Data B""#,
        r#","extensions":{"CESIUM_RTC":{"center":[6378137.0,1000.5,-2000.25]}},"extensionsRequired":["CESIUM_RTC"]"#,
    );
    let Ok(DecodeStart::Rewrite(work)) = begin_decode(&glb, false, true) else {
        panic!("the document is rewritten");
    };
    assert_eq!(work.copyright.as_deref(), Some("Data A;Data B"));
    let rtc: Vec<f64> =
        work.rtc_center.as_ref().expect("rtc center").iter().map(|n| n.as_f64().unwrap()).collect();
    assert_eq!(rtc, [6_378_137.0, 1000.5, -2000.25]);
    let Ok(RewrittenTile::Plain { glb, features }) =
        rewrite_tile(&glb, work, &Vec::new(), None, true)
    else {
        panic!("plain glTF comes out");
    };
    assert!(features.is_none());
    let items = decode_scene(&glb, true).expect("rtc decode");
    assert_eq!(items.len(), 1, "geometry survives the strip");
}

fn bounds(values: &[f32], n: usize) -> (Json, Json) {
    let fold = |f: fn(f32, f32) -> f32, start: f32| -> Json {
        let row: Vec<String> = (0..n)
            .map(|c| {
                let v = values.iter().skip(c).step_by(n).fold(start, |a, &b| f(a, b));
                format!("{v:?}")
            })
            .collect();
        json(&format!("[{}]", row.join(",")))
    };
    (fold(f32::min, f32::INFINITY), fold(f32::max, f32::NEG_INFINITY))
}

fn attribute(id: u32, components: usize, values: &[f32]) -> DracoAttribute {
    let (min, max) = bounds(values, components);
    DracoAttribute {
        id,
        components,
        data: values.iter().map(|v| v.to_bits()).collect(),
        min,
        max,
    }
}

#[test]
fn splice_draco_rewrites_draco_primitive() {
    let fake_compressed = vec![0xAAu8; 16];
    let mut value = json(&format!(
        r#"{{"asset":{{"version":"2.0"}},
            "extensionsUsed":["KHR_draco_mesh_compression","CESIUM_RTC"],
            "extensionsRequired":["KHR_draco_mesh_compression","CESIUM_RTC"],
            "extensions":{{"CESIUM_RTC":{{"center":[1.0,2.0,3.0]}}}},
            "scene":0,"scenes":[{{"nodes":[0]}}],"nodes":[{{"mesh":0}}],
            "meshes":[{{"primitives":[{{
                "attributes":{{"POSITION":0,"COLOR_0":1}},"mode":4,
                "extensions":{{"KHR_draco_mesh_compression":{{
                    "bufferView":0,"attributes":{{"POSITION":0,"COLOR_0":1}}}}}}
            }}]}}],
            "accessors":[
                {{"componentType":5126,"count":3,"type":"VEC3","min":[0,0,0],"max":[1,1,0]}},
                {{"componentType":5126,"count":3,"type":"VEC4"}}],
            "bufferViews":[{{"buffer":0,"byteOffset":0,"byteLength":{0}}}],
            "buffers":[{{"byteLength":{0}}}]}}"#,
        fake_compressed.len()
    ));
    let positions = [0.0f32, 0.0, 0.0, 1.0, 0.0, 0.0, 0.0, 1.0, 0.0];
    let colors = [1.0f32; 12];
    let decoded = vec![DracoMesh {
        indices: vec![0, 1, 2],
        attributes: vec![attribute(0, 3, &positions), attribute(1, 4, &colors)],
    }];
    let prims = find_draco_prims(&value);
    assert_eq!(prims.len(), 1);
    assert_eq!(prims[0].buffer_view, 0);

    let new_bin =
        splice_draco(&mut value, Some(&fake_compressed), &prims, &decoded).expect("splice");
    assert!(new_bin.starts_with(&fake_compressed), "what was there stays where it is");
    strip_handled_extensions(&mut value);
    let vanilla = assemble_glb(&value.write().unwrap(), &new_bin);
    let items = decode_scene(&vanilla, true).expect("decode spliced");
    assert_eq!(items.len(), 1);
    assert_eq!(items[0].kind, DrawKind::Triangles);
    let prim = value.get("meshes").unwrap().item(0).unwrap().get("primitives").unwrap();
    let prim = prim.item(0).unwrap();
    let ix = prim.get("attributes").unwrap().get("POSITION").unwrap().as_u64().unwrap();
    let rows = read_accessor(&value, Some(&new_bin), ix, 3).expect("positions");
    assert_eq!(floats(&rows).concat(), positions);
    assert!(prim.get("indices").is_some());
    let (j, _) = split_glb(&vanilla).unwrap();
    assert!(!memmem(j, b"KHR_draco_mesh_compression"));
    assert!(!memmem(j, b"CESIUM_RTC"));
}

#[test]
fn draco_attributes_stand_in_the_order_of_their_keys() {
    let value = json(
        r#"{"meshes":[{"primitives":[{"extensions":{"KHR_draco_mesh_compression":{
            "bufferView":3,
            "attributes":{"TEXCOORD_0":2,"POSITION":0,"x":"y","NORMAL":1,"COLOR_0":7,"COLOR":4294967297}}}}]}]}"#,
    );
    let prims = find_draco_prims(&value);
    let want = [("COLOR", 1), ("COLOR_0", 7), ("NORMAL", 1), ("POSITION", 0), ("TEXCOORD_0", 2)];
    assert_eq!(prims[0].attributes, want.map(|(k, id)| (k.to_string(), id)).to_vec());
    // The same where members were put in one by one.
    let mut o = Json::parse(b"{}").unwrap();
    for k in ["b", "a", "c", "b"] {
        o.set(k, Json::Null);
    }
    let keys: Vec<&String> = o.entries().unwrap().iter().map(|(k, _)| *k).collect();
    assert_eq!(keys, ["a", "b", "c"]);
}

#[test]
fn a_splice_that_stops_leaves_what_came_before() {
    let text = r#"{"meshes":[{"primitives":[{"attributes":{},
        "extensions":{"KHR_draco_mesh_compression":{
            "bufferView":0,"attributes":{"COLOR_0":1,"POSITION":0}}}}]}]}"#;
    let prims = find_draco_prims(&json(text));
    let splice = |second: DracoAttribute| {
        let mut value = json(text);
        let decoded = vec![DracoMesh {
            indices: vec![0, 1, 2],
            attributes: vec![attribute(1, 4, &[1.0; 12]), second],
        }];
        (splice_draco(&mut value, None, &prims, &decoded), value)
    };
    let (err, value) = splice(attribute(5, 3, &[0.0; 9]));
    assert_eq!(err.unwrap_err(), "draco decoder returned no attribute 0");
    let (err, same) = splice(attribute(0, 5, &[0.0; 9]));
    assert_eq!(err.unwrap_err(), "draco attribute with 5 components");
    assert_eq!(value.write().unwrap(), same.write().unwrap());
    // The indices and the colors are in; the extension is still there.
    assert_eq!(value.get("bufferViews").unwrap().as_array().unwrap().len(), 2);
    assert_eq!(value.get("accessors").unwrap().as_array().unwrap().len(), 2);
    let prim = value.get("meshes").unwrap().item(0).unwrap().get("primitives").unwrap();
    let prim = prim.item(0).unwrap();
    assert_eq!(prim.get("indices").unwrap().as_u64(), Some(0));
    assert_eq!(prim.get("attributes").unwrap().get("COLOR_0").unwrap().as_u64(), Some(1));
    assert!(prim.get("attributes").unwrap().get("POSITION").is_none());
    assert!(prim.get("extensions").is_some());
    assert!(value.get("buffers").is_none());
}

#[test]
fn decodes_points_primitive() {
    let mut bin = le(&[0.0, 1.0, 2.0, 3.0, 4.0, 5.0]);
    let color_offset = bin.len();
    bin.extend([255, 0, 0, 255, 0, 255, 0, 255]);
    let text = format!(
        r#"{{"asset":{{"version":"2.0"}},"scene":0,"scenes":[{{"nodes":[0]}}],"nodes":[{{"mesh":0}}],
            "meshes":[{{"primitives":[{{"attributes":{{"POSITION":0,"COLOR_0":1}},"mode":0}}]}}],
            "accessors":[
                {{"bufferView":0,"componentType":5126,"count":2,"type":"VEC3","min":[0.0,1.0,2.0],"max":[3.0,4.0,5.0]}},
                {{"bufferView":1,"componentType":5121,"normalized":true,"count":2,"type":"VEC4"}}],
            "bufferViews":[
                {{"buffer":0,"byteOffset":0,"byteLength":24}},
                {{"buffer":0,"byteOffset":{color_offset},"byteLength":8}}],
            "buffers":[{{"byteLength":{}}}]}}"#,
        bin.len()
    );
    let glb = assemble_glb(text.as_bytes(), &bin);
    let items = decode_scene(&glb, true).expect("decode");
    assert_eq!(items.len(), 1);
    assert_eq!(items[0].kind, DrawKind::Points);
    let doc = json(&text);
    let positions = floats(&read_accessor(&doc, Some(&bin), 0, 3).unwrap());
    assert_eq!(positions.len(), 2);
    assert_eq!(positions[0], [0.0, 1.0, 2.0]);
    let colors = floats(&read_accessor(&doc, Some(&bin), 1, 4).unwrap());
    for n in [0, 2, 5] {
        let err = read_accessor(&doc, Some(&bin), 0, n).unwrap_err();
        assert_eq!(err, format!("accessor 0 is VEC3, expected {n} components"));
    }
    assert!((colors[0][0] - 1.0).abs() < 1e-6);
    assert!((colors[1][1] - 1.0).abs() < 1e-6);
    // Where points are not wanted, they are skipped.
    assert!(decode_scene(&glb, false).unwrap().is_empty());
}

fn splat_document(bin: &mut Vec<u8>) -> String {
    let mut offsets = Vec::new();
    for values in [
        &[1.0f32, 2.0, 3.0, 4.0, 5.0, 6.0][..],
        &[0.0, 0.0, 0.0, 1.0, 1.0, 0.0, 0.0, 0.0],
        &[0.1, 0.2, 0.3, 0.4, 0.5, 0.6],
        &[0.25, 1.0],
        &[1.0, -0.5, 0.0, 0.0, 0.0, 2.0],
    ] {
        offsets.push(bin.len());
        bin.extend(le(values));
    }
    format!(
        r#"{{"asset":{{"version":"2.0"}},"extensionsUsed":["KHR_gaussian_splatting"],
            "scene":0,"scenes":[{{"nodes":[0]}}],"nodes":[{{"mesh":0,"translation":[10.0,0.0,0.0]}}],
            "meshes":[{{"primitives":[{{"attributes":{{
                "POSITION":0,"KHR_gaussian_splatting:ROTATION":1,"KHR_gaussian_splatting:SCALE":2,
                "KHR_gaussian_splatting:OPACITY":3,"KHR_gaussian_splatting:SH_DEGREE_0_COEF_0":4}},
                "mode":0,"extensions":{{"KHR_gaussian_splatting":{{}}}}}}]}}],
            "accessors":[
                {{"bufferView":0,"componentType":5126,"count":2,"type":"VEC3"}},
                {{"bufferView":1,"componentType":5126,"count":2,"type":"VEC4"}},
                {{"bufferView":2,"componentType":5126,"count":2,"type":"VEC3"}},
                {{"bufferView":3,"componentType":5126,"count":2,"type":"SCALAR"}},
                {{"bufferView":4,"componentType":5126,"count":2,"type":"VEC3"}}],
            "bufferViews":[
                {{"buffer":0,"byteOffset":{},"byteLength":24}},
                {{"buffer":0,"byteOffset":{},"byteLength":32}},
                {{"buffer":0,"byteOffset":{},"byteLength":24}},
                {{"buffer":0,"byteOffset":{},"byteLength":8}},
                {{"buffer":0,"byteOffset":{},"byteLength":24}}],
            "buffers":[{{"byteLength":{}}}]}}"#,
        offsets[0],
        offsets[1],
        offsets[2],
        offsets[3],
        offsets[4],
        bin.len()
    )
}

#[test]
fn decodes_splat_primitive_via_raw_path() {
    let mut bin = Vec::new();
    let text = splat_document(&mut bin);
    let glb = assemble_glb(text.as_bytes(), &bin);
    let Ok(DecodeStart::Splat(work)) = begin_decode(&glb, false, true) else {
        panic!("splats are read as they stand");
    };
    let items = decode_splat_gltf(&work.json, Some(&bin)).expect("decode");
    assert_eq!(items.len(), 1);
    let s = &items[0];
    assert_eq!(s.transform, vec![0]);
    let node = work.json.get("nodes").unwrap().item(0).unwrap();
    let local = node_transform(node);
    assert_eq!(local.translation.unwrap()[0].as_f64(), Some(10.0));
    assert_eq!(s.positions.len() + splat_padding(s.positions.len()), 32, "2 real + 30 pad");
    assert_eq!(floats(&s.positions)[0], [1.0, 2.0, 3.0]);
    assert_eq!(floats(&s.rotations), [[0.0, 0.0, 0.0, 1.0], [1.0, 0.0, 0.0, 0.0]]);
    assert_eq!(floats(&s.scales)[0], [0.1, 0.2, 0.3]);
    assert_eq!(floats(&s.opacities)[0], [0.25]);
    let SplatColor::Harmonic(sh) = &s.color else { panic!("harmonics") };
    assert_eq!(floats(sh), [[1.0, -0.5, 0.0], [0.0, 0.0, 2.0]]);
}

#[test]
fn splats_must_be_complete() {
    let mut bin = Vec::new();
    let text = splat_document(&mut bin);
    let cases = [
        (
            text.replace("\"POSITION\":0,", ""),
            "splat primitive missing POSITION",
        ),
        (
            text.replace(",\"KHR_gaussian_splatting:SH_DEGREE_0_COEF_0\":4", ""),
            "splat primitive has neither SH_DEGREE_0_COEF_0 nor COLOR_0",
        ),
        (
            text.replace(
                "{\"bufferView\":3,\"componentType\":5126,\"count\":2",
                "{\"bufferView\":3,\"componentType\":5126,\"count\":1",
            ),
            "splat attribute counts disagree: pos=2 rot=2 scale=2 opacity=1",
        ),
        (text.replace("[{\"nodes\":[0]}]", "[{\"nodes\":[4]}]"), "node 4 out of bounds"),
        (text.replace("[{\"nodes\":[0]}]", "[{\"nodes\":[\"x\"]}]"), "bad node index"),
        (text.replace("[{\"nodes\":[0]}]", "[]"), "splat tile has no scene nodes"),
        (
            text.replace("\"translation\":[10.0,0.0,0.0]", "\"children\":[0]"),
            "node graph has a cycle",
        ),
    ];
    for (text, want) in cases {
        let err = decode_splat_gltf(&json(&text), Some(&bin)).unwrap_err();
        assert_eq!(err, want);
    }
    assert_eq!(splat_padding(0), 0);
    assert_eq!(splat_padding(32), 0);
    assert_eq!(splat_padding(33), 31);
}

const MESHOPT: &[&str] = &[
    "Z2xURgIAAABMBgAAaAUAAEpTT057ImFzc2V0Ijp7ImdlbmVyYXRvciI6ImdsVEYtVHJhbnNmb3JtIHY0LjMuMCIs",
    "InZlcnNpb24iOiIyLjAifSwiYWNjZXNzb3JzIjpbeyJ0eXBlIjoiVkVDMyIsImNvbXBvbmVudFR5cGUiOjUxMjYs",
    "ImNvdW50Ijo2LCJtYXgiOlsyLDMsM10sIm1pbiI6Wy0xLDAsMF0sIm5vcm1hbGl6ZWQiOmZhbHNlLCJieXRlT2Zm",
    "c2V0IjowLCJidWZmZXJWaWV3IjowfSx7InR5cGUiOiJWRUM0IiwiY29tcG9uZW50VHlwZSI6NTEyNiwiY291bnQi",
    "OjYsIm5vcm1hbGl6ZWQiOmZhbHNlLCJieXRlT2Zmc2V0IjowLCJidWZmZXJWaWV3IjoxfSx7InR5cGUiOiJTQ0FM",
    "QVIiLCJjb21wb25lbnRUeXBlIjo1MTI1LCJjb3VudCI6MTIsIm5vcm1hbGl6ZWQiOmZhbHNlLCJieXRlT2Zmc2V0",
    "IjowLCJidWZmZXJWaWV3IjoyfV0sImJ1ZmZlclZpZXdzIjpbeyJidWZmZXIiOjEsImJ5dGVPZmZzZXQiOjAsImJ5",
    "dGVMZW5ndGgiOjcyLCJ0YXJnZXQiOjM0OTYyLCJieXRlU3RyaWRlIjoxMiwiZXh0ZW5zaW9ucyI6eyJFWFRfbWVz",
    "aG9wdF9jb21wcmVzc2lvbiI6eyJidWZmZXIiOjAsImJ5dGVPZmZzZXQiOjAsImJ5dGVMZW5ndGgiOjgwLCJtb2Rl",
    "IjoiQVRUUklCVVRFUyIsImJ5dGVTdHJpZGUiOjEyLCJjb3VudCI6Nn19fSx7ImJ1ZmZlciI6MSwiYnl0ZU9mZnNl",
    "dCI6NzIsImJ5dGVMZW5ndGgiOjk2LCJ0YXJnZXQiOjM0OTYyLCJieXRlU3RyaWRlIjoxNiwiZXh0ZW5zaW9ucyI6",
    "eyJFWFRfbWVzaG9wdF9jb21wcmVzc2lvbiI6eyJidWZmZXIiOjAsImJ5dGVPZmZzZXQiOjgwLCJieXRlTGVuZ3Ro",
    "Ijo5NSwibW9kZSI6IkFUVFJJQlVURVMiLCJieXRlU3RyaWRlIjoxNiwiY291bnQiOjZ9fX0seyJidWZmZXIiOjEs",
    "ImJ5dGVPZmZzZXQiOjE2OCwiYnl0ZUxlbmd0aCI6NDgsInRhcmdldCI6MzQ5NjMsImV4dGVuc2lvbnMiOnsiRVhU",
    "X21lc2hvcHRfY29tcHJlc3Npb24iOnsiYnVmZmVyIjowLCJieXRlT2Zmc2V0IjoxNzYsImJ5dGVMZW5ndGgiOjIy",
    "LCJtb2RlIjoiVFJJQU5HTEVTIiwiYnl0ZVN0cmlkZSI6NCwiY291bnQiOjEyfX19XSwiYnVmZmVycyI6W3siYnl0",
    "ZUxlbmd0aCI6MjAwfSx7ImJ5dGVMZW5ndGgiOjIxNiwiZXh0ZW5zaW9ucyI6eyJFWFRfbWVzaG9wdF9jb21wcmVz",
    "c2lvbiI6eyJmYWxsYmFjayI6dHJ1ZX19fV0sIm1lc2hlcyI6W3sicHJpbWl0aXZlcyI6W3siYXR0cmlidXRlcyI6",
    "eyJQT1NJVElPTiI6MCwiQ09MT1JfMCI6MX0sIm1vZGUiOjQsImluZGljZXMiOjJ9XX1dLCJub2RlcyI6W3sidHJh",
    "bnNsYXRpb24iOlsxMCwwLDBdLCJtZXNoIjowfV0sInNjZW5lcyI6W3sibm9kZXMiOlswXX1dLCJleHRlbnNpb25z",
    "VXNlZCI6WyJFWFRfbWVzaG9wdF9jb21wcmVzc2lvbiJdLCJleHRlbnNpb25zUmVxdWlyZWQiOlsiRVhUX21lc2hv",
    "cHRfY29tcHJlc3Npb24iXX0gyAAAAEJJTgCgAAABAMAAAP8BM/AAAIB/fv8AAAEA8AAA/38BDGAAAIAAAAEA8AAA",
    "gIABANAAAIAAAAAAAAAAAAAAAAAAAAAAAAAAAAAAAAAAAAAAAAAAAKAAAAEz8AAA/////wEz8AAAfX59fgAAAT8w",
    "AAD/////AT8wAAB+fX59AAABD8AAAP///wEPwAAAfn1+AAAAAAAAAAAAAAAAAAAAAAAAAAAAAIA/AAAAAAAAAAAA",
    "AIA/AOHwAP4FAgB2h1ZneKmGZYlomAFpAAAAAA==",
];

const MESHOPT_POSITIONS: [[f32; 3]; 6] = [
    [0.0, 0.0, 0.0],
    [2.0, 0.0, 0.0],
    [2.0, 2.0, 0.0],
    [0.0, 2.0, 0.0],
    [1.0, 1.0, 3.0],
    [-1.0, 3.0, 1.0],
];

/// What a decoder makes of the views of the fixture.
fn meshopt_views() -> Vec<Result<Vec<u8>, String>> {
    let indices: Vec<u8> =
        [0u32, 1, 2, 0, 2, 3, 2, 4, 5, 0, 4, 2].iter().flat_map(|i| i.to_le_bytes()).collect();
    vec![Ok(le(&MESHOPT_POSITIONS.concat())), Ok(le(&[1.0; 24])), Ok(indices)]
}

fn combined_fixture() -> Vec<u8> {
    let fixture = base64(MESHOPT);
    let (j, bin) = split_glb(&fixture).unwrap();
    let mut value = Json::parse(j).unwrap();
    let mut asset = value.take("asset").unwrap();
    asset.set("copyright", json("\"Fixture Co\""));
    value.set("asset", asset);
    value.set(
        "extensions",
        json(r#"{"CESIUM_RTC":{"center":[6378137.0,-1000.5,2000.25]}}"#),
    );
    value.set("extensionsRequired", json(r#"["EXT_meshopt_compression","CESIUM_RTC"]"#));
    value.set("extensionsUsed", json(r#"["EXT_meshopt_compression","CESIUM_RTC"]"#));
    assemble_glb(&value.write().unwrap(), bin.unwrap())
}

#[test]
fn combined_rewrites_decode_in_one_pass() {
    let glb = combined_fixture();
    let (j, bin) = split_glb(&glb).unwrap();
    let jobs = meshopt_jobs(&Json::parse(j).unwrap(), bin);
    let kinds: Vec<(&str, u64, u64)> =
        jobs.iter().map(|j| (j.mode.as_str(), j.count, j.stride)).collect();
    assert_eq!(
        kinds,
        vec![("ATTRIBUTES", 6, 12), ("ATTRIBUTES", 6, 16), ("TRIANGLES", 12, 4)]
    );

    let tile = prepare_tile(&glb, true, None, &meshopt_views()).unwrap().expect("prepared");
    assert_eq!(tile.copyright.as_deref(), Some("Fixture Co"));
    let rtc: Vec<f64> =
        tile.rtc_center.expect("rtc center").iter().map(|n| n.as_f64().unwrap()).collect();
    assert_eq!(rtc, [6_378_137.0, -1000.5, 2000.25]);
    let items = decode_scene(&tile.glb, true).expect("combined decode");
    assert_eq!(items.len(), 1);
    let (j, bin) = split_glb(&tile.glb).unwrap();
    let doc = Json::parse(j).unwrap();
    let rows = read_accessor(&doc, bin, 0, 3).expect("positions");
    assert_eq!(floats(&rows), MESHOPT_POSITIONS);
    // The center is kept beside the tile: the node stays where it was.
    let node = doc.get("nodes").unwrap().item(0).unwrap();
    let local = node_transform(node);
    let at: Vec<f64> = local.translation.unwrap().iter().map(|n| n.as_f64().unwrap()).collect();
    assert_eq!(at, [10.0, 0.0, 0.0]);
}

#[test]
fn failed_views_fail_the_tile() {
    let views = vec![Err("bad header".to_string())];
    let err = prepare_tile(&base64(MESHOPT), false, None, &views).err().unwrap();
    assert_eq!(err.stage, DecodeStage::Meshopt);
    assert!(err.message.contains("bad header"), "{}", err.message);
}

fn feature_fixture() -> Vec<u8> {
    let mut bin = le(&[
        0.0, 0.0, 0.0, 1.0, 0.0, 0.0, 0.0, 1.0, 0.0, 2.0, 0.0, 0.0, 3.0, 0.0, 0.0, 2.0, 1.0, 0.0,
    ]);
    let feat_off = bin.len();
    bin.extend(le(&[0.0, 0.0, 0.0, 1.0, 1.0, 1.0]));
    let idx_off = bin.len();
    for i in 0u32..6 {
        bin.extend(i.to_le_bytes());
    }
    let values_off = bin.len();
    let mut offsets = vec![0u32];
    for s in ["AlphaModule", "BetaModule/sub"] {
        bin.extend(s.as_bytes());
        offsets.push((bin.len() - values_off) as u32);
    }
    let values_len = bin.len() - values_off;
    while bin.len() % 4 != 0 {
        bin.push(0);
    }
    let offsets_off = bin.len();
    for o in &offsets {
        bin.extend(o.to_le_bytes());
    }
    let text = format!(
        r#"{{"asset":{{"version":"2.0"}},
            "extensionsUsed":["EXT_mesh_features","EXT_structural_metadata"],
            "scene":0,"scenes":[{{"nodes":[0]}}],"nodes":[{{"mesh":0}}],
            "meshes":[{{"primitives":[{{
                "attributes":{{"POSITION":0,"_FEATURE_ID_0":1}},"indices":2,"mode":4,
                "extensions":{{"EXT_mesh_features":{{
                    "featureIds":[{{"featureCount":2,"attribute":0,"propertyTable":0}}]}}}}}}]}}],
            "accessors":[
                {{"bufferView":0,"componentType":5126,"count":6,"type":"VEC3","min":[0.0,0.0,0.0],"max":[3.0,1.0,0.0]}},
                {{"bufferView":1,"componentType":5126,"count":6,"type":"SCALAR"}},
                {{"bufferView":2,"componentType":5125,"count":6,"type":"SCALAR"}}],
            "bufferViews":[
                {{"buffer":0,"byteOffset":0,"byteLength":{feat_off}}},
                {{"buffer":0,"byteOffset":{feat_off},"byteLength":{}}},
                {{"buffer":0,"byteOffset":{idx_off},"byteLength":{}}},
                {{"buffer":0,"byteOffset":{values_off},"byteLength":{values_len}}},
                {{"buffer":0,"byteOffset":{offsets_off},"byteLength":{}}}],
            "buffers":[{{"byteLength":{}}}],
            "extensions":{{"EXT_structural_metadata":{{
                "schema":{{"id":"tt_features","classes":{{"feature":{{
                    "properties":{{"nodePath":{{"type":"STRING"}}}}}}}}}},
                "propertyTables":[{{"class":"feature","count":2,
                    "properties":{{"nodePath":{{"values":3,"stringOffsets":4}}}}}}]}}}}}}"#,
        idx_off - feat_off,
        values_off - idx_off,
        offsets.len() * 4,
        bin.len()
    );
    assemble_glb(text.as_bytes(), &bin)
}

fn rounded(ids: &[Component]) -> Vec<u32> {
    floats(&[ids.to_vec()])[0].iter().map(|f| f.round() as u32).collect()
}

#[test]
fn decodes_feature_metadata() {
    let glb = feature_fixture();
    let Ok(DecodeStart::Rewrite(work)) = begin_decode(&glb, false, true) else {
        panic!("the document is parsed");
    };
    let Ok(RewrittenTile::Plain { glb: plain, features: Some(ctx) }) =
        rewrite_tile(&glb, work, &Vec::new(), None, true)
    else {
        panic!("feature metadata decoded");
    };
    assert_eq!(plain, glb, "nothing to rewrite");
    assert_eq!(decode_scene(&plain, true).unwrap().len(), 1);
    let (_, bin) = split_glb(&glb).unwrap();
    let ids = ctx.per_vertex_ids(bin, 0, 0).unwrap().expect("ids");
    assert_eq!(
        feature_of_triangle(&rounded(&ids), Some(&[0, 1, 2, 3, 4, 5]), 6),
        vec![0, 1]
    );
    assert_eq!(
        ctx.node_of_feature,
        ["AlphaModule".to_string(), "BetaModule/sub".to_string()]
    );
    assert_eq!(
        floats(&[feature_of_vertex(&ids, 6)])[0],
        [0.0, 0.0, 0.0, 1.0, 1.0, 1.0]
    );
    assert!(ctx.per_vertex_ids(bin, 0, 1).unwrap().is_none());
}

#[test]
fn hook_path_consumes_prepared_features() {
    let glb = feature_fixture();
    let prepared = prepare_tile(&glb, false, None, &Vec::new()).unwrap().expect("accepted");
    let feats = prepared.features.as_ref().expect("features in the reply");
    assert_eq!(
        feats.node_of_feature,
        vec!["AlphaModule".to_string(), "BetaModule/sub".to_string()]
    );
    assert_eq!(feats.vertex_ids.len(), 1, "one feature-carrying primitive");
    let ids = feats.ids_of(0, 0).expect("ids");
    assert_eq!(
        feature_of_triangle(&rounded(ids), Some(&[0, 1, 2, 3, 4, 5]), 6),
        vec![0, 1]
    );
    assert!(feats.ids_of(0, 1).is_none());
}

#[test]
fn features_cover_exactly_the_vertices() {
    let ids = vec![7, 8];
    assert_eq!(feature_of_triangle(&ids, Some(&[1, 0, 0, 5, 1, 1, 0]), 9), vec![8, 0]);
    assert_eq!(feature_of_triangle(&ids, None, 7), vec![7, 0]);
    let ids = vec![Component::F32(1), Component::F32(2)];
    let out = feature_of_vertex(&ids, 3);
    assert!(matches!(out[..], [Component::F32(1), Component::F32(2), Component::F32(0)]));
    assert_eq!(feature_of_vertex(&ids, 1).len(), 1);
}

const BASISU: &[&str] = &[
    "Z2xURgIAAACUBQAAMAQAAEpTT057ImFzc2V0Ijp7ImdlbmVyYXRvciI6ImdsVEYtVHJhbnNmb3JtIHY0LjMuMCIs",
    "InZlcnNpb24iOiIyLjAifSwiYWNjZXNzb3JzIjpbeyJ0eXBlIjoiVkVDMyIsImNvbXBvbmVudFR5cGUiOjUxMjYs",
    "ImNvdW50IjozLCJtYXgiOlsxLDEsMF0sIm1pbiI6WzAsMCwwXSwiYnVmZmVyVmlldyI6MSwiYnl0ZU9mZnNldCI6",
    "MH0seyJ0eXBlIjoiVkVDMiIsImNvbXBvbmVudFR5cGUiOjUxMjYsImNvdW50IjozLCJidWZmZXJWaWV3IjoxLCJi",
    "eXRlT2Zmc2V0IjoxMn0seyJ0eXBlIjoiU0NBTEFSIiwiY29tcG9uZW50VHlwZSI6NTEyNSwiY291bnQiOjMsImJ1",
    "ZmZlclZpZXciOjIsImJ5dGVPZmZzZXQiOjB9XSwiYnVmZmVyVmlld3MiOlt7ImJ1ZmZlciI6MCwiYnl0ZU9mZnNl",
    "dCI6NzIsImJ5dGVMZW5ndGgiOjI1NH0seyJidWZmZXIiOjAsImJ5dGVPZmZzZXQiOjAsImJ5dGVMZW5ndGgiOjYw",
    "LCJieXRlU3RyaWRlIjoyMCwidGFyZ2V0IjozNDk2Mn0seyJidWZmZXIiOjAsImJ5dGVPZmZzZXQiOjYwLCJieXRl",
    "TGVuZ3RoIjoxMiwidGFyZ2V0IjozNDk2M31dLCJzYW1wbGVycyI6W3sid3JhcFMiOjEwNDk3LCJ3cmFwVCI6MTA0",
    "OTd9XSwidGV4dHVyZXMiOlt7InNhbXBsZXIiOjAsImV4dGVuc2lvbnMiOnsiS0hSX3RleHR1cmVfYmFzaXN1Ijp7",
    "InNvdXJjZSI6MH19fV0sImltYWdlcyI6W3sibmFtZSI6ImJhc2UiLCJtaW1lVHlwZSI6ImltYWdlL2t0eDIiLCJi",
    "dWZmZXJWaWV3IjowfV0sImJ1ZmZlcnMiOlt7ImJ5dGVMZW5ndGgiOjMyOH1dLCJtYXRlcmlhbHMiOlt7Im5hbWUi",
    "OiJtIiwicGJyTWV0YWxsaWNSb3VnaG5lc3MiOnsiYmFzZUNvbG9yVGV4dHVyZSI6eyJpbmRleCI6MH19fV0sIm1l",
    "c2hlcyI6W3sicHJpbWl0aXZlcyI6W3siYXR0cmlidXRlcyI6eyJQT1NJVElPTiI6MCwiVEVYQ09PUkRfMCI6MX0s",
    "Im1vZGUiOjQsIm1hdGVyaWFsIjowLCJpbmRpY2VzIjoyfV19XSwibm9kZXMiOlt7Im1lc2giOjB9XSwic2NlbmVz",
    "IjpbeyJub2RlcyI6WzBdfV0sImV4dGVuc2lvbnNVc2VkIjpbIktIUl90ZXh0dXJlX2Jhc2lzdSJdLCJleHRlbnNp",
    "b25zUmVxdWlyZWQiOlsiS0hSX3RleHR1cmVfYmFzaXN1Il19SAEAAEJJTgAAAAAAAAAAAAAAAAAAAAAAAAAAAAAA",
    "gD8AAAAAAAAAAAAAgD8AAAAAAAAAAAAAgD8AAAAAAAAAAAAAgD8AAAAAAQAAAAIAAACrS1RYIDIwuw0KGgoAAAAA",
    "AQAAAAgAAAAIAAAAAAAAAAAAAAABAAAAAQAAAAIAAABoAAAALAAAAJQAAABQAAAAAAAAAAAAAAAAAAAAAAAAAOQA",
    "AAAAAAAAGgAAAAAAAABAAAAAAAAAACwAAAAAAAAAAgAoAKYBAgADAwAAEAAAAAAAAAAAAH8AAAAAAAAAAAD/////",
    "LAAAAEtUWHdyaXRlcgBrdHggY3JlYXRlIHY0LjQuMiAvIGxpYmt0eCB2NC40LjIAHAAAAEtUWHdyaXRlclNjUGFy",
    "YW1zAC0tenN0ZCAxOAAotS/9IECNAABIVwGZ5/87vgEAAgDNjCADRwAA",
];

#[test]
fn decodes_basisu_ktx2_base_color() {
    let glb = base64(BASISU);
    let Ok(DecodeStart::Rewrite(work)) = begin_decode(&glb, false, true) else {
        panic!("the document is rewritten");
    };
    let Ok(RewrittenTile::Plain { glb, .. }) = rewrite_tile(&glb, work, &Vec::new(), None, true)
    else {
        panic!("plain glTF comes out");
    };
    // The reader of plain glTF takes the rewritten document.
    assert_eq!(decode_scene(&glb, true).expect("ktx2 decode").len(), 1);
    let (j, bin) = split_glb(&glb).unwrap();
    let doc = Json::parse(j).unwrap();
    let texture = doc.get("textures").unwrap().item(0).unwrap();
    assert_eq!(texture.get("source").unwrap().as_u64(), Some(0));
    let source = ImageSource::View {
        external: false,
        offset: 72,
        length: 254,
        mime: "image/ktx2".to_string(),
    };
    let Ok(EncodedImage::Ktx2(bytes)) = texture_bytes(source, bin) else {
        panic!("transcoded later");
    };
    assert_eq!(&bytes[1..7], b"KTX 20");
}

#[test]
fn textures_come_from_the_tile_itself() {
    let bin = [1u8, 2, 3, 4];
    let view = |external, offset, length, mime: &str| ImageSource::View {
        external,
        offset,
        length,
        mime: mime.to_string(),
    };
    let Ok(EncodedImage::Plain { mime, bytes }) =
        texture_bytes(view(false, 1, 2, "image/png"), Some(&bin))
    else {
        panic!("decoded at once");
    };
    assert_eq!((mime.as_str(), bytes), ("image/png", vec![2, 3]));
    for (source, blob, want) in [
        (ImageSource::Uri, Some(&bin[..]), "external texture URIs unsupported in tile content"),
        (view(true, 0, 1, "x"), Some(&bin[..]), "texture bufferView points at an external buffer"),
        (view(false, 0, 1, "x"), None, "texture bufferView points at an external buffer"),
        (view(false, 3, 2, "x"), Some(&bin[..]), "texture bufferView out of bounds"),
        (
            view(false, usize::MAX, 2, "x"),
            Some(&bin[..]),
            "texture bufferView out of bounds",
        ),
    ] {
        assert_eq!(texture_bytes(source, blob).err().unwrap(), want);
    }
}

#[test]
fn textures_take_the_basis_source() {
    let mut doc = json(
        r#"{"textures":[{"extensions":{"KHR_texture_basisu":{"source":3}}},{"source":1}],
            "extensionsUsed":["KHR_texture_basisu"],"extensionsRequired":["KHR_texture_basisu"]}"#,
    );
    preprocess_basisu(&mut doc);
    let textures = doc.get("textures").unwrap();
    assert_eq!(textures.item(0).unwrap().get("source").unwrap().as_u64(), Some(3));
    assert_eq!(textures.item(1).unwrap().get("source").unwrap().as_u64(), Some(1));
    assert!(!memmem(&doc.write().unwrap(), b"KHR_texture_basisu"));
}

#[test]
fn resident_cost_counts_decoded_buffers_not_raw_len() {
    let items =
        vec![ItemSize::Mesh { attributes: vec![36, 24], indices: IndexSize::U32(3) }];
    assert_eq!(resident_cost_bytes(&items), 36 + 24 + 12);
    let items = vec![
        ItemSize::Mesh { attributes: vec![36], indices: IndexSize::U16(3) },
        ItemSize::Mesh { attributes: vec![], indices: IndexSize::Absent },
        ItemSize::Records { count: 32, size: 64 },
    ];
    assert_eq!(resident_cost_bytes(&items), 36 + 6 + 32 * 64);
}

#[test]
fn walks_draw_parents_before_children() {
    let node = |mesh, children: &[usize]| OutlineNode { mesh, children: children.to_vec() };
    let mut o = Outline {
        default_scene: None,
        scenes: vec![vec![2], vec![0]],
        nodes: vec![node(Some(0), &[]), node(Some(1), &[0]), node(Some(0), &[1, 0])],
        modes: vec![vec![4, 1], vec![0, 5]],
    };
    let list = |o: &Outline, points: bool| -> Vec<(Vec<usize>, usize, usize)> {
        draw_items(o, points)
            .unwrap()
            .into_iter()
            .map(|d| (d.transform, d.mesh, d.primitive))
            .collect()
    };
    assert_eq!(
        list(&o, true),
        vec![
            (vec![2], 0, 0),
            (vec![2, 1], 1, 0),
            (vec![2, 1, 0], 0, 0),
            (vec![2, 0], 0, 0),
        ]
    );
    assert_eq!(list(&o, false).len(), 3);
    o.default_scene = Some(1);
    assert_eq!(list(&o, true), vec![(vec![0], 0, 0)]);
    o.nodes[0].children.push(0);
    assert!(draw_items(&o, true).is_none(), "a cycle");
    o.default_scene = None;
    o.scenes.clear();
    assert!(list(&o, true).is_empty());
}

/// What a host gets of a tile.
struct Tile {
    glb: Vec<u8>,
    items: Vec<(Vec<usize>, usize, usize)>,
    rtc: Option<Vec<f64>>,
    copyright: Option<String>,
    /// Whether the tile was rewritten here.
    inline: bool,
}

fn numbers(v: &Option<Vec<serde_json::Number>>) -> Option<Vec<f64>> {
    v.as_ref().map(|v| v.iter().map(|n| n.as_f64().unwrap()).collect())
}

fn drawn(glb: &[u8]) -> Vec<(Vec<usize>, usize, usize)> {
    decode_scene(glb, true)
        .expect("decode")
        .into_iter()
        .map(|d| (d.transform, d.mesh, d.primitive))
        .collect()
}

/// Decodes a tile of the meshopt fixture, after the reply of a host.
fn decode_tile_with(
    bytes: &[u8],
    georeferenced: bool,
    reply: Option<Result<Option<PreparedTile>, DecodeError>>,
) -> Tile {
    if let Some(reply) = reply {
        if let HookOutcome::Prepared(p) = after_hook(reply) {
            return Tile {
                items: drawn(&p.glb),
                glb: p.glb,
                rtc: numbers(&p.rtc_center),
                copyright: p.copyright,
                inline: false,
            };
        }
    }
    let Ok(DecodeStart::Rewrite(work)) = begin_decode(bytes, georeferenced, true) else {
        panic!("the document is rewritten");
    };
    let (rtc, copyright) = (numbers(&work.rtc_center), work.copyright.clone());
    let Ok(RewrittenTile::Plain { glb, .. }) =
        rewrite_tile(bytes, work, &meshopt_views(), None, true)
    else {
        panic!("plain glTF comes out");
    };
    Tile { items: drawn(&glb), glb, rtc, copyright, inline: true }
}

fn assert_tiles_equal(a: &Tile, b: &Tile) {
    assert_eq!(a.glb, b.glb);
    assert_eq!(a.items, b.items);
    assert_eq!(a.rtc, b.rtc);
    assert_eq!(a.copyright, b.copyright);
}

#[test]
fn hook_path_matches_inline_on_meshopt_fixture() {
    for (glb, geo) in [(combined_fixture(), true), (base64(MESHOPT), false)] {
        let inline = decode_tile_with(&glb, geo, None);
        let reply = prepare_tile(&glb, geo, None, &meshopt_views());
        let hooked = decode_tile_with(&glb, geo, Some(reply));
        assert_tiles_equal(&inline, &hooked);
        assert!(!hooked.inline, "preparing happened elsewhere");
    }
}

#[test]
fn declining_hook_falls_back_inline() {
    let glb = combined_fixture();
    let inline = decode_tile_with(&glb, true, None);
    let fallen = decode_tile_with(&glb, true, Some(Ok(None)));
    assert_tiles_equal(&inline, &fallen);
    assert!(fallen.inline, "prepared on this side");
    assert!(matches!(after_hook(Ok(None)), HookOutcome::Inline { failure: None }));
}

#[test]
fn erroring_hook_falls_back_inline() {
    let broken = || Err(DecodeError::from("canned hook failure".to_string()));
    let glb = base64(MESHOPT);
    let inline = decode_tile_with(&glb, false, None);
    let fallen = decode_tile_with(&glb, false, Some(broken()));
    assert_tiles_equal(&inline, &fallen);
    let HookOutcome::Inline { failure: Some(e) } = after_hook(broken()) else {
        panic!("never fatal");
    };
    assert_eq!(e.message, "canned hook failure");
}

#[test]
fn decode_tile_extracts_planetary_node_matrix() {
    let center = [-2_398_029.177_060_164, 3_361_082.915_181_850_5, 2_398_029.177_060_164_5];
    let plain = tiny_glb_with(
        r#","copyright":"Google""#,
        r#","extensionsUsed":["KHR_materials_unlit"],"extensionsRequired":["KHR_materials_unlit"],
            "materials":[{"pbrMetallicRoughness":{"baseColorFactor":[1.0,1.0,1.0,1.0]},
                "extensions":{"KHR_materials_unlit":{}}}]"#,
    );
    let (j, bin) = split_glb(&plain).unwrap();
    let text = String::from_utf8(j.to_vec()).unwrap();
    let text = text.replace(
        r#""translation":[0.0,2.0,0.0]"#,
        &format!(
            r#""matrix":[1,0,0,0,0,0,-1,0,0,1,0,0,{:?},{:?},{:?},1]"#,
            center[0], center[1], center[2]
        ),
    );
    let text = text.replace(r#""mode":4}"#, r#""mode":4,"material":0}"#);
    let glb = assemble_glb(text.as_bytes(), bin.unwrap());

    let Ok(DecodeStart::Rewrite(work)) = begin_decode(&glb, true, true) else {
        panic!("the document is parsed");
    };
    assert!(work.wants_offset(true));
    let mut moved = work.json.copy();
    let roots = planetary_roots(&moved).expect("roots");
    assert_eq!(roots, vec![0]);
    let (x, y, z) = root_translation(&moved, 0);
    let at: Vec<f64> = [x, y, z].map(|n| n.unwrap().as_f64().unwrap()).to_vec();
    for k in 0..3 {
        assert!((at[k] - center[k]).abs() < 1e-6, "planetary offset extracted: {at:?}");
    }
    move_root(&mut moved, 0, json("0.0"), json("0.0"), json("0.0"));
    let numbers_of =
        at.iter().map(|v| serde_json::Number::from_f64(*v).unwrap()).collect::<Vec<_>>();
    let work = work.rebase(moved, numbers_of);
    assert_eq!(numbers(&work.rtc_center), Some(at));
    assert_eq!(work.copyright.as_deref(), Some("Google"));
    let Ok(RewrittenTile::Plain { glb, .. }) = rewrite_tile(&glb, work, &Vec::new(), None, true)
    else {
        panic!("plain glTF comes out");
    };
    assert_eq!(drawn(&glb), vec![(vec![0], 0, 0)]);
    let file = gltf::Gltf::from_slice(&glb).unwrap();
    let m = file.nodes().next().unwrap().transform().matrix();
    assert_eq!(&m[3][..3], &[0.0; 3], "tile-local now");
    assert!((m[1][2] - (-1.0)).abs() < 1e-6, "rotation preserved");
    let mesh = file.meshes().next().unwrap();
    let primitive = mesh.primitives().next().unwrap();
    assert!(primitive.material().unlit(), "KHR_materials_unlit decoded");
}

#[test]
fn memmem_finds_a_run() {
    assert!(memmem(b"abcd", b"bc"));
    assert!(!memmem(b"abcd", b"cb"));
}

fn raw(positions: Option<Vec<[f32; 3]>>) -> RawPrimitive {
    RawPrimitive {
        positions: positions.map(|p| p.into_iter().map(|v| v.map(f32::to_bits)).collect()),
        normals: None,
        uvs: None,
        colors: None,
        indices: Some(vec![1, 0, 2]),
    }
}

fn corners() -> Option<Vec<[f32; 3]>> {
    Some(vec![[0.0; 3], [1.0, 0.0, 0.0], [0.0, 1.0, 0.0]])
}

#[test]
fn primitives_need_positions_and_readable_ids() {
    let err = assemble_primitive(raw(None), Err("bad ids".to_string())).err().unwrap();
    assert_eq!(err, "primitive has no POSITION (or buffer is an external URI)");
    let err = assemble_primitive(raw(corners()), Err("bad ids".to_string())).err().unwrap();
    assert_eq!(err, "bad ids");
    let err = assemble_points(raw(None)).unwrap_err();
    assert_eq!(err, "points primitive has no POSITION (or buffer is an external URI)");
}

#[test]
fn features_ride_a_second_texture_set() {
    let plain = assemble_primitive(raw(corners()), Ok(None)).ok().unwrap();
    assert!(plain.uvs.is_none() && plain.features.is_none());
    let ids = FeatureIds {
        read: vec![Component::F32(7.0f32.to_bits()), Component::U8(9, false)],
        rounded: vec![7, 9],
    };
    let m = assemble_primitive(raw(corners()), Ok(Some(ids))).ok().unwrap();
    assert_eq!(m.uvs, Some(vec![[0, 0]; 3]), "the first set is there too");
    let f = m.features.unwrap();
    assert_eq!(f.of_triangle, vec![9]);
    assert_eq!(f.of_vertex.len(), 3);
    assert!(matches!(f.of_vertex[2], Component::F32(0)));
    // A set that was read stays.
    let ids = FeatureIds { read: Vec::new(), rounded: Vec::new() };
    let with = RawPrimitive { uvs: Some(vec![[1, 2]; 3]), ..raw(corners()) };
    let m = assemble_primitive(with, Ok(Some(ids))).ok().unwrap();
    assert_eq!(m.uvs, Some(vec![[1, 2]; 3]));
    assert_eq!(m.features.unwrap().of_triangle, vec![0]);
}

#[test]
fn points_without_a_color_are_white() {
    let red = [1.0f32, 0.0, 0.0, 1.0].map(f32::to_bits);
    let cloud = RawPrimitive { colors: Some(vec![red]), ..raw(corners()) };
    let points = assemble_points(cloud).unwrap();
    assert_eq!(points.len(), 3);
    assert_eq!(points[0].color, red);
    assert_eq!(points[1].color, [1.0f32; 4].map(f32::to_bits));
    assert_eq!(points[1].position, [1.0f32, 0.0, 0.0].map(f32::to_bits));
    assert_eq!(f32::from_bits(points[2].size), -1.0);
}
