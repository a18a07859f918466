use tiles3d::decode::DecodeStage;
use tiles3d::extract::{extract_materials, extract_tile_meshes, node_matrix, LocalTransform};
use tiles3d::glb::{
    assemble_glb, extract_would_decline, memmem, prepare_would_decline, split_glb, Marks,
};
use tiles3d::json::Json;
use tiles3d::prepare::{prepare_tile, prepare_tile_extracting, PreparedTile};
use tiles3d::rewrite::strip_handled_extensions;

fn json(text: &str) -> Json {
    Json::parse(text.as_bytes()).unwrap()
}

fn prepare(bytes: &[u8], georeferenced: bool) -> Result<Option<PreparedTile>, String> {
    prepare_tile(bytes, georeferenced, None, &Vec::new()).map_err(|e| e.to_string())
}

fn floats(v: &[serde_json::Number]) -> Vec<f64> {
    v.iter().map(|n| n.as_f64().unwrap()).collect()
}

#[test]
fn declines_textured_documents() {
    let doc = json(
        r#"{"images":[{"mimeType":"image/png","bufferView":0}],"scenes":[{"nodes":[0]}]}"#,
    );
    assert!(extract_tile_meshes(&doc, None).unwrap().is_none());
}

#[test]
fn declines_surviving_required_extension() {
    let doc = json(r#"{"extensionsRequired":["KHR_something_new"]}"#);
    assert!(extract_tile_meshes(&doc, None).unwrap().is_none());
}

#[test]
fn empty_document_extracts_to_no_primitives() {
    let out = extract_tile_meshes(&json("{}"), None).unwrap().expect("accepted");
    assert!(out.primitives.is_empty() && out.materials.is_empty());
}

fn doc_with(nodes: &str, prim: &str, more: &str) -> Json {
    json(&format!(
        r#"{{"scenes":[{{"nodes":[0]}}],"nodes":[{nodes}],"meshes":[{{"primitives":[{prim}]}}],
            "accessors":[{{"bufferView":0,"componentType":5126,"count":3,"type":"VEC3"}},
                         {{"bufferView":0,"componentType":5123,"count":3,"type":"VEC3"}}],
            "bufferViews":[{{"buffer":0,"byteOffset":0,"byteLength":36}}]{more}}}"#
    ))
}

fn doc(prim: &str) -> Json {
    doc_with(r#"{"mesh":0}"#, prim, "")
}

#[test]
fn declines_non_triangle_and_non_float_attributes() {
    let bin = vec![0u8; 36];
    let points = doc(r#"{"mode":0,"attributes":{"POSITION":0}}"#);
    assert!(extract_tile_meshes(&points, Some(&bin)).unwrap().is_none(), "POINTS declines");
    let quantized = doc(r#"{"attributes":{"POSITION":1}}"#);
    assert!(
        extract_tile_meshes(&quantized, Some(&bin)).unwrap().is_none(),
        "u16 POSITION declines"
    );
    let ok = doc(r#"{"attributes":{"POSITION":0}}"#);
    let out =
        extract_tile_meshes(&ok, Some(&bin)).unwrap().expect("plain triangles extract");
    assert_eq!(out.primitives.len(), 1);
    assert_eq!(out.primitives[0].positions.len(), 3);
}

#[test]
fn malformed_shapes_decline_instead_of_guessing() {
    let bin = vec![0u8; 36];
    let prim = r#"{"attributes":{"POSITION":0}}"#;
    for (what, prim) in [
        ("material index out of range", r#"{"attributes":{"POSITION":0},"material":7}"#),
        ("non-integer mode", r#"{"attributes":{"POSITION":0},"mode":"TRIANGLES"}"#),
        ("non-integer material", r#"{"attributes":{"POSITION":0},"material":"red"}"#),
    ] {
        let doc = doc_with(r#"{"mesh":0}"#, prim, r#","materials":[{}]"#);
        assert!(
            extract_tile_meshes(&doc, Some(&bin)).unwrap().is_none(),
            "{what} must decline"
        );
    }
    for (what, node) in [
        (
            "15-element matrix",
            r#"{"mesh":0,"matrix":[0.0,0.0,0.0,0.0,0.0,0.0,0.0,0.0,0.0,0.0,0.0,0.0,0.0,0.0,0.0]}"#,
        ),
        ("3-element rotation", r#"{"mesh":0,"rotation":[0.0,0.0,1.0]}"#),
        ("non-numeric translation", r#"{"mesh":0,"translation":["a",0,0]}"#),
        ("non-integer mesh", r#"{"mesh":"cube"}"#),
        ("non-array matrix", r#"{"mesh":0,"matrix":5}"#),
        ("non-array children", r#"{"mesh":0,"children":3}"#),
    ] {
        let doc = doc_with(node, prim, "");
        assert!(
            extract_tile_meshes(&doc, Some(&bin)).unwrap().is_none(),
            "{what} must decline"
        );
    }
    for (what, text) in [
        ("non-integer scene", r#"{"scene":"main"}"#),
        ("out-of-range scene", r#"{"scene":5,"scenes":[{"nodes":[]}]}"#),
        ("scene named with no scenes", r#"{"scene":0}"#),
        ("non-array scenes", r#"{"scenes":3}"#),
        ("scene without `nodes`", r#"{"scenes":[{}]}"#),
        ("non-array materials", r#"{"materials":3}"#),
    ] {
        assert!(
            extract_tile_meshes(&json(text), None).unwrap().is_none(),
            "{what} must decline"
        );
    }
    for (what, text) in [
        ("empty `scenes` list", r#"{"scenes":[]}"#),
        ("scene with an empty `nodes`", r#"{"scenes":[{"nodes":[]}]}"#),
    ] {
        assert!(
            extract_tile_meshes(&json(text), None).unwrap().is_some(),
            "{what} must still extract"
        );
    }
}

#[test]
fn material_defaults_are_the_gltf_defaults() {
    let doc = json(
        r#"{"materials":[{},{"doubleSided":true,"extensions":{"KHR_materials_unlit":{}},
            "pbrMetallicRoughness":{"baseColorFactor":[0.5,0.25,0.0,1.0],"metallicFactor":0.0}}]}"#,
    );
    let mats = extract_materials(&doc).expect("materials");
    // What is absent has the default of the format: white, metallic 1, rough 1.
    assert!(mats[0].base_color.is_none());
    assert!(mats[0].metallic.is_none(), "glTF default metallic is 1.0");
    assert!(mats[0].roughness.is_none());
    assert!(!mats[0].double_sided && !mats[0].unlit);
    assert_eq!(floats(mats[1].base_color.as_ref().unwrap()), [0.5, 0.25, 0.0, 1.0]);
    assert!(mats[1].double_sided && mats[1].unlit);
    assert_eq!(mats[1].metallic.as_ref().unwrap().as_f64(), Some(0.0));
    assert!(mats[1].roughness.is_none());
}

#[test]
fn node_placements_keep_their_numbers() {
    match node_matrix(&json(r#"{"translation":[10.0,0.0,0.0]}"#)).unwrap() {
        LocalTransform::Trs { translation, rotation, scale } => {
            assert_eq!(floats(&translation.unwrap()), [10.0, 0.0, 0.0]);
            assert!(rotation.is_none() && scale.is_none());
        }
        LocalTransform::Matrix(_) => panic!("no matrix was given"),
    }
    let sixteen: Vec<String> = (0..16).map(|i| i.to_string()).collect();
    let text = format!(r#"{{"matrix":[{}],"translation":[1,2,3]}}"#, sixteen.join(","));
    match node_matrix(&json(&text)).unwrap() {
        LocalTransform::Matrix(m) => {
            assert_eq!(floats(&m), (0..16).map(f64::from).collect::<Vec<_>>())
        }
        LocalTransform::Trs { .. } => panic!("the matrix wins"),
    }
    assert!(node_matrix(&json(r#"{"scale":[1.0,2.0]}"#)).is_none());
}

#[test]
fn declines_draco_and_splat_markers() {
    let draco = br#"{"extensionsRequired":["KHR_draco_mesh_compression"]}"#;
    assert!(prepare(draco, false).unwrap().is_none());
    let splat = br#"{"extensionsUsed":["KHR_gaussian_splatting"]}"#;
    assert!(prepare(splat, false).unwrap().is_none());
}

#[test]
fn would_decline_agrees_with_prepare_tile() {
    for (text, geo) in [
        (r#"{"extensionsUsed":["KHR_draco_mesh_compression"]}"#, true),
        (r#"{"extensionsUsed":["KHR_gaussian_splatting"]}"#, false),
        (r#"{"asset":{"version":"2.0"}}"#, false),
    ] {
        let b = text.as_bytes();
        assert!(prepare_would_decline(b, geo), "should decline: {text} ({geo})");
        if let Some(p) = prepare(b, geo).expect("prepare") {
            assert_eq!(p.glb, b, "declined but prepare_tile rewrote it");
            assert!(p.features.is_none() && p.rtc_center.is_none());
        }
    }
    for (text, geo) in [
        (r#"{"asset":{"version":"2.0"}}"#, true),
        (r#"{"extensionsUsed":["EXT_meshopt_compression"]}"#, false),
        (r#"{"extensionsUsed":["EXT_mesh_features"]}"#, false),
        (r#"{"extensions":{"CESIUM_RTC":{"center":[1,2,3]}}}"#, false),
    ] {
        assert!(
            !prepare_would_decline(text.as_bytes(), geo),
            "should prepare: {text} ({geo})"
        );
    }
}

#[test]
fn extract_would_decline_still_rejects_textured_vanilla_tiles() {
    let plain = br#"{"asset":{"version":"2.0"},"meshes":[]}"#;
    assert!(prepare_would_decline(plain, false));
    assert!(!extract_would_decline(plain, false), "S5 dispatches this");

    for text in [
        r#"{"asset":{"version":"2.0"},"images":[{"mimeType":"image/png"}]}"#,
        r#"{"asset":{"version":"2.0"},"textures":[{"source":0}]}"#,
        r#"{"extensionsUsed":["KHR_draco_mesh_compression"]}"#,
        r#"{"extensionsUsed":["KHR_gaussian_splatting"]}"#,
        r#"{"extensionsRequired":["KHR_mesh_quantization"],"meshes":[]}"#,
    ] {
        assert!(extract_would_decline(text.as_bytes(), false), "should decline: {text}");
    }
    let basisu =
        br#"{"extensionsUsed":["KHR_texture_basisu"],"images":[{"mimeType":"image/ktx2"}]}"#;
    assert!(!extract_would_decline(basisu, false));

    let meshopt = br#"{"extensionsUsed":["EXT_meshopt_compression"],"extensionsRequired":["EXT_meshopt_compression"]}"#;
    assert!(!extract_would_decline(meshopt, false), "meshopt dispatches");
    assert!(!extract_would_decline(meshopt, true), "meshopt dispatches");
}

#[test]
fn vanilla_tile_passes_through_byte_identical() {
    let glb = assemble_glb(br#"{"asset":{"version":"2.0"}}"#, &[]);
    let p = prepare(&glb, false).unwrap().expect("accepted");
    assert_eq!(p.glb, glb);
    assert!(p.rtc_center.is_none() && p.copyright.is_none() && p.features.is_none());
}

#[test]
fn bad_feature_id_accessor_is_an_error_not_silent_loss() {
    let text = r#"{
        "extensions":{"EXT_structural_metadata":{"propertyTables":[{"count":0}]}},
        "meshes":[{"primitives":[{
            "extensions":{"EXT_mesh_features":{"featureIds":[{"attribute":0}]}},
            "attributes":{"_FEATURE_ID_0":7}
        }]}]
    }"#;
    let glb = assemble_glb(text.as_bytes(), &[]);
    let Err(err) = prepare(&glb, false) else {
        panic!("a bad feature accessor must fail the tile, not lose picking");
    };
    assert!(err.contains("accessor 7"), "{err}");
}

#[test]
fn extracts_rtc_and_copyright_and_strips() {
    let text = r#"{"asset":{"version":"2.0","copyright":"A;B"},
        "extensions":{"CESIUM_RTC":{"center":[1.0,2.5,-3.0]}},
        "extensionsRequired":["CESIUM_RTC"]}"#;
    let glb = assemble_glb(text.as_bytes(), &[]);
    let p = prepare(&glb, false).unwrap().expect("accepted");
    assert_eq!(floats(p.rtc_center.as_ref().unwrap()), [1.0, 2.5, -3.0]);
    assert_eq!(p.copyright.as_deref(), Some("A;B"));
    let (j, _) = split_glb(&p.glb).unwrap();
    assert!(!memmem(j, b"CESIUM_RTC"), "handled extension stripped");
}

#[test]
fn unparsable_tiles_report_their_json() {
    let err = prepare_tile(b"{\"CESIUM_RTC\"", false, None, &Vec::new()).err().unwrap();
    assert_eq!(err.stage, DecodeStage::Content);
    assert!(err.message.starts_with("tile json: "), "{}", err.message);
}

#[test]
fn extraction_empties_the_container() {
    let plain = br#"{"asset":{"version":"2.0"},"meshes":[]}"#;
    let p = prepare_tile_extracting(plain, false, None, &Vec::new()).unwrap().unwrap();
    assert!(p.glb.is_empty());
    assert!(p.meshes.unwrap().primitives.is_empty());
    let textured = br#"{"asset":{"version":"2.0"},"images":[{"mimeType":"image/png"}]}"#;
    let p = prepare_tile_extracting(textured, false, None, &Vec::new()).unwrap().unwrap();
    assert_eq!(p.glb, textured);
    assert!(p.meshes.is_none());
}

#[test]
fn marks_come_from_the_raw_text() {
    let m = Marks::scan(b"{\"note\":\"CESIUM_RTC EXT_mesh_features\"}");
    assert!(m.rtc && m.features);
    assert!(!m.splat && !m.draco && !m.copyright && !m.meshopt && !m.basisu);
    assert!(!m.vanilla());
    assert!(Marks::scan(b"{}").vanilla());
}

#[test]
fn containers_come_apart_as_they_were_put_together() {
    let glb = assemble_glb(b"{\"a\":1}", b"\x01\x02\x03");
    let (j, b) = split_glb(&glb).unwrap();
    assert_eq!(j, b"{\"a\":1} ");
    assert_eq!(b.unwrap(), b"\x01\x02\x03\x00");
    let (j, b) = split_glb(b"{}").unwrap();
    assert_eq!(j, b"{}");
    assert!(b.is_none());
    assert!(split_glb(b"glTF\x02\x00\x00\x00").is_err());
}

#[test]
fn handled_extensions_leave_the_lists() {
    let mut doc = json(
        r#"{"extensionsUsed":["CESIUM_RTC","KHR_materials_unlit"],
            "extensionsRequired":["CESIUM_RTC"],"extensions":{"CESIUM_RTC":{"center":[1,2,3]}}}"#,
    );
    strip_handled_extensions(&mut doc);
    let out = String::from_utf8(doc.write().unwrap()).unwrap();
    assert!(!out.contains("CESIUM_RTC"), "{out}");
    assert!(out.contains("KHR_materials_unlit"), "{out}");
    assert!(doc.get("extensionsRequired").is_none());
}
