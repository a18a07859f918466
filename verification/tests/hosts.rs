use tiles3d::api::{anchor_for_each, TileFeaturePick, TilePriorityClass};
use tiles3d::credits::{add_line, add_lines, add_notice};
use tiles3d::fetch::{plan_open, ByteSource, ExplodedBase, OpenPlan};
use tiles3d::frame::Tiles3dConfig;
use tiles3d::spawn::{
    build_tile_cache, spawn_tile_entities, CachedItem, DecodedItem, TileFeatures,
};

fn strings(v: &[&str]) -> Vec<String> {
    v.iter().map(|s| s.to_string()).collect()
}

#[test]
fn features_fall_back_to_the_anchor() {
    let pick = TileFeaturePick::new(vec![0, 1, 2, 1], &strings(&["a", "", "c"]), "anchor");
    assert_eq!(pick.owner_of_feature, strings(&["a", "anchor", "c"]));
    assert_eq!(pick.owner_of(3).map(String::as_str), Some("anchor"));
    assert_eq!(pick.owner_of(2).map(String::as_str), Some("c"));
    assert!(pick.owner_of(4).is_none());
    assert_eq!(anchor_for_each("x", 2), strings(&["x", "x"]));
    assert_eq!(TilePriorityClass::default().0, 1);
    assert!(TilePriorityClass(0) < TilePriorityClass::default());
    let mut classes = vec![TilePriorityClass(2), TilePriorityClass(0), TilePriorityClass(1)];
    classes.sort();
    assert_eq!(classes, vec![TilePriorityClass(0), TilePriorityClass(1), TilePriorityClass(2)]);
}

#[test]
fn notices_are_split_and_kept_in_order() {
    let mut lines = Vec::new();
    add_notice(&mut lines, "Data B; Data A ;;\u{a0}\u{3000}; Data B");
    assert_eq!(lines, strings(&["Data A", "Data B"]));
    add_line(&mut lines, "Data AA");
    assert_eq!(lines, strings(&["Data A", "Data AA", "Data B"]));
    let mut all = strings(&["Data C"]);
    add_lines(&mut all, &lines);
    assert_eq!(all, strings(&["Data A", "Data AA", "Data B", "Data C"]));
    add_notice(&mut lines, "");
    assert_eq!(lines.len(), 3);
}

#[test]
fn tilesets_open_by_their_names() {
    assert!(matches!(
        plan_open("https://x/a.3tz?sig=1", false),
        OpenPlan::Archive(ByteSource::Http(u)) if u == "https://x/a.3tz?sig=1"
    ));
    assert!(matches!(
        plan_open("a/b.3tz", false),
        OpenPlan::Archive(ByteSource::File(p)) if p == "a/b.3tz"
    ));
    assert!(matches!(
        plan_open("a/b.3tz", true),
        OpenPlan::Archive(ByteSource::Http(u)) if u == "a/b.3tz"
    ));
    assert!(matches!(
        plan_open("https://x/a/tileset.json", false),
        OpenPlan::Exploded(ExplodedBase::Url(u)) if u == "https://x/a"
    ));
    assert!(matches!(
        plan_open("demo//", false),
        OpenPlan::Exploded(ExplodedBase::Dir(d)) if d == "demo"
    ));
}

#[test]
fn content_is_kept_and_spawned_item_by_item() {
    let items = || {
        vec![
            DecodedItem::Mesh {
                mesh: 1,
                material: 2,
                transform: 3,
                features: Some(TileFeatures {
                    feature_of_triangle: vec![0, 1],
                    node_of_feature: strings(&["p", "q"]),
                }),
            },
            DecodedItem::Points { cloud: 4, transform: 5 },
            DecodedItem::Splat { cloud: 6, transform: 7 },
        ]
    };
    let resolved = vec![Some(strings(&["twin", ""])), None, None];
    let owner = Some("anchor".to_string());
    let cache = build_tile_cache(items(), &owner, &resolved);
    let CachedItem::Mesh { mesh: 1, pick: Some(pick), .. } = &cache[0] else {
        panic!("a mesh with its picking");
    };
    assert_eq!(pick.owner_of_feature, strings(&["twin", "anchor"]));
    assert!(matches!(cache[1], CachedItem::Points { cloud: 4, transform: 5 }));
    assert!(matches!(cache[2], CachedItem::Splat { cloud: 6, transform: 7 }));

    let plan = spawn_tile_entities(9, "demo", &owner, 4, &cache);
    assert_eq!(plan.name, "Tiles3dTile(demo #4)");
    assert_eq!(plan.children.len(), 3);
    assert!(plan.children.iter().all(|c| c.set_id == 9 && c.owner.as_deref() == Some("anchor")));
    assert!(plan.children[0].has_pick && !plan.children[1].has_pick);

    // Without an owner, or without a host that resolves, nothing is picked.
    let cache = build_tile_cache(items(), &None, &resolved);
    assert!(matches!(cache[0], CachedItem::Mesh { pick: None, .. }));
    let cache = build_tile_cache(items(), &owner, &vec![None, None, None]);
    assert!(matches!(cache[0], CachedItem::Mesh { pick: None, .. }));
}

#[test]
fn defaults_are_those_of_the_documentation() {
    let c = Tiles3dConfig::default();
    assert_eq!(f64::from_bits(c.sse_threshold_px), 10.0);
    assert_eq!(f64::from_bits(c.detail_falloff_m), 2000.0);
    assert_eq!(f32::from_bits(c.external_pressure), 1.0);
    assert_eq!(c.max_concurrent_loads, 16);
    assert_eq!(c.memory_budget_bytes, 0);
}
