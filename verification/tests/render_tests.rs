use tui_rsx::cache::WidgetCache;
use tui_rsx::compile::CompileError;
use tui_rsx::constraint::Constraint;
use tui_rsx::geometry::Rect;
use tui_rsx::node::{LeafData, Node};
use tui_rsx::components::popup;
use tui_rsx::render::render;

const KINDS: u32 = 3;

fn full() -> Rect {
    Rect { x: 0, y: 0, width: 10, height: 10 }
}

#[test]
fn single_leaf_paints_the_full_region() {
    let mut cache = WidgetCache::new();
    let tree = Node::leaf(0, 11, 0);
    let (builds, paints) = render(&tree, &mut cache, KINDS, full()).unwrap();
    assert_eq!(builds.len(), 1);
    assert_eq!(builds[0].instance, 0);
    assert_eq!(builds[0].kind, 0);
    assert_eq!(builds[0].props, 11);
    assert_eq!(builds[0].state, None);
    assert_eq!(paints.len(), 1);
    assert_eq!(paints[0].instance, 0);
    assert_eq!(paints[0].region, full());
}

#[test]
fn column_scenario_length_two_then_rest() {
    // A root column with two leaves, Length(2) and Min(0), over height 10:
    // the first child gets height 2, the second height 8.
    let mut cache = WidgetCache::new();
    let tree = Node::column(vec![
        Node::leaf(0, 1, 0).with_constraint(Constraint::Length(2)),
        Node::leaf(0, 2, 1).with_constraint(Constraint::Min(0)),
    ]);
    let (_, paints) = render(&tree, &mut cache, KINDS, full()).unwrap();
    assert_eq!(paints.len(), 2);
    assert_eq!(paints[0].region, Rect { x: 0, y: 0, width: 10, height: 2 });
    assert_eq!(paints[1].region, Rect { x: 0, y: 2, width: 10, height: 8 });
}

#[test]
fn overlay_children_get_the_full_region_in_order() {
    // Both overlay children are painted over the whole 10x10 region, the
    // first before the second.
    let mut cache = WidgetCache::new();
    let tree = Node::overlay(vec![Node::leaf(0, 1, 0), Node::leaf(0, 2, 1)]);
    let (_, paints) = render(&tree, &mut cache, KINDS, full()).unwrap();
    assert_eq!(paints.len(), 2);
    assert_eq!(paints[0].region, full());
    assert_eq!(paints[1].region, full());
    assert_ne!(paints[0].instance, paints[1].instance);
    assert_eq!(paints[0].instance, 0);
    assert_eq!(paints[1].instance, 1);
}

#[test]
fn second_pass_reuses_instances_and_paints_identically() {
    let mut cache = WidgetCache::new();
    let tree = Node::column(vec![
        Node::leaf(0, 1, 0).with_constraint(Constraint::Length(2)),
        Node::row(vec![Node::leaf(1, 2, 1), Node::leaf(2, 3, 2)]),
    ]);
    let (builds1, paints1) = render(&tree, &mut cache, KINDS, full()).unwrap();
    assert_eq!(builds1.len(), 3);
    // The tree is rebuilt fresh for the next pass, as every pass rebuilds it.
    let tree2 = Node::column(vec![
        Node::leaf(0, 1, 0).with_constraint(Constraint::Length(2)),
        Node::row(vec![Node::leaf(1, 2, 1), Node::leaf(2, 3, 2)]),
    ]);
    let (builds2, paints2) = render(&tree2, &mut cache, KINDS, full()).unwrap();
    assert!(builds2.is_empty());
    assert_eq!(paints2, paints1);
    assert_eq!(cache.len(), 3);
}

#[test]
fn unkeyed_rows_shrink_keeps_old_entries() {
    // Five leaf rows built from a loop without explicit keys: the tree
    // builder hands each iteration the next call-site counter. After the
    // list shrinks to three, rows four and five stay cached (nothing is
    // ever evicted) while rows one to three reuse their instances.
    let mut cache = WidgetCache::new();
    let rows: Vec<Node> = (0..5).map(|i| Node::leaf(0, i as u64, i)).collect();
    let (builds1, paints1) = render(&Node::column(rows), &mut cache, KINDS, full()).unwrap();
    assert_eq!(builds1.len(), 5);
    assert_eq!(cache.len(), 5);
    let shrunk: Vec<Node> = (0..3).map(|i| Node::leaf(0, i as u64, i)).collect();
    let (builds2, paints2) = render(&Node::column(shrunk), &mut cache, KINDS, full()).unwrap();
    assert!(builds2.is_empty());
    assert_eq!(cache.len(), 5);
    let instances: Vec<u64> = paints2.iter().map(|p| p.instance).collect();
    assert_eq!(instances, vec![0, 1, 2]);
    assert_eq!(
        paints1.iter().map(|p| p.instance).collect::<Vec<_>>(),
        vec![0, 1, 2, 3, 4]
    );
}

#[test]
fn unkeyed_identical_sites_collide() {
    // Two code-identical leaves with the same call-site counter and no key
    // share one identity, and so one cached widget: the documented tradeoff
    // of positional identities.
    let mut cache = WidgetCache::new();
    let tree = Node::column(vec![Node::leaf(0, 1, 7), Node::leaf(0, 2, 7)]);
    let (builds, paints) = render(&tree, &mut cache, KINDS, full()).unwrap();
    assert_eq!(builds.len(), 1);
    assert_eq!(cache.len(), 1);
    assert_eq!(paints[0].instance, paints[1].instance);
}

#[test]
fn keyed_identical_sites_stay_apart() {
    let mut cache = WidgetCache::new();
    let rows: Vec<Node> = (0..5u8)
        .map(|i| Node::leaf(0, i as u64, 7).with_key(vec![b'0' + i]))
        .collect();
    let (builds, paints) = render(&Node::column(rows), &mut cache, KINDS, full()).unwrap();
    assert_eq!(builds.len(), 5);
    assert_eq!(cache.len(), 5);
    let mut instances: Vec<u64> = paints.iter().map(|p| p.instance).collect();
    instances.dedup();
    assert_eq!(instances.len(), 5);
}

#[test]
fn nested_rows_and_columns_tile() {
    let mut cache = WidgetCache::new();
    let tree = Node::column(vec![
        Node::row(vec![Node::leaf(0, 1, 0), Node::leaf(0, 2, 1)])
            .with_constraint(Constraint::Length(4)),
        Node::leaf(0, 3, 2).with_constraint(Constraint::Min(0)),
    ]);
    let (_, paints) = render(&tree, &mut cache, KINDS, full()).unwrap();
    assert_eq!(paints.len(), 3);
    assert_eq!(paints[0].region, Rect { x: 0, y: 0, width: 5, height: 4 });
    assert_eq!(paints[1].region, Rect { x: 5, y: 0, width: 5, height: 4 });
    assert_eq!(paints[2].region, Rect { x: 0, y: 4, width: 10, height: 6 });
}

#[test]
fn inline_block_compiles_as_a_leaf() {
    let mut cache = WidgetCache::new();
    let tree = Node::column(vec![Node::inline_block(LeafData {
        kind: 1,
        props: 9,
        state: None,
        site: 4,
        key: None,
    })]);
    let (builds, paints) = render(&tree, &mut cache, KINDS, full()).unwrap();
    assert_eq!(builds.len(), 1);
    assert_eq!(builds[0].kind, 1);
    assert_eq!(builds[0].props, 9);
    assert_eq!(paints.len(), 1);
}

#[test]
fn stateful_leaf_hands_its_state_to_the_build() {
    let mut cache = WidgetCache::new();
    let tree = Node::leaf(2, 5, 0).with_state(77);
    let (builds, _) = render(&tree, &mut cache, KINDS, full()).unwrap();
    assert_eq!(builds[0].state, Some(77));
}

#[test]
fn unknown_kind_is_reported_with_its_path() {
    let mut cache = WidgetCache::new();
    let tree = Node::column(vec![Node::leaf(0, 1, 0), Node::leaf(9, 2, 1)]);
    let err = render(&tree, &mut cache, KINDS, full()).unwrap_err();
    assert_eq!(err, CompileError::UnknownKind { path: vec![1], kind: 9 });
}

#[test]
fn invalid_key_is_reported_with_its_path() {
    let mut cache = WidgetCache::new();
    let tree = Node::column(vec![Node::row(vec![
        Node::leaf(0, 1, 0).with_key(b"nope".to_vec()),
    ])]);
    let err = render(&tree, &mut cache, KINDS, full()).unwrap_err();
    assert_eq!(err, CompileError::InvalidKey { path: vec![0, 0] });
}

#[test]
fn failed_pass_keeps_earlier_constructions_cached() {
    let mut cache = WidgetCache::new();
    let tree = Node::column(vec![Node::leaf(0, 1, 0), Node::leaf(9, 2, 1)]);
    assert!(render(&tree, &mut cache, KINDS, full()).is_err());
    // The pass was abandoned before painting, but cache entries are never
    // evicted, so the first leaf's construction stays recorded.
    assert_eq!(cache.len(), 1);
}

#[test]
fn zero_sized_regions_still_emit_their_paint_calls() {
    let mut cache = WidgetCache::new();
    let tree = Node::column(vec![
        Node::leaf(0, 1, 0).with_constraint(Constraint::Length(10)),
        Node::leaf(0, 2, 1).with_constraint(Constraint::Length(5)),
    ]);
    let (_, paints) = render(&tree, &mut cache, KINDS, full()).unwrap();
    assert_eq!(paints.len(), 2);
    assert_eq!(paints[1].region.height, 0);
}

#[test]
fn popup_centres_its_content_over_a_backdrop() {
    let mut cache = WidgetCache::new();
    let clear = LeafData { kind: 0, props: 0, state: None, site: 100, key: None };
    let content = Node::leaf(1, 5, 101);
    let tree = popup(50, 50, clear, content);
    let (builds, paints) = render(&tree, &mut cache, KINDS, full()).unwrap();
    assert_eq!(builds.len(), 2);
    // Only the backdrop and the content paint; the spacers hold no widgets.
    assert_eq!(paints.len(), 2);
    let centre = Rect { x: 3, y: 3, width: 5, height: 5 };
    assert_eq!(paints[0].region, centre);
    assert_eq!(paints[1].region, centre);
    // The backdrop goes first, so the content paints over it.
    assert_eq!(paints[0].instance, builds[0].instance);
    assert_eq!(builds[0].kind, 0);
    assert_eq!(builds[1].kind, 1);
}

#[test]
fn equal_keys_at_one_site_share_an_instance() {
    let mut cache = WidgetCache::new();
    let tree = Node::column(vec![
        Node::leaf(0, 1, 3).with_key(b"5".to_vec()),
        Node::leaf(0, 2, 3).with_key(b"5".to_vec()),
    ]);
    let (builds, paints) = render(&tree, &mut cache, KINDS, full()).unwrap();
    assert_eq!(builds.len(), 1);
    assert_eq!(paints[0].instance, paints[1].instance);
}
