use godswood::layout::Placement;
use godswood::node::{GodsnodePath, GodsnodeType, GodswoodMeta, RawNode};
use godswood::store::StoreProto;
use godswood::tree::GodswoodProto;

fn leaf(key: &str) -> RawNode {
    RawNode { key: key.to_string(), name: None, display_name: None, children: Vec::new() }
}

fn branch(key: &str, children: Vec<RawNode>) -> RawNode {
    RawNode { key: key.to_string(), name: None, display_name: None, children }
}

fn app(name: &str, children: Vec<RawNode>) -> RawNode {
    RawNode { key: String::new(), name: Some(name.to_string()), display_name: None, children }
}

fn built(raw: &RawNode) -> GodswoodProto {
    let mut wood = GodswoodProto::default(StoreProto::new());
    wood.parse(raw);
    wood.init_nodes();
    wood
}

fn sample() -> RawNode {
    app(
        "sample-application",
        vec![
            branch("service1", vec![branch("service5", vec![leaf("service6"), leaf("service7")])]),
            branch(
                "service2",
                vec![
                    branch("service10", vec![leaf("service21"), leaf("service22"), leaf("service23")]),
                    branch("service11", vec![]),
                ],
            ),
            branch("service4", vec![leaf("service3")]),
        ],
    )
}

fn meta_of(wood: &GodswoodProto, id: u64) -> (String, usize) {
    let node = wood.get_store().node(id);
    let (_, meta) = node.app_meta_map.last().unwrap();
    (meta.path.read(), meta.path.read_depth())
}

#[test]
fn path_append_counts_levels() {
    let mut p = GodsnodePath::new_path();
    assert_eq!(p.read(), "");
    assert_eq!(p.read_depth(), 0);
    p.append(&"app".to_string());
    p.append(&"a".to_string());
    assert_eq!(p.read(), ".app.a");
    assert_eq!(p.read_depth(), 2);
    let q = GodsnodePath::new(".x".to_string());
    assert_eq!(q.read(), ".x");
    assert_eq!(q.read_depth(), 1);
    assert_eq!(GodswoodMeta::new().path.read_depth(), 0);
}

#[test]
fn parse_app_name_cases() {
    assert_eq!(GodswoodMeta::parse_app_name(&".app.a.b".to_string()), Some("app".to_string()));
    assert_eq!(GodswoodMeta::parse_app_name(&".app".to_string()), Some("app".to_string()));
    assert_eq!(GodswoodMeta::parse_app_name(&"app.a".to_string()), None);
    assert_eq!(GodswoodMeta::parse_app_name(&".".to_string()), None);
    assert_eq!(GodswoodMeta::parse_app_name(&"..a".to_string()), None);
    assert_eq!(GodswoodMeta::parse_app_name(&"".to_string()), None);
}

#[test]
fn store_creation_defaults() {
    let mut store = StoreProto::new();
    let raw = leaf("x");
    let a = store.add_app_node(&raw);
    let b = store.add_node(&raw, "b".to_string());
    let labelled = RawNode { key: "c".to_string(), name: None, display_name: Some("Cee".to_string()), children: vec![] };
    let c = store.add_leaf_node(&"c".to_string(), &labelled);
    assert_eq!((a, b, c), (0, 1, 2));
    assert_eq!(store.len(), 3);
    assert_eq!(store.node(a).name, "new_application");
    assert_eq!(store.node(a).node_type, GodsnodeType::Root);
    assert_eq!(store.node(b).name, "b");
    assert_eq!(store.node(b).display_name, "new node");
    assert_eq!(store.node(b).node_type, GodsnodeType::Godsnode);
    assert_eq!(store.node(c).display_name, "Cee");
    assert_eq!(store.node(c).node_type, GodsnodeType::Leaf);
    assert_eq!(store.node(c).id, 2);
}

#[test]
fn index_last_writer_wins() {
    let mut store = StoreProto::new();
    let raw = leaf("x");
    store.add_node(&raw, "a".to_string());
    store.add_node(&raw, "b".to_string());
    assert_eq!(store.get_weak_node(&".p".to_string()), None);
    store.update_index(&".p".to_string(), 0);
    assert_eq!(store.get_weak_node(&".p".to_string()), Some(0));
    store.update_index(&".p".to_string(), 1);
    assert_eq!(store.get_weak_node(&".p".to_string()), Some(1));
    store.update_index(&".gone".to_string(), 7);
    assert_eq!(store.get_weak_node(&".gone".to_string()), None);
}

#[test]
fn builder_links_both_ways() {
    let raw = app("app", vec![branch("a", vec![leaf("c")]), leaf("b")]);
    let mut wood = GodswoodProto::default(StoreProto::new());
    wood.parse(&raw);
    let store = wood.get_store();
    assert_eq!(wood.get_root(), Some(0));
    assert_eq!(store.len(), 4);
    assert_eq!(store.node(0).children, vec![1, 3]);
    assert_eq!(store.node(1).name, "a");
    assert_eq!(store.node(1).children, vec![2]);
    assert_eq!(store.node(1).parents, vec![0]);
    assert_eq!(store.node(2).name, "c");
    assert_eq!(store.node(2).parents, vec![1]);
    assert_eq!(store.node(3).name, "b");
    assert_eq!(store.node(3).node_type, GodsnodeType::Godsnode);
    assert!(store.node(0).parents.is_empty());
    assert_eq!(wood.read_name(), "app");
}

#[test]
fn depths_follow_parents() {
    let wood = built(&sample());
    assert_eq!(wood.get_depth(), 4);
    let store = wood.get_store();
    assert_eq!(meta_of(&wood, 0), (".sample-application".to_string(), 1));
    for id in 0..store.len() as u64 {
        let (_, depth) = meta_of(&wood, id);
        for &kid in store.node(id).children.iter() {
            assert_eq!(meta_of(&wood, kid).1, depth + 1);
        }
    }
}

#[test]
fn table_lists_every_node_once() {
    let wood = built(&sample());
    let table = wood.get_nodes_by_depths();
    let names: Vec<Vec<String>> = table
        .iter()
        .map(|row| row.iter().map(|&id| wood.get_store().node(id).name.clone()).collect())
        .collect();
    assert_eq!(
        names,
        vec![
            vec!["sample-application"],
            vec!["service1", "service2", "service4"],
            vec!["service5", "service10", "service11", "service3"],
            vec!["service6", "service7", "service21", "service22", "service23"],
        ]
    );
    let mut all: Vec<u64> = table.iter().flatten().copied().collect();
    all.sort();
    assert_eq!(all, (0..13).collect::<Vec<u64>>());
}

#[test]
fn paths_resolve_to_their_nodes() {
    let wood = built(&sample());
    let store = wood.get_store();
    for id in 0..store.len() as u64 {
        let (path, _) = meta_of(&wood, id);
        assert_eq!(store.get_weak_node(&path), Some(id));
    }
    assert_eq!(meta_of(&wood, 4).0, ".sample-application.service1.service5.service7");
    assert_eq!(store.get_weak_node(&".sample-application.service2.service10".to_string()), Some(6));
    assert_eq!(store.get_weak_node(&".sample-application.nothing".to_string()), None);
    assert_eq!(store.get_weak_node(&"sample-application".to_string()), None);
}

#[test]
fn chain_has_unit_fanouts() {
    let raw = app("app", vec![branch("a", vec![branch("b", vec![leaf("c")])])]);
    let wood = built(&raw);
    assert_eq!(wood.get_depth(), 4);
    let f = wood.max_fanouts();
    assert_eq!(f, vec![1, 1, 1, 0]);
    assert!(f.iter().all(|&x| x <= 1));
}

#[test]
fn single_node_tree() {
    let wood = built(&app("solo", vec![]));
    assert_eq!(wood.get_depth(), 1);
    assert_eq!(wood.max_fanouts(), vec![0]);
    assert_eq!(wood.plan_layout(), vec![Placement { node: 0, depth: 1, parent: None, slot: 0, fanout: 1 }]);
}

#[test]
fn fanout_of_three() {
    let raw = app("app", vec![leaf("a"), branch("b", vec![leaf("x"), leaf("y")]), leaf("c")]);
    let wood = built(&raw);
    assert_eq!(wood.max_fanouts(), vec![3, 2, 0]);
}

#[test]
fn single_child_goes_straight_down() {
    let raw = app("app", vec![branch("a", vec![leaf("b")])]);
    let plan = built(&raw).plan_layout();
    assert_eq!(plan[1], Placement { node: 1, depth: 2, parent: Some(0), slot: 0, fanout: 1 });
    assert_eq!(plan[2], Placement { node: 2, depth: 3, parent: Some(1), slot: 0, fanout: 1 });
}

#[test]
fn two_children_take_opposite_slots() {
    let raw = app("app", vec![leaf("a"), leaf("b")]);
    let plan = built(&raw).plan_layout();
    assert_eq!(plan.len(), 3);
    assert_eq!(plan[1], Placement { node: 1, depth: 2, parent: Some(0), slot: 0, fanout: 2 });
    assert_eq!(plan[2], Placement { node: 2, depth: 2, parent: Some(0), slot: 1, fanout: 2 });
}

#[test]
fn layout_is_repeatable() {
    let wood = built(&sample());
    let first = wood.plan_layout();
    let second = wood.plan_layout();
    assert_eq!(first, second);
    assert_eq!(first.len(), 13);
    assert_eq!(first[0].node, 0);
}

#[test]
fn three_children_end_to_end() {
    let raw = app("app", vec![leaf("a"), leaf("b"), leaf("c")]);
    let wood = built(&raw);
    assert_eq!(wood.get_depth(), 2);
    let fanouts = wood.max_fanouts();
    assert_eq!(fanouts, vec![3, 0]);
    let plan = wood.plan_layout();
    assert_eq!(plan[0], Placement { node: 0, depth: 1, parent: None, slot: 0, fanout: 1 });
    for (k, p) in plan[1..].iter().enumerate() {
        assert_eq!(*p, Placement { node: k as u64 + 1, depth: 2, parent: Some(0), slot: k, fanout: 3 });
    }
    let radius = (1.0 / (std::f64::consts::PI / fanouts[0] as f64).sin() + 1.0) * 4.0;
    assert!((radius - 8.6188).abs() < 1e-3);
    let (x, y, z) = (0.0f64, 0.0f64, -10.0f64);
    for (k, p) in plan[1..].iter().enumerate() {
        let angle = 2.0 * std::f64::consts::PI * p.slot as f64 / p.fanout as f64;
        let want = 2.0 * std::f64::consts::PI * k as f64 / 3.0;
        assert!((angle - want).abs() < 1e-12);
        let (cx, cy, cz) = (x - radius * angle.cos(), y - 20.0, z - radius * angle.sin());
        assert_eq!(cy, -20.0);
        let dist = ((cx - x).powi(2) + (cz - z).powi(2)).sqrt();
        assert!((dist - radius).abs() < 1e-9);
    }
}

#[test]
fn init_without_root_changes_nothing() {
    let mut wood = GodswoodProto::default(StoreProto::new());
    wood.init_nodes();
    assert_eq!(wood.get_depth(), 0);
    assert!(wood.get_nodes_by_depths().is_empty());
    assert!(wood.plan_layout().is_empty());
}

#[test]
fn ids_follow_preorder() {
    let mut wood = GodswoodProto::default(StoreProto::new());
    wood.parse(&sample());
    let store = wood.get_store();
    assert_eq!(store.len(), 13);
    assert_eq!(store.node(0).children, vec![1, 5, 11]);
    assert_eq!(store.node(5).children, vec![6, 10]);
    assert_eq!(store.node(6).children, vec![7, 8, 9]);
    assert_eq!(store.node(11).children, vec![12]);
    for id in 0..store.len() as u64 {
        assert_eq!(store.node(id).id, id);
    }
}
