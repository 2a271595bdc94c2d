use haltui::hal::HalType;
use haltui::tree::{collect_leaves, find_node, full_name, parent_path, visible, HalTree};

fn lists() -> Vec<Vec<String>> {
    let s = |v: &[&str]| v.iter().map(|x| x.to_string()).collect::<Vec<String>>();
    vec![
        s(&["abs.0", "motmod"]),
        s(&["axis.0.pos", "axis.0.vel", "axis.1.pos", "estop"]),
        s(&["abs.0.tmax"]),
        s(&["estop-loop"]),
        s(&["abs.0"]),
        s(&["servo-thread"]),
    ]
}

fn paths(t: &HalTree) -> Vec<String> {
    visible(&t.roots).into_iter().map(|(p, _, _)| p).collect()
}

#[test]
fn rebuild_makes_six_open_roots() {
    let mut t = HalTree::new();
    t.rebuild(&lists());
    assert_eq!(t.roots.len(), 6);
    assert_eq!(t.roots[1].name, "Pins");
    assert!(t.roots.iter().all(|r| r.expanded));
    let rows = visible(&t.roots);
    assert_eq!(rows[0], ("comp".to_string(), 0, true));
    assert!(paths(&t).contains(&"pin+axis".to_string()));
    assert!(!paths(&t).contains(&"pin+axis.0".to_string()));
    assert_eq!(t.selected, "comp");
}

#[test]
fn dotted_names_nest() {
    let mut t = HalTree::new();
    t.rebuild(&lists());
    let axis = find_node(&t.roots, "pin+axis").unwrap();
    assert!(!axis.leaf);
    assert_eq!(axis.children.len(), 2);
    let pos = find_node(&t.roots, "pin+axis.0.pos").unwrap();
    assert!(pos.leaf);
    assert_eq!(pos.name, "pos");
    assert_eq!(pos.kind, HalType::Pin);
    let thread = find_node(&t.roots, "thread+servo-thread").unwrap();
    assert!(thread.leaf && thread.children.is_empty());
}

#[test]
fn collapse_and_expand_all() {
    let mut t = HalTree::new();
    t.rebuild(&lists());
    t.collapse_all();
    assert_eq!(paths(&t), vec!["comp", "pin", "param", "sig", "funct", "thread"]);
    t.expand_all();
    let all = paths(&t);
    assert!(all.contains(&"pin+axis.1.pos".to_string()));
    assert_eq!(all.len(), 6 + 2 + 7 + 3 + 1 + 1 + 1);
    t.collapse_kind(HalType::Pin);
    assert!(!paths(&t).contains(&"pin+axis".to_string()));
    t.expand_kind(HalType::Pin);
    assert!(paths(&t).contains(&"pin+axis.0.vel".to_string()));
}

#[test]
fn reveal_opens_the_way_and_selects() {
    let mut t = HalTree::new();
    t.rebuild(&lists());
    t.reveal_path("pin+axis.1.pos");
    assert_eq!(t.selected, "pin+axis.1.pos");
    assert!(t.path_exists("pin+axis.1.pos"));
    assert_eq!(t.selected_node().unwrap().name, "pos");
    t.reveal_path("pin+nothing");
    assert_eq!(t.selected, "pin+axis.1.pos");
}

#[test]
fn expansion_survives_rebuild() {
    let mut t = HalTree::new();
    t.rebuild(&lists());
    t.reveal_path("pin+axis.0.pos");
    t.rebuild(&lists());
    assert!(t.path_exists("pin+axis.0.pos"));
    assert_eq!(t.selected, "pin+axis.0.pos");
}

#[test]
fn filter_keeps_matching_items() {
    let mut t = HalTree::new();
    t.filter = "^pos$".to_string();
    t.rebuild(&lists());
    let all = paths(&t);
    assert!(all.contains(&"pin+axis.0.pos".to_string()));
    assert!(!all.contains(&"pin+axis.0.vel".to_string()));
    assert!(!all.contains(&"pin+estop".to_string()));
    t.full_path = true;
    t.filter = "axis\\.1".to_string();
    t.rebuild(&lists());
    let all = paths(&t);
    assert!(all.contains(&"pin+axis.1.pos".to_string()));
    assert!(!all.contains(&"pin+axis.0.pos".to_string()));
    t.filter = "(".to_string();
    t.rebuild(&lists());
    assert!(t.roots.iter().all(|r| r.children.is_empty()));
}

#[test]
fn leaves_names_and_parents() {
    let mut t = HalTree::new();
    t.rebuild(&lists());
    let mut leaves = collect_leaves(&t.roots, "pin+axis");
    leaves.sort_by(|a, b| a.1.cmp(&b.1));
    assert_eq!(
        leaves,
        vec![
            (HalType::Pin, "axis.0.pos".to_string()),
            (HalType::Pin, "axis.0.vel".to_string()),
            (HalType::Pin, "axis.1.pos".to_string()),
        ]
    );
    assert!(collect_leaves(&t.roots, "thread").is_empty());
    assert_eq!(full_name("pin+axis.0.pos"), Some("axis.0.pos"));
    assert_eq!(full_name("pin"), None);
    assert_eq!(parent_path("pin+axis.0.pos"), Some("pin+axis.0".to_string()));
    assert_eq!(parent_path("pin+axis"), Some("pin".to_string()));
    assert_eq!(parent_path("pin"), None);
}

#[test]
fn moving_the_selection() {
    let mut t = HalTree::new();
    t.rebuild(&lists());
    t.move_selection(1, false);
    assert_eq!(t.selected, "comp+abs.0");
    t.move_selection(100, false);
    assert_eq!(t.selected, "thread+servo-thread");
    t.move_selection(2, true);
    assert_eq!(t.selected, "funct+abs.0");
    t.selected = "gone".to_string();
    t.move_selection(1, true);
    assert_eq!(t.selected, "comp");
}

#[test]
fn expanding_one_node() {
    let mut t = HalTree::new();
    t.rebuild(&lists());
    t.set_expanded("pin+axis", true);
    assert!(t.path_exists("pin+axis.0"));
    t.set_expanded("pin", false);
    assert!(!t.path_exists("pin+axis"));
    assert!(find_node(&t.roots, "pin+axis").unwrap().expanded);
}

#[test]
fn parent_path_is_a_prefix_before_a_separator() {
    for p in ["pin+axis.0.pos", "pin+axis", "a.b.c", "x+y+z", "pin"] {
        match parent_path(p) {
            Some(q) => {
                assert!(p.starts_with(&q));
                let rest = &p[q.len()..];
                assert!(rest.starts_with('.') || rest.starts_with('+'));
                assert!(!rest[1..].contains('.') && !rest[1..].contains('+'));
            }
            None => assert!(!p.contains('.') && !p.contains('+')),
        }
    }
}

fn check_parents(n: &haltui::tree::TreeNode) {
    for c in &n.children {
        if !c.name.contains('.') && !c.name.contains('+') {
            assert_eq!(parent_path(&c.path), Some(n.path.clone()));
        }
        check_parents(c);
    }
}

#[test]
fn rebuilt_nodes_find_their_parents() {
    let mut t = HalTree::new();
    t.rebuild(&lists());
    for r in &t.roots {
        check_parents(r);
    }
    t.collapse_all();
    t.rebuild(&lists());
    for r in &t.roots {
        check_parents(r);
    }
}
