use ia2_project::hmi::{
    collect_ids, empty_hmi, find_node, hmi_variables, validate_hmi, HmiAction, HmiBinding,
    HmiBindingSpec, HmiDoc, HmiGrid, HmiLayout, HmiNode, HmiNodeKind, HmiNumber, HmiSeries,
};
use ia2_project::hmi_ops::{add_node, locate, remove_node, replace_node, set_meta};

fn s(x: &str) -> String {
    x.to_string()
}

fn node(id: &str, kind: HmiNodeKind) -> HmiNode {
    HmiNode { id: s(id), kind, x: 0, y: 0, w: 0, h: 0, bind: vec![], action: vec![] }
}

fn group(id: &str, children: Vec<HmiNode>) -> HmiNode {
    node(id, HmiNodeKind::Group { layout: HmiLayout::Vertical, gap: 4, children })
}

fn add(doc: HmiDoc, parent: Option<&str>, n: HmiNode, index: Option<usize>) -> (HmiDoc, Result<Vec<String>, String>) {
    add_node(doc, parent.map(s), n, index)
}

fn child_ids(doc: &HmiDoc, id: &str) -> Vec<String> {
    match &find_node(&doc.root, id).unwrap().kind {
        HmiNodeKind::Group { children, .. } => children.iter().map(|c| c.id.clone()).collect(),
        _ => panic!("not a group"),
    }
}

#[test]
fn add_rejects_duplicate_and_missing_parent() {
    let doc = empty_hmi("t");
    let (doc, r) = add(doc, None, node("a", HmiNodeKind::Alarmbar {}), None);
    r.unwrap();
    let (doc, dup) = add(doc, None, node("a", HmiNodeKind::Alarmbar {}), None);
    assert!(dup.unwrap_err().contains("already exists"));
    let (_doc, orphan) = add(doc, Some("nope"), node("b", HmiNodeKind::Alarmbar {}), None);
    assert!(orphan.unwrap_err().contains("not found"));
}

#[test]
fn validate_flags_the_documented_problems() {
    let doc = empty_hmi("t");
    let (doc, r) = add(
        doc,
        None,
        node("s1", HmiNodeKind::Symbol { symbol: s("flux_capacitor"), props: vec![] }),
        None,
    );
    r.unwrap();
    let (doc, r) = add(doc, None, node("t1", HmiNodeKind::Trend { series: vec![], window_s: 300 }), None);
    r.unwrap();
    let (doc, r) = add(doc, None, node("i1", HmiNodeKind::Input { label: None, unit: None }), None);
    r.unwrap();
    let issues = validate_hmi(&doc);
    let has = |frag: &str| issues.iter().any(|i| i.message.contains(frag));
    assert!(has("unknown symbol"));
    assert!(has("no series"));
    assert!(has("no `commit` action"));
}

#[test]
fn variables_are_collected_from_all_surfaces() {
    let doc = empty_hmi("t");
    let mut v = node("v", HmiNodeKind::Value { label: None, unit: None });
    v.bind.push((
        s("value"),
        HmiBinding::Spec(HmiBindingSpec { variable: s("a"), expr: Some(s("x / 10")), format: None }),
    ));
    v.action.push((
        s("tap"),
        HmiAction::Write {
            variable: s("b"),
            value: HmiNumber { bits: 1.0f64.to_bits(), text: s("1.0") },
            confirm: true,
        },
    ));
    let t = node(
        "t",
        HmiNodeKind::Trend { series: vec![HmiSeries { variable: s("c"), label: None }], window_s: 60 },
    );
    let (doc, r) = add(doc, None, v, None);
    r.unwrap();
    let (doc, r) = add(doc, None, t, None);
    r.unwrap();
    let vars: Vec<String> = hmi_variables(&doc).into_iter().map(|(_, v)| v).collect();
    assert_eq!(vars, vec!["a", "b", "c"]);
}

#[test]
fn adding_reports_the_new_ids_and_places_the_subtree() {
    let doc = empty_hmi("t");
    let (doc, r) = add(doc, None, node("a", HmiNodeKind::Alarmbar {}), None);
    assert_eq!(r.unwrap(), vec![s("a")]);
    let sub = group("g", vec![node("g1", HmiNodeKind::Button { label: s("Go") })]);
    let (doc, r) = add(doc, None, sub, Some(0));
    assert_eq!(r.unwrap(), vec![s("g"), s("g1")]);
    assert_eq!(child_ids(&doc, "root"), vec![s("g"), s("a")]);
    let (doc, r) = add(doc, Some("g"), node("g2", HmiNodeKind::Alarmbar {}), Some(99));
    assert_eq!(r.unwrap(), vec![s("g2")]);
    assert_eq!(child_ids(&doc, "g"), vec![s("g1"), s("g2")]);
    assert_eq!(locate(&doc.root, &s("g2")), Some(false));
    assert_eq!(locate(&doc.root, &s("g")), Some(true));
    assert_eq!(locate(&doc.root, &s("zz")), None);
}

#[test]
fn adding_refuses_and_leaves_the_screen_alone() {
    let doc = empty_hmi("t");
    let (doc, r) = add(doc, None, node("", HmiNodeKind::Alarmbar {}), None);
    assert_eq!(r.unwrap_err(), "node id must not be empty");
    let (doc, r) = add(doc, None, node("b", HmiNodeKind::Button { label: s("B") }), None);
    r.unwrap();
    let (doc, r) = add(doc, Some("b"), node("c", HmiNodeKind::Alarmbar {}), None);
    assert_eq!(r.unwrap_err(), "parent 'b' is not a group");
    let (doc, r) = add(doc, None, group("g", vec![node("b", HmiNodeKind::Alarmbar {})]), None);
    assert_eq!(r.unwrap_err(), "descendant id 'b' already exists");
    let (doc, r) = add(doc, None, node("b", HmiNodeKind::Alarmbar {}), None);
    assert_eq!(r.unwrap_err(), "id 'b' already exists");
    let (doc, r) = add(doc, Some("ghost"), node("c", HmiNodeKind::Alarmbar {}), None);
    assert_eq!(r.unwrap_err(), "parent 'ghost' not found");
    let ids: Vec<String> = collect_ids(&doc.root);
    assert_eq!(ids, vec![s("root"), s("b")]);
}

#[test]
fn removing_takes_the_whole_subtree() {
    let doc = empty_hmi("t");
    let sub = group("g", vec![node("g1", HmiNodeKind::Alarmbar {}), node("g2", HmiNodeKind::Alarmbar {})]);
    let (doc, r) = add(doc, None, sub, None);
    r.unwrap();
    let (doc, r) = add(doc, None, node("z", HmiNodeKind::Alarmbar {}), None);
    r.unwrap();
    let (doc, r) = remove_node(doc, &s("g1"));
    r.unwrap();
    assert_eq!(collect_ids(&doc.root), vec![s("root"), s("g"), s("g2"), s("z")]);
    let (doc, r) = remove_node(doc, &s("g"));
    r.unwrap();
    assert_eq!(collect_ids(&doc.root), vec![s("root"), s("z")]);
    let (doc, r) = remove_node(doc, &s("root"));
    assert_eq!(r.unwrap_err(), "cannot remove the root group");
    let (doc, r) = remove_node(doc, &s("ghost"));
    assert_eq!(r.unwrap_err(), "node 'ghost' not found");
    assert_eq!(collect_ids(&doc.root), vec![s("root"), s("z")]);
}

#[test]
fn replacing_a_node_in_place() {
    let doc = empty_hmi("t");
    let (doc, r) = add(doc, None, group("g", vec![node("v", HmiNodeKind::Alarmbar {})]), None);
    r.unwrap();
    let mut moved = node("v", HmiNodeKind::Button { label: s("Start") });
    moved.x = 40;
    let (doc, r) = replace_node(doc, &s("v"), moved);
    r.unwrap();
    let n = find_node(&doc.root, "v").unwrap();
    assert_eq!(n.x, 40);
    assert!(matches!(&n.kind, HmiNodeKind::Button { label } if label == "Start"));
    let (_doc, r) = replace_node(doc, &s("ghost"), node("ghost", HmiNodeKind::Alarmbar {}));
    assert_eq!(r.unwrap_err(), "node 'ghost' not found");
}

#[test]
fn metadata_changes_only_what_is_given() {
    let mut doc = empty_hmi("t");
    set_meta(&mut doc, Some(s("Overview")), None, None);
    assert_eq!(doc.title, "Overview");
    assert_eq!(doc.level, 2);
    set_meta(&mut doc, None, Some(1), Some(HmiGrid { w: 1920, h: 1080, snap: 4 }));
    assert_eq!(doc.title, "Overview");
    assert_eq!(doc.level, 1);
    assert_eq!(doc.grid, HmiGrid { w: 1920, h: 1080, snap: 4 });
}

#[test]
fn removing_a_node_just_added_restores_the_screen() {
    let doc = empty_hmi("t");
    let (doc, r) = add(doc, None, group("g", vec![node("g1", HmiNodeKind::Alarmbar {})]), None);
    r.unwrap();
    let before = collect_ids(&doc.root);
    let (doc, r) = add(doc, Some("g"), group("n", vec![node("n1", HmiNodeKind::Alarmbar {})]), Some(0));
    r.unwrap();
    let (doc, r) = remove_node(doc, &s("n"));
    r.unwrap();
    assert_eq!(collect_ids(&doc.root), before);
    assert_eq!(child_ids(&doc, "g"), vec![s("g1")]);
}

#[test]
fn ids_stay_distinct_across_adds() {
    let doc = empty_hmi("t");
    let (doc, _) = add(doc, None, group("g", vec![node("g1", HmiNodeKind::Alarmbar {})]), None);
    let (doc, r) = add(doc, Some("g"), group("h", vec![node("g1", HmiNodeKind::Alarmbar {})]), None);
    assert!(r.is_err());
    let (doc, r) = add(doc, Some("g"), group("h", vec![node("h1", HmiNodeKind::Alarmbar {})]), None);
    assert!(r.is_ok());
    let mut ids = collect_ids(&doc.root);
    let n = ids.len();
    assert_eq!(n, 5);
    ids.sort();
    ids.dedup();
    assert_eq!(ids.len(), n);
}
