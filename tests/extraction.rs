use bin2json::export::export;
use bin2json::registry::{PluginDescriptor, Registry, RegistryError};
use bin2json::resolver::{resolve, resolve_tag, scan, Config};
use bin2json::session::{
    bootstrap, payload_for, NewNode, MountError, Outcome, Payload, Session, Source, Step,
};
use bin2json::tree::{AttrValue, Attribute, Tree, TreeError};

fn s(x: &str) -> String {
    x.to_string()
}

fn plugin(name: &str, types: &[&str], help: &str) -> PluginDescriptor {
    PluginDescriptor {
        name: s(name),
        datatypes: types.iter().map(|t| s(t)).collect(),
        help: s(help),
    }
}

fn leaf(parent: Option<usize>, name: &str, types: &[&str]) -> NewNode {
    NewNode {
        parent,
        name: s(name),
        attributes: Vec::new(),
        datatypes: types.iter().map(|t| s(t)).collect(),
    }
}

fn tags(session: &Session, id: usize) -> Vec<String> {
    session.tree().get(id).unwrap().datatypes.clone()
}

fn round(step: Step) -> Vec<bin2json::session::Invocation> {
    match step {
        Step::Round(v) => v,
        Step::Done => panic!("unexpected Done"),
        Step::Stalled => panic!("unexpected Stalled"),
    }
}

#[test]
fn tree_attach_and_lookup() {
    let mut t = Tree::create(s("root"));
    assert_eq!(t.root_id(), 0);
    let a = t.attach(0, s("a")).unwrap();
    let b = t.attach(0, s("b")).unwrap();
    let c = t.attach(a, s("c")).unwrap();
    assert_eq!((a, b, c), (1, 2, 3));
    assert_eq!(t.node_count(), 4);
    assert_eq!(t.children_of(0).unwrap(), vec![1, 2]);
    assert_eq!(t.children_of(a).unwrap(), vec![3]);
    assert_eq!(t.get(c).unwrap().parent, Some(1));
    assert_eq!(t.path_of(c).unwrap(), vec![s("root"), s("a"), s("c")]);
    assert_eq!(t.path_of(0).unwrap(), vec![s("root")]);
}

#[test]
fn tree_missing_ids() {
    let mut t = Tree::create(s("root"));
    assert_eq!(t.attach(5, s("x")), Err(TreeError::NotFound));
    assert_eq!(t.node_count(), 1);
    assert!(matches!(t.get(1), Err(TreeError::NotFound)));
    assert_eq!(t.children_of(1), Err(TreeError::NotFound));
    assert_eq!(t.path_of(1), Err(TreeError::NotFound));
    assert_eq!(t.enumerate(Some(1)), Err(TreeError::NotFound));
}

#[test]
fn enumerate_is_preorder() {
    let mut t = Tree::create(s("root"));
    let a = t.attach(0, s("a")).unwrap();
    let b = t.attach(0, s("b")).unwrap();
    let c = t.attach(a, s("c")).unwrap();
    let d = t.attach(b, s("d")).unwrap();
    let e = t.attach(c, s("e")).unwrap();
    assert_eq!(t.enumerate(None).unwrap(), vec![0, a, c, e, b, d]);
    assert_eq!(t.enumerate(Some(a)).unwrap(), vec![a, c, e]);
}

#[test]
fn export_one_record_per_node_in_preorder() {
    let mut t = Tree::create(s("root"));
    let a = t.attach(0, s("a")).unwrap();
    let b = t.attach(0, s("b")).unwrap();
    let c = t.attach(a, s("c")).unwrap();
    let records = export(&t);
    assert_eq!(records.len(), t.node_count());
    let order: Vec<usize> = records.iter().map(|r| r.node).collect();
    assert_eq!(order, vec![0, a, c, b]);
    assert_eq!(records[2].name, s("c"));
    assert_eq!(records[2].path, vec![s("root"), s("a"), s("c")]);
    assert_eq!(records[3].path, vec![s("root"), s("b")]);
    assert!(records.iter().all(|r| r.attributes.is_empty()));
}

#[test]
fn registry_register_lookup_overwrite() {
    let mut reg = Registry::new();
    reg.register(plugin("exif", &["jpeg"], "old help"));
    reg.register(plugin("ntfs", &["ntfs"], "ntfs help"));
    reg.register(plugin("exif", &["jpeg", "tiff"], "new help"));
    assert_eq!(reg.iterate().len(), 2);
    assert_eq!(reg.iterate()[0].name, s("exif"));
    assert_eq!(reg.lookup(&s("exif")).unwrap().help, s("new help"));
    assert!(matches!(reg.lookup(&s("mft")), Err(RegistryError::NotFound)));
    assert!(reg.contains(&s("ntfs")));
    assert_eq!(reg.capability_match(&s("tiff")), vec![s("exif")]);
    assert_eq!(reg.capability_match(&s("zip")), Vec::<String>::new());
}

#[test]
fn capability_match_in_registration_order() {
    let mut reg = Registry::new();
    reg.register(plugin("b", &["x"], ""));
    reg.register(plugin("a", &["x"], ""));
    reg.register(plugin("c", &["y"], ""));
    assert_eq!(reg.capability_match(&s("x")), vec![s("b"), s("a")]);
    let cfg = Config::new();
    assert_eq!(resolve_tag(&reg, &cfg, &s("x")), Some(s("b")));
}

#[test]
fn configured_list_picks_first_registered() {
    let mut reg = Registry::new();
    reg.register(plugin("p2", &[], ""));
    let mut cfg = Config::new();
    cfg.set_preference(s("X"), vec![s("p1"), s("p2")]);
    assert_eq!(resolve_tag(&reg, &cfg, &s("X")), Some(s("p2")));
}

#[test]
fn configured_list_without_registered_plugin_is_unresolved() {
    let mut reg = Registry::new();
    reg.register(plugin("other", &["X"], ""));
    let mut cfg = Config::new();
    cfg.set_preference(s("X"), vec![s("p1")]);
    assert_eq!(resolve_tag(&reg, &cfg, &s("X")), None);
    assert_eq!(cfg.preference(&s("X")), Some(&vec![s("p1")]));
    assert_eq!(cfg.preference(&s("Y")), None);
}

fn two_tag_session() -> Session {
    let mut reg = Registry::new();
    reg.register(plugin("pa", &["A"], ""));
    reg.register(plugin("pb", &["B"], ""));
    let mut session = Session::new(s("root"), reg, Config::new());
    session
        .mount(Outcome { nodes: vec![leaf(None, "f", &["A", "B"])], succeeded: true })
        .unwrap();
    session
}

#[test]
fn two_tags_give_two_invocations_in_one_round() {
    let mut session = two_tag_session();
    let invs = round(session.next_round());
    assert_eq!(invs.len(), 2);
    assert_eq!((invs[0].node, invs[0].plugin.as_str()), (1, "pa"));
    assert_eq!((invs[1].node, invs[1].plugin.as_str()), (1, "pb"));
    assert_eq!(invs[0].payload, Payload::File(1));
}

#[test]
fn resolution_is_deterministic() {
    let session = two_tag_session();
    let cfg = Config::new();
    let first = resolve(session.tree(), session.registry(), &cfg);
    let second = resolve(session.tree(), session.registry(), &cfg);
    let key = |v: &Vec<bin2json::resolver::Resolution>| -> Vec<(usize, String, Vec<String>)> {
        v.iter().map(|r| (r.node, r.plugin.clone(), r.tags.clone())).collect()
    };
    assert_eq!(key(&first), key(&second));
    assert_eq!(key(&first), vec![(1, s("pa"), vec![s("A")]), (1, s("pb"), vec![s("B")])]);
}

#[test]
fn done_exactly_when_nothing_outstanding() {
    let mut session = Session::new(s("root"), Registry::new(), Config::new());
    assert!(matches!(session.next_round(), Step::Done));
    let mut session = two_tag_session();
    assert_eq!(scan(session.tree()).len(), 2);
    assert!(matches!(session.next_round(), Step::Round(_)));
}

#[test]
fn failing_run_keeps_sibling_results() {
    let mut session = two_tag_session();
    let invs = round(session.next_round());
    session
        .complete(&invs[0], Outcome { nodes: vec![leaf(None, "out_a", &[])], succeeded: true })
        .unwrap();
    session
        .complete(&invs[1], Outcome { nodes: vec![leaf(None, "partial_b", &[])], succeeded: false })
        .unwrap();
    let t = session.tree();
    assert_eq!(t.node_count(), 4);
    assert_eq!(t.get(2).unwrap().name, s("out_a"));
    assert_eq!(t.get(3).unwrap().name, s("partial_b"));
    assert_eq!(t.children_of(1).unwrap(), vec![2, 3]);
    assert_eq!(tags(&session, 1), vec![s("B")]);
}

#[test]
fn failed_run_is_not_retried_and_loop_stalls() {
    let mut session = two_tag_session();
    let invs = round(session.next_round());
    session.complete(&invs[0], Outcome { nodes: vec![], succeeded: true }).unwrap();
    session.complete(&invs[1], Outcome { nodes: vec![], succeeded: false }).unwrap();
    let next = round(session.next_round());
    assert!(next.is_empty());
    assert!(matches!(session.next_round(), Step::Stalled));
}

#[test]
fn unresolvable_tag_stalls() {
    let mut session = Session::new(s("root"), Registry::new(), Config::new());
    session.mount(Outcome { nodes: vec![leaf(None, "f", &["zip"])], succeeded: true }).unwrap();
    assert!(round(session.next_round()).is_empty());
    assert!(matches!(session.next_round(), Step::Stalled));
}

#[test]
fn evtx_round_consumes_tag() {
    let mut reg = Registry::new();
    reg.register(plugin("evtx", &["evtx"], "evtx help"));
    let mut cfg = Config::new();
    cfg.set_preference(s("evtx"), vec![s("evtx")]);
    let mut session = Session::new(s("root"), reg, cfg);
    session.mount(Outcome { nodes: vec![leaf(None, "log", &["evtx"])], succeeded: true }).unwrap();
    let invs = round(session.next_round());
    assert_eq!(invs.len(), 1);
    assert_eq!(invs[0].plugin, s("evtx"));
    assert_eq!(invs[0].payload, Payload::File(1));
    for inv in &invs {
        session
            .complete(inv, Outcome { nodes: vec![leaf(None, "record", &[])], succeeded: true })
            .unwrap();
    }
    assert!(!tags(&session, 1).contains(&s("evtx")));
    assert!(matches!(session.next_round(), Step::Done));
}

#[test]
fn listing_excludes_local() {
    let mut reg = Registry::new();
    reg.register(plugin("local", &[], "local help"));
    reg.register(plugin("exif", &["jpeg"], "exif help"));
    reg.register(plugin("ntfs", &["ntfs"], "ntfs help"));
    assert_eq!(
        reg.listing(),
        vec![(s("exif"), s("exif help")), (s("ntfs"), s("ntfs help"))]
    );
}

#[test]
fn payload_conventions() {
    assert_eq!(payload_for(&s("exif"), 4), Payload::Files(vec![4]));
    assert_eq!(payload_for(&s("prefetch"), 4), Payload::File(4));
    let (name, payload) = bootstrap(Source::File(s("a.bin")), 0);
    assert_eq!(name, s("local"));
    assert_eq!(payload, Payload::MountFiles { mount_point: 0, files: vec![s("a.bin")] });
    let (name, payload) = bootstrap(Source::Device(s("/dev/sda")), 0);
    assert_eq!(name, s("device"));
    assert_eq!(payload, Payload::MountDevice { mount_point: 0, path: s("/dev/sda") });
}

#[test]
fn nested_new_nodes_and_bad_slots() {
    let mut session = Session::new(s("root"), Registry::new(), Config::new());
    let nodes = vec![leaf(None, "disk", &[]), leaf(Some(0), "part", &["ntfs"])];
    session.mount(Outcome { nodes, succeeded: true }).unwrap();
    assert_eq!(session.tree().path_of(2).unwrap(), vec![s("root"), s("disk"), s("part")]);
    let bad = vec![leaf(Some(0), "x", &[])];
    assert_eq!(session.mount(Outcome { nodes: bad, succeeded: true }), Err(MountError::NotFound));
    assert_eq!(
        session.mount(Outcome { nodes: vec![], succeeded: false }),
        Err(MountError::Failed)
    );
    assert_eq!(session.tree().node_count(), 3);
}

#[test]
fn complete_on_missing_node_changes_nothing() {
    let mut session = two_tag_session();
    let mut invs = round(session.next_round());
    let mut inv = invs.remove(0);
    inv.node = 9;
    let outcome = Outcome { nodes: vec![leaf(None, "x", &[])], succeeded: true };
    assert_eq!(session.complete(&inv, outcome), Err(TreeError::NotFound));
    inv.node = 1;
    let bad = Outcome { nodes: vec![leaf(Some(3), "x", &[])], succeeded: true };
    assert_eq!(session.complete(&inv, bad), Err(TreeError::NotFound));
    assert_eq!(session.tree().node_count(), 2);
    assert_eq!(tags(&session, 1), vec![s("A"), s("B")]);
}

#[test]
fn two_tags_one_plugin_give_one_run() {
    let mut reg = Registry::new();
    reg.register(plugin("evtx", &[], ""));
    let mut cfg = Config::new();
    cfg.set_preference(s("A"), vec![s("evtx")]);
    cfg.set_preference(s("B"), vec![s("evtx")]);
    let mut session = Session::new(s("root"), reg, cfg);
    session.mount(Outcome { nodes: vec![leaf(None, "f", &["A", "B", "C"])], succeeded: true }).unwrap();
    let invs = round(session.next_round());
    assert_eq!(invs.len(), 1);
    assert_eq!(invs[0].plugin, s("evtx"));
    assert_eq!(invs[0].tags, vec![s("A"), s("B")]);
    session
        .complete(&invs[0], Outcome { nodes: vec![leaf(None, "out", &[])], succeeded: true })
        .unwrap();
    assert_eq!(tags(&session, 1), vec![s("C")]);
    assert_eq!(session.tree().node_count(), 3);
}

#[test]
fn repeated_tags_are_kept_once() {
    let mut t = Tree::create(s("root"));
    let id = t
        .attach_node(0, s("f"), Vec::new(), vec![s("A"), s("B"), s("A")])
        .unwrap();
    assert_eq!(t.get(id).unwrap().datatypes, vec![s("A"), s("B")]);
}

#[test]
fn export_carries_attributes() {
    let mut session = Session::new(s("root"), Registry::new(), Config::new());
    let node = NewNode {
        parent: None,
        name: s("f"),
        attributes: vec![Attribute { key: s("size"), value: AttrValue::Int(7) }],
        datatypes: Vec::new(),
    };
    session.mount(Outcome { nodes: vec![node], succeeded: true }).unwrap();
    let records = export(session.tree());
    assert_eq!(records.len(), 2);
    assert_eq!(records[1].attributes.len(), 1);
    assert_eq!(records[1].attributes[0].key, s("size"));
    assert!(matches!(records[1].attributes[0].value, AttrValue::Int(7)));
}
