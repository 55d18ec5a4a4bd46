use mdbook_tracey::coverage::{
    coverage_from_forward, Coverage, CoverageMap, ForwardData, ForwardRule, ForwardSpec, Ref,
};

fn rf(file: &str, line: usize) -> Ref {
    Ref {
        file: file.into(),
        line,
    }
}

fn rule(base: &str, impls: Vec<Ref>, verifies: Vec<Ref>) -> ForwardRule {
    ForwardRule {
        base: base.into(),
        impl_refs: impls,
        verify_refs: verifies,
    }
}

#[test]
fn forward_dump_counts() {
    let data = ForwardData {
        specs: vec![ForwardSpec {
            rules: vec![
                rule("obs.log.batch", vec![rf("a.rs", 1), rf("b.rs", 2)], vec![rf("t.rs", 5)]),
                rule("obs.log.flush", vec![rf("c.rs", 3)], vec![]),
            ],
        }],
    };
    let map = coverage_from_forward(data);
    assert_eq!(map.len(), 2);
    let a = map.get("obs.log.batch").unwrap();
    assert_eq!(a.impl_refs.len(), 2);
    assert_eq!(a.verify_refs.len(), 1);
    assert_eq!(a.verify_refs[0].file, "t.rs");
    let b = map.get("obs.log.flush").unwrap();
    assert_eq!(b.impl_refs.len(), 1);
    assert_eq!(b.verify_refs.len(), 0);
    assert!(map.get("obs.log").is_none());
}

#[test]
fn forward_dump_last_write_wins() {
    let data = ForwardData {
        specs: vec![
            ForwardSpec {
                rules: vec![rule("x.y", vec![rf("a.rs", 1)], vec![])],
            },
            ForwardSpec { rules: vec![] },
            ForwardSpec {
                rules: vec![rule("x.y", vec![], vec![rf("t.rs", 9), rf("u.rs", 8)])],
            },
        ],
    };
    let map = coverage_from_forward(data);
    assert_eq!(map.len(), 1);
    let c = map.get("x.y").unwrap();
    assert_eq!(c.impl_refs.len(), 0);
    assert_eq!(c.verify_refs.len(), 2);
}

#[test]
fn empty_forward_dump() {
    let map = coverage_from_forward(ForwardData { specs: vec![] });
    assert!(map.is_empty());
}

#[test]
fn map_insert_replaces_and_returns_previous() {
    let mut map = CoverageMap::new();
    assert!(map.insert("k".into(), Coverage { impl_refs: vec![rf("a", 1)], verify_refs: vec![] }).is_none());
    let prev = map.insert("k".into(), Coverage::default()).unwrap();
    assert_eq!(prev.impl_refs.len(), 1);
    assert_eq!(map.len(), 1);
    assert!(map.contains_key("k"));
    assert!(!map.contains_key("K"));
    assert_eq!(map.get("k").unwrap().impl_refs.len(), 0);
    map.insert("j".into(), Coverage::default());
    assert_eq!(map.len(), 2);
}
