use dts_core::parser::parse_dts;
use dts_core::store::{Element, LabelStore, StoreError};
use dts_core::tree::{Data, Node, Property};

fn filled(src: &[u8]) -> (LabelStore, Result<(), StoreError>) {
    let (bi, amends) = parse_dts(src).expect("document should parse");
    let mut store = LabelStore::new();
    let r = store.fill(&bi, &amends);
    (store, r)
}

fn prop_cells(e: &Element) -> Vec<u64> {
    match e {
        Element::Prop(p) => match &p.val {
            Some(ds) => match &ds[0] {
                Data::Cells(cs) => cs.iter().map(|c| c.0).collect(),
                other => panic!("expected cells, got {:?}", other),
            },
            None => panic!("expected a value"),
        },
        other => panic!("expected a property element, got {:?}", other),
    }
}

#[test]
fn amendment_via_label() {
    let (store, r) = filled(b"/dts-v1/; / { top { foo: bar { baz = <1>; }; }; }; &foo { baz = <2>; };");
    assert_eq!(r, Ok(()));
    let hist = store
        .changes_from_path(b"/top/bar/baz")
        .expect("history should exist");
    assert_eq!(hist.len(), 2);
    assert_eq!(prop_cells(&hist[0]), vec![1]);
    assert_eq!(prop_cells(&hist[1]), vec![2]);
    assert_eq!(store.path_from_label(b"foo"), Some(b"/top/bar".to_vec()));
}

#[test]
fn duplicate_label_fails() {
    let (_, r) = filled(b"/dts-v1/; / { a { l: x = <1>; }; b { l: y = <2>; }; };");
    assert_eq!(r, Err(StoreError::DuplicateLabel(b"l".to_vec())));
}

#[test]
fn same_label_same_path_is_idempotent() {
    let (store, r) = filled(b"/dts-v1/; / { foo: bar { }; }; &foo { x = <1>; };");
    assert_eq!(r, Ok(()));
    assert_eq!(store.path_from_label(b"foo"), Some(b"/bar".to_vec()));
}

#[test]
fn deletion_propagates_to_subtree() {
    let (bi, _) = parse_dts(
        b"/dts-v1/; / { top { foo: bar { inner: baz = <1>; deep { leaf; }; }; other { }; }; };",
    )
    .expect("document should parse");
    let del = Node {
        deleted: true,
        name: b"&foo".to_vec(),
        proplist: Vec::new(),
        children: Vec::new(),
        labels: Vec::new(),
    };
    let mut store = LabelStore::new();
    let r = store.fill(&bi, &[del]);
    assert_eq!(r, Ok(()));
    // no label below the deleted path resolves
    assert_eq!(store.path_from_label(b"foo"), None);
    assert_eq!(store.path_from_label(b"inner"), None);
    // every pre-existing path below it ends with a deleted-node element
    for path in [
        &b"/top/bar"[..],
        &b"/top/bar/baz"[..],
        &b"/top/bar/deep"[..],
        &b"/top/bar/deep/leaf"[..],
    ] {
        let hist = store.changes_from_path(path).expect("history should exist");
        match hist.last().expect("history is non-empty") {
            Element::Node(n) => assert!(n.deleted, "path {:?} not tombstoned", path),
            other => panic!("expected deleted node at {:?}, got {:?}", path, other),
        }
    }
    // untouched sibling stays live
    let hist = store.changes_from_path(b"/top/other").expect("history");
    match hist.last().unwrap() {
        Element::Node(n) => assert!(!n.deleted),
        other => panic!("expected live node, got {:?}", other),
    }
}

#[test]
fn order_preserved_through_parse_and_fill() {
    let (store, r) = filled(b"/dts-v1/; / { n { p1 = <1>; p2 = <2>; p3 = <3>; c1 { }; c2 { }; }; };");
    assert_eq!(r, Ok(()));
    let hist = store.changes_from_path(b"/n").expect("history");
    match hist.last().unwrap() {
        Element::Node(n) => {
            let names: Vec<&[u8]> = n.proplist.iter().map(|p| p.name.as_slice()).collect();
            assert_eq!(names, vec![&b"p1"[..], &b"p2"[..], &b"p3"[..]]);
            let kids: Vec<&[u8]> = n.children.iter().map(|c| c.name.as_slice()).collect();
            assert_eq!(kids, vec![&b"c1"[..], &b"c2"[..]]);
        }
        other => panic!("expected node, got {:?}", other),
    }
}

#[test]
fn memreserve_directives() {
    let (bi, amends) =
        parse_dts(b"/dts-v1/; /memreserve/ 0x100 0x200; /memreserve/ 16 32; / { };")
            .expect("document should parse");
    assert_eq!(amends.len(), 0);
    assert_eq!(bi.reserve_info.len(), 2);
    assert_eq!(bi.reserve_info[0].address, 0x100);
    assert_eq!(bi.reserve_info[0].size, 0x200);
    assert_eq!(bi.reserve_info[1].address, 16);
    assert_eq!(bi.reserve_info[1].size, 32);
    assert_eq!(bi.boot_cpuid, 0);
}

#[test]
fn unresolved_reference_amendment() {
    let (_, r) = filled(b"/dts-v1/; / { }; &nope { x = <1>; };");
    assert_eq!(r, Err(StoreError::UnresolvedReference(b"nope".to_vec())));
}

#[test]
fn dangling_amendment() {
    let (_, r) = filled(b"/dts-v1/; / { }; widget { x = <1>; };");
    assert_eq!(r, Err(StoreError::DanglingAmendment(b"widget".to_vec())));
}

#[test]
fn root_amendment_appends_history() {
    let (store, r) = filled(b"/dts-v1/; / { x = <1>; }; / { x = <2>; };");
    assert_eq!(r, Ok(()));
    let hist = store.changes_from_path(b"/x").expect("history");
    assert_eq!(hist.len(), 2);
    assert_eq!(prop_cells(&hist[0]), vec![1]);
    assert_eq!(prop_cells(&hist[1]), vec![2]);
    let root_hist = store.changes_from_path(b"/").expect("root history");
    assert_eq!(root_hist.len(), 2);
}

#[test]
fn path_reference_amendment() {
    let (store, r) = filled(b"/dts-v1/; / { top { q = <1>; }; }; &{/top} { q = <9>; };");
    assert_eq!(r, Ok(()));
    let hist = store.changes_from_path(b"/top/q").expect("history");
    assert_eq!(hist.len(), 2);
    assert_eq!(prop_cells(&hist[1]), vec![9]);
}

#[test]
fn deleted_property_drops_labels() {
    let mut delp = Property {
        deleted: false,
        name: b"p".to_vec(),
        val: None,
        labels: Vec::new(),
    };
    delp.delete();
    let amend = Node {
        deleted: false,
        name: b"&what".to_vec(),
        proplist: vec![delp],
        children: Vec::new(),
        labels: Vec::new(),
    };
    let mut store = LabelStore::new();
    let (bi, _) = parse_dts(b"/dts-v1/; / { what: n { pl: p = <1>; }; };").expect("parse");
    let r = store.fill(&bi, &[amend]);
    assert_eq!(r, Ok(()));
    assert_eq!(store.path_from_label(b"pl"), None);
    let hist = store.changes_from_path(b"/n/p").expect("history");
    assert_eq!(hist.len(), 2);
    match hist.last().unwrap() {
        Element::Prop(p) => {
            assert!(p.deleted);
            assert_eq!(p.labels.len(), 0);
        }
        other => panic!("expected deleted property, got {:?}", other),
    }
}

#[test]
fn add_label_is_idempotent() {
    let mut n = Node {
        deleted: false,
        name: b"n".to_vec(),
        proplist: Vec::new(),
        children: Vec::new(),
        labels: Vec::new(),
    };
    n.add_label(b"a");
    n.add_label(b"b");
    n.add_label(b"a");
    assert_eq!(n.labels, vec![b"a".to_vec(), b"b".to_vec()]);
}
