use linkedom_rust::{Document, DomError};

#[test]
fn creates_document_root() {
    let doc = Document::new();
    assert_eq!(doc.root_id(), 0);
    assert_eq!(doc.node_count(), 1);
}

#[test]
fn default_document_is_a_new_document() {
    let doc = Document::default();
    assert_eq!(doc.root_id(), 0);
    assert_eq!(doc.node_count(), 1);
    assert_eq!(doc.children(0), Some(vec![]));
    assert_eq!(doc.parent(0), None);
}

#[test]
fn created_elements_get_consecutive_ids_and_start_detached() {
    let mut doc = Document::new();
    let a = doc.create_element("div");
    let b = doc.create_element("span");
    assert_eq!((a, b), (1, 2));
    assert_eq!(doc.node_count(), 3);
    assert_eq!(doc.parent(a), None);
    assert_eq!(doc.children(a), Some(vec![]));
    assert_eq!(doc.children(0), Some(vec![]));
}

#[test]
fn append_child_links_parent_and_children_in_order() {
    let mut doc = Document::new();
    let a = doc.create_element("a");
    let b = doc.create_element("b");
    let c = doc.create_element("c");
    assert_eq!(doc.append_child(0, a), Ok(()));
    assert_eq!(doc.append_child(0, b), Ok(()));
    assert_eq!(doc.append_child(b, c), Ok(()));
    assert_eq!(doc.children(0), Some(vec![a, b]));
    assert_eq!(doc.children(b), Some(vec![c]));
    assert_eq!(doc.parent(a), Some(0));
    assert_eq!(doc.parent(c), Some(b));
}

#[test]
fn append_child_reports_each_error() {
    let mut doc = Document::new();
    let a = doc.create_element("a");
    assert_eq!(doc.append_child(99, a), Err(DomError::InvalidNode(99)));
    assert_eq!(doc.append_child(0, 77), Err(DomError::InvalidNode(77)));
    assert_eq!(doc.append_child(a, 0), Err(DomError::CannotAppendRoot));
    assert_eq!(doc.append_child(0, a), Ok(()));
    assert_eq!(doc.append_child(0, a), Err(DomError::AlreadyAttached));
    // The parent is checked before the child.
    assert_eq!(doc.append_child(99, 0), Err(DomError::InvalidNode(99)));
    assert_eq!(doc.children(0), Some(vec![a]));
}

#[test]
fn remove_unlinks_node_and_keeps_sibling_order() {
    let mut doc = Document::new();
    let a = doc.create_element("a");
    let b = doc.create_element("b");
    let c = doc.create_element("c");
    for n in [a, b, c] {
        doc.append_child(0, n).unwrap();
    }
    assert_eq!(doc.remove(b), Ok(()));
    assert_eq!(doc.children(0), Some(vec![a, c]));
    assert_eq!(doc.parent(b), None);
    assert_eq!(doc.remove(a), Ok(()));
    assert_eq!(doc.remove(c), Ok(()));
    assert_eq!(doc.children(0), Some(vec![]));
}

#[test]
fn remove_is_idempotent() {
    let mut doc = Document::new();
    let a = doc.create_element("a");
    doc.append_child(0, a).unwrap();
    assert_eq!(doc.remove(a), Ok(()));
    assert_eq!(doc.remove(a), Ok(()));
    assert_eq!(doc.parent(a), None);
    assert_eq!(doc.children(0), Some(vec![]));
}

#[test]
fn remove_reports_root_and_unknown_ids() {
    let mut doc = Document::new();
    assert_eq!(doc.remove(0), Err(DomError::CannotRemoveRoot));
    assert_eq!(doc.remove(5), Err(DomError::InvalidNode(5)));
}

#[test]
fn removed_node_keeps_its_children() {
    let mut doc = Document::new();
    let div = doc.create_element("div");
    let span = doc.create_element("span");
    doc.append_child(0, div).unwrap();
    doc.append_child(div, span).unwrap();
    doc.remove(div).unwrap();
    assert_eq!(doc.parent(span), Some(div));
    assert_eq!(doc.children(div), Some(vec![span]));
    assert_eq!(doc.serialize(), "");
}

#[test]
fn remove_undoes_append() {
    let mut doc = Document::new();
    let a = doc.create_element("a");
    let b = doc.create_element("b");
    doc.append_child(0, a).unwrap();
    let before = doc.children(0);
    doc.append_child(0, b).unwrap();
    doc.remove(b).unwrap();
    assert_eq!(doc.children(0), before);
    assert_eq!(doc.parent(b), None);
}

#[test]
fn unknown_ids_have_no_children_and_no_parent() {
    let doc = Document::new();
    assert_eq!(doc.children(1), None);
    assert_eq!(doc.parent(1), None);
}

#[test]
fn anchored_nodes_are_those_with_a_finite_parent_chain() {
    let mut doc = Document::new();
    let a = doc.create_element("a");
    assert!(doc.is_anchored(0));
    assert!(doc.is_anchored(a));
    assert!(!doc.is_anchored(42));
}

#[test]
fn nodes_below_a_parent_cycle_still_have_finite_subtrees() {
    let mut doc = Document::new();
    let a = doc.create_element("a");
    let b = doc.create_element("b");
    let c = doc.create_element("c");
    let t = doc.create_text_node("t");
    doc.append_child(a, b).unwrap();
    // `a` is detached, so it may be appended under its own child: a cycle of parents.
    doc.append_child(b, a).unwrap();
    doc.append_child(a, c).unwrap();
    doc.append_child(c, t).unwrap();
    assert!(!doc.is_anchored(a));
    assert!(!doc.is_anchored(c));
    assert!(!doc.subtree_within(a, 100));
    assert!(doc.subtree_within(c, 2));
    assert!(!doc.subtree_within(c, 1));
    assert_eq!(doc.get_text_content(c), Some("t".to_string()));
    assert_eq!(doc.get_inner_html(c), Some("t".to_string()));
    assert!(!doc.subtree_within(42, 5));
}
