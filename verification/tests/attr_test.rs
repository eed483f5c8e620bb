use linkedom_rust::{Document, DomError};

fn doc_with_p() -> (Document, u32) {
    let mut doc = Document::new();
    let p = doc.create_element("p");
    doc.append_child(0, p).unwrap();
    (doc, p)
}

#[test]
fn set_then_get_attribute() {
    let (mut doc, p) = doc_with_p();
    assert_eq!(doc.get_attribute(p, "src"), None);
    assert_eq!(doc.set_attribute(p, "src", "/old.png"), Ok(()));
    assert_eq!(doc.get_attribute(p, "src").as_deref(), Some("/old.png"));
    assert_eq!(doc.set_attribute(p, "src", "/new.png"), Ok(()));
    assert_eq!(doc.get_attribute(p, "src").as_deref(), Some("/new.png"));
    assert_eq!(doc.serialize(), "<p src=\"/new.png\"></p>");
}

#[test]
fn attribute_errors_and_absences() {
    let mut doc = Document::new();
    let t = doc.create_text_node("x");
    assert_eq!(doc.set_attribute(t, "a", "1"), Err(DomError::NotAnElement(t)));
    assert_eq!(doc.set_attribute(8, "a", "1"), Err(DomError::InvalidNode(8)));
    assert_eq!(doc.remove_attribute(t, "a"), Err(DomError::NotAnElement(t)));
    assert_eq!(doc.remove_attribute(8, "a"), Err(DomError::InvalidNode(8)));
    assert_eq!(doc.get_attribute(t, "a"), None);
    assert_eq!(doc.get_attribute(8, "a"), None);
    assert_eq!(doc.get_attribute(0, "a"), None);
}

#[test]
fn remove_attribute_removes_and_is_a_no_op_when_absent() {
    let (mut doc, p) = doc_with_p();
    assert_eq!(doc.remove_attribute(p, "class"), Ok(()));
    doc.set_attribute(p, "data-x", "1").unwrap();
    doc.set_attribute(p, "id", "k").unwrap();
    assert_eq!(doc.remove_attribute(p, "data-x"), Ok(()));
    assert_eq!(doc.get_attribute(p, "data-x"), None);
    assert_eq!(doc.get_attribute(p, "id").as_deref(), Some("k"));
}

#[test]
fn duplicate_attributes_first_wins_and_remove_takes_all() {
    let mut doc = Document::new();
    let p = doc.create_element_with_attrs(
        "p",
        vec![("a".to_string(), "1".to_string()), ("b".to_string(), "x".to_string()), ("a".to_string(), "2".to_string())],
    );
    doc.append_child(0, p).unwrap();
    assert_eq!(doc.get_attribute(p, "a").as_deref(), Some("1"));
    doc.set_attribute(p, "a", "3").unwrap();
    assert_eq!(doc.serialize(), "<p a=\"3\" b=\"x\" a=\"2\"></p>");
    doc.remove_attribute(p, "a").unwrap();
    assert_eq!(doc.serialize(), "<p b=\"x\"></p>");
}

#[test]
fn class_list_add_creates_appends_and_skips_duplicates() {
    let (mut doc, p) = doc_with_p();
    assert_eq!(doc.class_list_add(p, "a"), Ok(()));
    assert_eq!(doc.get_attribute(p, "class").as_deref(), Some("a"));
    doc.class_list_add(p, "b").unwrap();
    assert_eq!(doc.get_attribute(p, "class").as_deref(), Some("a b"));
    doc.class_list_add(p, "a").unwrap();
    assert_eq!(doc.get_attribute(p, "class").as_deref(), Some("a b"));
    assert_eq!(doc.class_list_contains(p, "b"), Ok(true));
}

#[test]
fn class_list_add_to_empty_or_spaced_class() {
    let (mut doc, p) = doc_with_p();
    doc.set_attribute(p, "class", "").unwrap();
    doc.class_list_add(p, "x").unwrap();
    assert_eq!(doc.get_attribute(p, "class").as_deref(), Some("x"));
    doc.set_attribute(p, "class", "  a  ").unwrap();
    doc.class_list_add(p, "b").unwrap();
    assert_eq!(doc.get_attribute(p, "class").as_deref(), Some("  a   b"));
    assert_eq!(doc.class_list_contains(p, "a"), Ok(true));
}

#[test]
fn class_list_remove_drops_every_occurrence_and_normalizes_spacing() {
    let (mut doc, p) = doc_with_p();
    doc.set_attribute(p, "class", " a b\ta  c ").unwrap();
    assert_eq!(doc.class_list_remove(p, "a"), Ok(()));
    assert_eq!(doc.get_attribute(p, "class").as_deref(), Some("b c"));
    assert_eq!(doc.class_list_contains(p, "a"), Ok(false));
    doc.class_list_remove(p, "zzz").unwrap();
    assert_eq!(doc.get_attribute(p, "class").as_deref(), Some("b c"));
    doc.class_list_remove(p, "b").unwrap();
    doc.class_list_remove(p, "c").unwrap();
    assert_eq!(doc.get_attribute(p, "class").as_deref(), Some(""));
}

#[test]
fn class_list_remove_without_class_attribute_adds_nothing() {
    let (mut doc, p) = doc_with_p();
    assert_eq!(doc.class_list_remove(p, "a"), Ok(()));
    assert_eq!(doc.get_attribute(p, "class"), None);
}

#[test]
fn class_list_contains_splits_on_whitespace() {
    let (mut doc, p) = doc_with_p();
    assert_eq!(doc.class_list_contains(p, "a"), Ok(false));
    doc.set_attribute(p, "class", "x\ty\nzz").unwrap();
    assert_eq!(doc.class_list_contains(p, "y"), Ok(true));
    assert_eq!(doc.class_list_contains(p, "zz"), Ok(true));
    assert_eq!(doc.class_list_contains(p, "z"), Ok(false));
    assert_eq!(doc.class_list_contains(p, ""), Ok(false));
    assert_eq!(doc.class_list_contains(p, "x\ty"), Ok(false));
}

#[test]
fn class_list_errors() {
    let mut doc = Document::new();
    let t = doc.create_text_node("x");
    assert_eq!(doc.class_list_add(t, "a"), Err(DomError::NotAnElement(t)));
    assert_eq!(doc.class_list_remove(t, "a"), Err(DomError::NotAnElement(t)));
    assert_eq!(doc.class_list_contains(t, "a"), Err(DomError::NotAnElement(t)));
    assert_eq!(doc.class_list_add(7, "a"), Err(DomError::InvalidNode(7)));
    assert_eq!(doc.class_list_remove(7, "a"), Err(DomError::InvalidNode(7)));
    assert_eq!(doc.class_list_contains(7, "a"), Err(DomError::InvalidNode(7)));
}

#[test]
fn class_list_add_then_remove_round_trip() {
    let (mut doc, p) = doc_with_p();
    doc.set_attribute(p, "class", "a").unwrap();
    doc.class_list_add(p, "b").unwrap();
    assert!(doc.class_list_contains(p, "b").unwrap());
    doc.class_list_remove(p, "a").unwrap();
    assert!(!doc.class_list_contains(p, "a").unwrap());
    assert_eq!(doc.get_attribute(p, "class").as_deref(), Some("b"));
}

#[test]
fn setting_or_removing_one_attribute_keeps_the_others() {
    let (mut doc, p) = doc_with_p();
    doc.set_attribute(p, "a", "1").unwrap();
    doc.set_attribute(p, "b", "2").unwrap();
    doc.set_attribute(p, "a", "3").unwrap();
    assert_eq!(doc.get_attribute(p, "b").as_deref(), Some("2"));
    doc.set_attribute(p, "c", "4").unwrap();
    assert_eq!(doc.get_attribute(p, "a").as_deref(), Some("3"));
    doc.remove_attribute(p, "a").unwrap();
    assert_eq!(doc.get_attribute(p, "b").as_deref(), Some("2"));
    assert_eq!(doc.get_attribute(p, "c").as_deref(), Some("4"));
    assert_eq!(doc.serialize(), "<p b=\"2\" c=\"4\"></p>");
}

#[test]
fn class_list_remove_of_an_absent_class_changes_nothing() {
    let (mut doc, p) = doc_with_p();
    doc.set_attribute(p, "class", " a\tb ").unwrap();
    assert_eq!(doc.class_list_remove(p, "c"), Ok(()));
    assert_eq!(doc.get_attribute(p, "class").as_deref(), Some(" a\tb "));
    doc.set_attribute(p, "class", " a").unwrap();
    doc.class_list_remove(p, "b").unwrap();
    assert_eq!(doc.get_attribute(p, "class").as_deref(), Some(" a"));
}
