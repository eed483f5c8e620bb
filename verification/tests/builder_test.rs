use linkedom_rust::Document;

#[test]
fn append_node_moves_an_attached_node() {
    let mut doc = Document::new();
    let a = doc.create_element("a");
    let b = doc.create_element("b");
    doc.append_child(0, a).unwrap();
    doc.append_child(0, b).unwrap();
    doc.append_node(a, b);
    assert_eq!(doc.children(0), Some(vec![a]));
    assert_eq!(doc.children(a), Some(vec![b]));
    assert_eq!(doc.parent(b), Some(a));
}

#[test]
fn append_text_merges_with_a_trailing_text_node() {
    let mut doc = Document::new();
    let div = doc.create_element("div");
    doc.append_child(0, div).unwrap();
    doc.append_text(div, "a");
    doc.append_text(div, "b");
    assert_eq!(doc.children(div).map(|c| c.len()), Some(1));
    assert_eq!(doc.get_text_content(div), Some("ab".to_string()));
    let br = doc.create_element("br");
    doc.append_child(div, br).unwrap();
    doc.append_text(div, "c");
    assert_eq!(doc.children(div).map(|c| c.len()), Some(3));
    assert_eq!(doc.serialize(), "<div>ab<br>c</div>");
}

#[test]
fn append_before_sibling_inserts_in_place() {
    let mut doc = Document::new();
    let a = doc.create_element("a");
    let b = doc.create_element("b");
    let x = doc.create_element("x");
    doc.append_child(0, a).unwrap();
    doc.append_child(0, b).unwrap();
    doc.append_before_sibling(b, x);
    assert_eq!(doc.children(0), Some(vec![a, x, b]));
    assert_eq!(doc.parent(x), Some(0));
    let y = doc.create_element("y");
    doc.append_before_sibling(a, y);
    assert_eq!(doc.children(0), Some(vec![y, a, x, b]));
    // Moving an attached node: it leaves its old place.
    doc.append_before_sibling(y, b);
    assert_eq!(doc.children(0), Some(vec![b, y, a, x]));
    assert_eq!(doc.serialize(), "<b></b><y></y><a></a><x></x>");
}

#[test]
fn append_before_a_detached_sibling_does_nothing() {
    let mut doc = Document::new();
    let a = doc.create_element("a");
    let x = doc.create_element("x");
    doc.append_before_sibling(a, x);
    assert_eq!(doc.parent(x), None);
    doc.append_text_before_sibling(a, "t");
    assert_eq!(doc.node_count(), 3);
}

#[test]
fn append_text_before_sibling_merges_with_previous_text() {
    let mut doc = Document::new();
    let p = doc.create_element("p");
    let b = doc.create_element("b");
    doc.append_child(0, p).unwrap();
    doc.append_child(p, b).unwrap();
    doc.append_text_before_sibling(b, "x");
    doc.append_text_before_sibling(b, "y");
    assert_eq!(doc.children(p).map(|c| c.len()), Some(2));
    assert_eq!(doc.serialize(), "<p>xy<b></b></p>");
}

#[test]
fn append_based_on_parent_chooses_by_element_parent() {
    let mut doc = Document::new();
    let table = doc.create_element("table");
    let prev = doc.create_element("div");
    let x = doc.create_element("x");
    doc.append_child(0, table).unwrap();
    doc.append_node_based_on_parent(table, prev, x);
    assert_eq!(doc.children(0), Some(vec![x, table]));
    let loose = doc.create_element("loose");
    let y = doc.create_element("y");
    doc.append_node_based_on_parent(loose, prev, y);
    assert_eq!(doc.children(prev), Some(vec![y]));
    doc.append_text_based_on_parent(table, prev, "t");
    doc.append_text_based_on_parent(loose, prev, "u");
    assert_eq!(doc.get_inner_html(0), Some("<x></x>t<table></table>".to_string()));
    assert_eq!(doc.get_inner_html(prev), Some("<y></y>u".to_string()));
}

#[test]
fn creates_comments_fragments_and_elements_with_attributes() {
    let mut doc = Document::new();
    let c = doc.create_comment("c");
    let f = doc.create_fragment();
    let e = doc.create_element_with_attrs("a", vec![("href".to_string(), "/x".to_string())]);
    assert_eq!((c, f, e), (1, 2, 3));
    assert_eq!(doc.get_attribute(e, "href").as_deref(), Some("/x"));
    doc.append_child(f, e).unwrap();
    assert_eq!(doc.get_inner_html(f), Some("<a href=\"/x\"></a>".to_string()));
    assert_eq!(doc.parent(f), None);
}

#[test]
fn append_doctype_goes_under_the_root() {
    let mut doc = Document::new();
    let html = doc.create_element("html");
    doc.append_child(0, html).unwrap();
    doc.append_doctype("html", "-//W3C//DTD", "about:legacy");
    assert_eq!(doc.children(0), Some(vec![html, 2]));
    assert_eq!(doc.serialize(), "<html></html><!DOCTYPE html>");
}

#[test]
fn add_attrs_if_missing_keeps_existing_values() {
    let mut doc = Document::new();
    let p = doc.create_element("p");
    doc.append_child(0, p).unwrap();
    doc.set_attribute(p, "a", "1").unwrap();
    doc.add_attrs_if_missing(
        p,
        vec![
            ("a".to_string(), "2".to_string()),
            ("b".to_string(), "3".to_string()),
            ("b".to_string(), "4".to_string()),
        ],
    );
    assert_eq!(doc.serialize(), "<p a=\"1\" b=\"3\"></p>");
    let t = doc.create_text_node("t");
    doc.add_attrs_if_missing(t, vec![("a".to_string(), "1".to_string())]);
    assert_eq!(doc.get_attribute(t, "a"), None);
}

#[test]
fn reparent_children_moves_all_children_in_order() {
    let mut doc = Document::new();
    let from = doc.create_element("from");
    let to = doc.create_element("to");
    let a = doc.create_element("a");
    let b = doc.create_element("b");
    let c = doc.create_element("c");
    doc.append_child(0, from).unwrap();
    doc.append_child(0, to).unwrap();
    doc.append_child(to, c).unwrap();
    doc.append_child(from, a).unwrap();
    doc.append_child(from, b).unwrap();
    doc.reparent_children(from, to);
    assert_eq!(doc.children(from), Some(vec![]));
    assert_eq!(doc.children(to), Some(vec![c, a, b]));
    assert_eq!(doc.parent(a), Some(to));
}

#[test]
fn replace_children_with_moves_the_source_children() {
    let mut doc = Document::new();
    let p = doc.create_element("p");
    let old = doc.create_text_node("old");
    let frag = doc.create_fragment();
    let b = doc.create_element("b");
    let t = doc.create_text_node("new");
    doc.append_child(0, p).unwrap();
    doc.append_child(p, old).unwrap();
    doc.append_child(frag, b).unwrap();
    doc.append_child(frag, t).unwrap();
    let moved = doc.get_inner_html(frag);
    assert_eq!(moved.as_deref(), Some("<b></b>new"));
    assert_eq!(doc.replace_children_with(p, frag), Ok(()));
    assert_eq!(doc.get_inner_html(p), moved);
    assert_eq!(doc.children(p), Some(vec![b, t]));
    assert_eq!(doc.children(frag), Some(vec![]));
    assert_eq!(doc.parent(old), None);
    assert_eq!(doc.serialize(), "<p><b></b>new</p>");
}

#[test]
fn replace_children_with_reports_errors() {
    let mut doc = Document::new();
    let t = doc.create_text_node("x");
    let frag = doc.create_fragment();
    assert_eq!(doc.replace_children_with(t, frag), Err(linkedom_rust::DomError::NotAnElement(t)));
    assert_eq!(doc.replace_children_with(40, frag), Err(linkedom_rust::DomError::InvalidNode(40)));
}
