use linkedom_rust::serialize::{escape_attr, escape_text, is_void};
use linkedom_rust::{Document, DomError};

#[test]
fn new_document_serializes_to_nothing() {
    assert_eq!(Document::new().serialize(), "");
}

#[test]
fn serializes_nested_elements_with_attributes() {
    let mut doc = Document::new();
    let div = doc.create_element("div");
    let span = doc.create_element("span");
    let text = doc.create_text_node("hi");
    doc.append_child(0, div).unwrap();
    doc.append_child(div, span).unwrap();
    doc.append_child(span, text).unwrap();
    doc.set_attribute(div, "id", "a").unwrap();
    doc.set_attribute(div, "class", "x y").unwrap();
    assert_eq!(doc.serialize(), "<div id=\"a\" class=\"x y\"><span>hi</span></div>");
}

#[test]
fn void_elements_have_no_closing_tag() {
    let mut doc = Document::new();
    let p = doc.create_element("p");
    let img = doc.create_element("img");
    let br = doc.create_element("br");
    doc.append_child(0, p).unwrap();
    doc.append_child(p, img).unwrap();
    doc.append_child(p, br).unwrap();
    doc.set_attribute(img, "src", "/a.png").unwrap();
    assert_eq!(doc.serialize(), "<p><img src=\"/a.png\"><br></p>");
}

#[test]
fn children_of_a_void_element_are_not_serialized() {
    let mut doc = Document::new();
    let img = doc.create_element("img");
    let t = doc.create_text_node("lost");
    doc.append_child(0, img).unwrap();
    doc.append_child(img, t).unwrap();
    assert_eq!(doc.serialize(), "<img>");
}

#[test]
fn serialization_escapes_text_and_attribute_values() {
    let mut doc = Document::new();
    let p = doc.create_element("p");
    let t = doc.create_text_node("a<b & c>d \"q\"");
    doc.append_child(0, p).unwrap();
    doc.append_child(p, t).unwrap();
    doc.set_attribute(p, "title", "x\"y<&>").unwrap();
    assert_eq!(
        doc.serialize(),
        "<p title=\"x&quot;y&lt;&amp;>\">a&lt;b &amp; c&gt;d \"q\"</p>"
    );
}

#[test]
fn escape_functions_replace_exactly_their_characters() {
    assert_eq!(escape_text("<a href='x'>&amp;</a>"), "&lt;a href='x'&gt;&amp;amp;&lt;/a&gt;");
    assert_eq!(escape_text("plain \"text\""), "plain \"text\"");
    assert_eq!(escape_attr("<\"&'>"), "&lt;&quot;&amp;'>");
    assert_eq!(escape_attr(""), "");
    assert_eq!(escape_text("é€"), "é€");
}

#[test]
fn void_tags_are_the_html_void_elements() {
    for tag in [
        "area", "base", "br", "col", "embed", "hr", "img", "input", "keygen", "link", "meta",
        "param", "source", "track", "wbr",
    ] {
        assert!(is_void(tag), "{tag}");
    }
    for tag in ["div", "BR", "image", "", "brr", "p"] {
        assert!(!is_void(tag), "{tag}");
    }
}

#[test]
fn serializes_comments_and_doctype() {
    let mut doc = Document::new();
    doc.append_doctype("html", "", "");
    let c = doc.create_comment(" note ");
    doc.append_child(0, c).unwrap();
    assert_eq!(doc.serialize(), "<!DOCTYPE html><!-- note -->");
}

#[test]
fn inner_html_serializes_only_the_children() {
    let mut doc = Document::new();
    let div = doc.create_element("div");
    let b = doc.create_element("b");
    let t = doc.create_text_node("bold");
    let tail = doc.create_text_node("!");
    doc.append_child(0, div).unwrap();
    doc.append_child(div, b).unwrap();
    doc.append_child(b, t).unwrap();
    doc.append_child(div, tail).unwrap();
    assert_eq!(doc.get_inner_html(div), Some("<b>bold</b>!".to_string()));
    assert_eq!(doc.get_inner_html(b), Some("bold".to_string()));
    assert_eq!(doc.get_inner_html(t), Some(String::new()));
    assert_eq!(doc.get_inner_html(0), Some("<div><b>bold</b>!</div>".to_string()));
    assert_eq!(doc.get_inner_html(50), None);
}

#[test]
fn text_content_concatenates_descendant_text_in_document_order() {
    let mut doc = Document::new();
    let div = doc.create_element("div");
    let span = doc.create_element("span");
    let t1 = doc.create_text_node("a");
    let t2 = doc.create_text_node("b");
    let t3 = doc.create_text_node("c");
    let c = doc.create_comment("skipped");
    doc.append_child(0, div).unwrap();
    doc.append_child(div, t1).unwrap();
    doc.append_child(div, span).unwrap();
    doc.append_child(span, t2).unwrap();
    doc.append_child(div, c).unwrap();
    doc.append_child(div, t3).unwrap();
    assert_eq!(doc.get_text_content(div), Some("abc".to_string()));
    assert_eq!(doc.get_text_content(span), Some("b".to_string()));
    assert_eq!(doc.get_text_content(t3), Some("c".to_string()));
    assert_eq!(doc.get_text_content(c), Some(String::new()));
    assert_eq!(doc.get_text_content(0), Some("abc".to_string()));
    assert_eq!(doc.get_text_content(99), None);
}

#[test]
fn set_text_content_replaces_all_children() {
    let mut doc = Document::new();
    let p = doc.create_element("p");
    let old = doc.create_text_node("old text");
    let em = doc.create_element("em");
    doc.append_child(0, p).unwrap();
    doc.append_child(p, old).unwrap();
    doc.append_child(p, em).unwrap();
    assert_eq!(doc.set_text_content(p, "new <text>"), Ok(()));
    assert_eq!(doc.get_text_content(p), Some("new <text>".to_string()));
    assert_eq!(doc.get_inner_html(p), Some("new &lt;text&gt;".to_string()));
    assert_eq!(doc.parent(old), None);
    assert_eq!(doc.parent(em), None);
    assert_eq!(doc.children(p).map(|c| c.len()), Some(1));
    assert_eq!(doc.serialize(), "<p>new &lt;text&gt;</p>");
    assert_eq!(doc.node_count(), 5);
}

#[test]
fn set_text_content_reports_errors() {
    let mut doc = Document::new();
    let t = doc.create_text_node("x");
    assert_eq!(doc.set_text_content(t, "y"), Err(DomError::NotAnElement(t)));
    assert_eq!(doc.set_text_content(0, "y"), Err(DomError::NotAnElement(0)));
    assert_eq!(doc.set_text_content(9, "y"), Err(DomError::InvalidNode(9)));
    assert_eq!(doc.node_count(), 2);
    assert_eq!(doc.get_text_content(t), Some("x".to_string()));
}

#[test]
fn appending_adds_the_child_html_at_the_end_of_the_inner_html() {
    let mut doc = Document::new();
    let div = doc.create_element("div");
    let t = doc.create_text_node("a");
    doc.append_child(0, div).unwrap();
    doc.append_child(div, t).unwrap();
    let before = doc.get_inner_html(div).unwrap();
    let span = doc.create_element("span");
    let inner = doc.create_text_node("x&y");
    doc.append_child(span, inner).unwrap();
    doc.set_attribute(span, "class", "c").unwrap();
    doc.append_child(div, span).unwrap();
    assert_eq!(doc.get_inner_html(div).unwrap(), before + "<span class=\"c\">x&amp;y</span>");
    assert_eq!(doc.serialize(), "<div>a<span class=\"c\">x&amp;y</span></div>");
}
