use linkedom_rust::selector::{parse_selector_group, Combinator, ComplexSelector};

fn parse_one(s: &str) -> ComplexSelector {
    let mut g = parse_selector_group(s);
    assert_eq!(g.len(), 1, "expected one selector, got {}", g.len());
    g.remove(0)
}

#[test]
fn parses_tag_selector() {
    let s = parse_one("img");
    assert_eq!(s.steps.len(), 1);
    assert_eq!(s.steps[0].simple.tag, Some("img".into()));
}

#[test]
fn parses_class_selector() {
    let s = parse_one(".thumb");
    assert_eq!(s.steps[0].simple.tag, None);
    assert_eq!(s.steps[0].simple.classes, vec!["thumb"]);
}

#[test]
fn parses_id_selector() {
    let s = parse_one("#x");
    assert_eq!(s.steps[0].simple.id, Some("x".into()));
}

#[test]
fn parses_compound_selector() {
    let s = parse_one("img.thumb#hero");
    let step = &s.steps[0];
    assert_eq!(step.simple.tag, Some("img".into()));
    assert_eq!(step.simple.classes, vec!["thumb"]);
    assert_eq!(step.simple.id, Some("hero".into()));
}

#[test]
fn parses_attribute_presence() {
    let s = parse_one("img[src]");
    let attr = &s.steps[0].simple.attrs[0];
    assert_eq!(attr.name, "src");
    assert_eq!(attr.value, None);
}

#[test]
fn parses_attribute_value_quoted() {
    let s = parse_one("img[src=\"/a.png\"]");
    let attr = &s.steps[0].simple.attrs[0];
    assert_eq!(attr.name, "src");
    assert_eq!(attr.value, Some("/a.png".into()));
}

#[test]
fn parses_descendant_combinator() {
    let s = parse_one("main img");
    assert_eq!(s.steps.len(), 2);
    assert_eq!(s.steps[1].combinator, Some(Combinator::Descendant));
}

#[test]
fn parses_child_combinator() {
    let s = parse_one("main > img");
    assert_eq!(s.steps[1].combinator, Some(Combinator::Child));
}

#[test]
fn parses_selector_group() {
    let g = parse_selector_group("nav, footer, .sidebar");
    assert_eq!(g.len(), 3);
}
