use linkedom_rust::selector::{parse_selector_group, selector_has_descendant};
use linkedom_rust::Document;

/// <main id="m"><div class="a b"><img src="/1.png" class="thumb"></div><img></main>
/// <nav><img class="thumb" alt=""></nav><footer data-k="v w"></footer>
fn sample() -> (Document, [u32; 7]) {
    let mut doc = Document::new();
    let main = doc.create_element("main");
    let div = doc.create_element("div");
    let img1 = doc.create_element("img");
    let img2 = doc.create_element("img");
    let nav = doc.create_element("nav");
    let img3 = doc.create_element("img");
    let footer = doc.create_element("footer");
    doc.append_child(0, main).unwrap();
    doc.append_child(main, div).unwrap();
    doc.append_child(div, img1).unwrap();
    doc.append_child(main, img2).unwrap();
    doc.append_child(0, nav).unwrap();
    doc.append_child(nav, img3).unwrap();
    doc.append_child(0, footer).unwrap();
    doc.set_attribute(main, "id", "m").unwrap();
    doc.set_attribute(div, "class", "a b").unwrap();
    doc.set_attribute(img1, "src", "/1.png").unwrap();
    doc.set_attribute(img1, "class", "thumb").unwrap();
    doc.set_attribute(img3, "class", "thumb").unwrap();
    doc.set_attribute(img3, "alt", "").unwrap();
    doc.set_attribute(footer, "data-k", "v w").unwrap();
    (doc, [main, div, img1, img2, nav, img3, footer])
}

#[test]
fn query_by_tag_in_document_order() {
    let (doc, [_, _, img1, img2, _, img3, _]) = sample();
    assert_eq!(doc.query_selector_all("img"), vec![img1, img2, img3]);
    assert_eq!(doc.query_selector("img"), Some(img1));
}

#[test]
fn query_by_class_id_and_attribute() {
    let (doc, [main, div, img1, _, _, img3, footer]) = sample();
    assert_eq!(doc.query_selector_all(".thumb"), vec![img1, img3]);
    assert_eq!(doc.query_selector_all(".b.a"), vec![div]);
    assert_eq!(doc.query_selector_all("#m"), vec![main]);
    assert_eq!(doc.query_selector_all("[src]"), vec![img1]);
    assert_eq!(doc.query_selector_all("img[src=\"/1.png\"]"), vec![img1]);
    assert_eq!(doc.query_selector_all("img[src='/2.png']"), Vec::<u32>::new());
    assert_eq!(doc.query_selector_all("[alt]"), vec![img3]);
    assert_eq!(doc.query_selector_all("[data-k=\"v w\"]"), vec![footer]);
    assert_eq!(doc.query_selector_all("img.thumb#m"), Vec::<u32>::new());
}

#[test]
fn query_with_combinators() {
    let (doc, [_, div, img1, img2, _, img3, _]) = sample();
    assert_eq!(doc.query_selector_all("main img"), vec![img1, img2]);
    assert_eq!(doc.query_selector_all("main > img"), vec![img2]);
    assert_eq!(doc.query_selector_all("main > div > img"), vec![img1]);
    assert_eq!(doc.query_selector_all("#m .thumb"), vec![img1]);
    assert_eq!(doc.query_selector_all("nav>img"), vec![img3]);
    assert_eq!(doc.query_selector_all("main div"), vec![div]);
    assert_eq!(doc.query_selector_all("div main"), Vec::<u32>::new());
}

#[test]
fn query_group_results_follow_document_order() {
    let (doc, [main, _, _, _, nav, _, footer]) = sample();
    assert_eq!(doc.query_selector_all("footer, nav, main"), vec![main, nav, footer]);
    assert_eq!(doc.query_selector_all("nav, nav"), vec![nav]);
}

#[test]
fn query_universal_and_empty_selectors() {
    let (doc, ids) = sample();
    let [_, div, img1, _, _, img3, _] = ids;
    // A bare `*` is the universal selector.
    assert_eq!(doc.query_selector_all("*"), ids.to_vec());
    assert_eq!(doc.query_selector_all("*[class]"), vec![div, img1, img3]);
    assert_eq!(doc.query_selector_all(""), Vec::<u32>::new());
    assert_eq!(doc.query_selector_all("   "), Vec::<u32>::new());
    assert_eq!(doc.query_selector(""), None);
    assert_eq!(doc.query_selector("table"), None);
}

#[test]
fn query_does_not_find_removed_or_detached_nodes() {
    let (mut doc, [_, div, img1, img2, _, img3, _]) = sample();
    let loose = doc.create_element("img");
    doc.remove(div).unwrap();
    assert_eq!(doc.query_selector_all("img"), vec![img2, img3]);
    assert!(!doc.query_selector_all("img").contains(&loose));
    assert!(!doc.query_selector_all(".thumb").contains(&img1));
}

#[test]
fn query_skips_text_nodes() {
    let mut doc = Document::new();
    let p = doc.create_element("p");
    let t = doc.create_text_node("p");
    doc.append_child(0, p).unwrap();
    doc.append_child(p, t).unwrap();
    assert_eq!(doc.query_selector_all("p"), vec![p]);
    assert_eq!(doc.query_selector_all("p p"), Vec::<u32>::new());
}

#[test]
fn selector_idents_accept_unicode_letters() {
    let g = parse_selector_group("ñav.café#día");
    assert_eq!(g.len(), 1);
    let simple = &g[0].steps[0].simple;
    assert_eq!(simple.tag.as_deref(), Some("ñav"));
    assert_eq!(simple.classes, vec!["café".to_string()]);
    assert_eq!(simple.id.as_deref(), Some("día"));
}

#[test]
fn selector_ident_stops_at_punctuation() {
    let g = parse_selector_group("a.b-c_d!e");
    assert_eq!(g.len(), 1);
    assert_eq!(g[0].steps.len(), 1);
    assert_eq!(g[0].steps[0].simple.classes, vec!["b-c_d".to_string()]);
}

#[test]
fn selector_tag_must_start_with_a_letter() {
    let g = parse_selector_group("1abc");
    assert!(g.is_empty());
    let star = parse_selector_group("*");
    assert_eq!(star.len(), 1);
    let simple = &star[0].steps[0].simple;
    assert_eq!(simple.tag, None);
    assert!(simple.id.is_none() && simple.classes.is_empty() && simple.attrs.is_empty());
    let g = parse_selector_group("main > *");
    assert_eq!(g[0].steps.len(), 2);
    let g = parse_selector_group("*.x");
    assert_eq!(g[0].steps[0].simple.tag, None);
    assert_eq!(g[0].steps[0].simple.classes, vec!["x".to_string()]);
}

#[test]
fn selector_attribute_values_unquoted_and_single_quoted() {
    let g = parse_selector_group("[ a = b ][c='d e']");
    let attrs = &g[0].steps[0].simple.attrs;
    assert_eq!(attrs.len(), 2);
    assert_eq!(attrs[0].name, "a");
    assert_eq!(attrs[0].value.as_deref(), Some("b"));
    assert_eq!(attrs[1].name, "c");
    assert_eq!(attrs[1].value.as_deref(), Some("d e"));
}

#[test]
fn universal_selector_in_combinators() {
    let (doc, [main, div, img1, img2, nav, img3, _]) = sample();
    assert_eq!(doc.query_selector_all("main > *"), vec![div, img2]);
    assert_eq!(doc.query_selector_all("nav *"), vec![img3]);
    assert_eq!(doc.query_selector_all("* > img"), vec![img1, img2, img3]);
    let _ = (main, nav);
}

#[test]
fn query_within_an_element() {
    let (doc, [main, div, img1, img2, _, _, _]) = sample();
    assert_eq!(doc.query_selector_all_in(main, "img"), Some(vec![img1, img2]));
    assert_eq!(doc.query_selector_all_in(div, "img"), Some(vec![img1]));
    // Combinators may reach above the element.
    assert_eq!(doc.query_selector_all_in(div, "main img"), Some(vec![img1]));
    assert_eq!(doc.query_selector_all_in(main, "main"), Some(vec![main]));
    assert_eq!(doc.query_selector_all_in(99, "img"), None);
}

#[test]
fn descendant_combinators_are_recognised() {
    assert!(selector_has_descendant("main img"));
    assert!(selector_has_descendant("p, nav  a > b"));
    assert!(!selector_has_descendant("main > img"));
    assert!(!selector_has_descendant("img.thumb, nav>a"));
    assert!(!selector_has_descendant(""));
}

#[test]
fn query_below_a_parent_cycle_without_descendant_combinators() {
    let mut doc = Document::new();
    let a = doc.create_element("a");
    let b = doc.create_element("b");
    let div = doc.create_element("div");
    let p = doc.create_element("p");
    doc.append_child(a, b).unwrap();
    doc.append_child(b, a).unwrap();
    doc.append_child(a, div).unwrap();
    doc.append_child(div, p).unwrap();
    assert!(!doc.is_anchored(div));
    assert!(doc.subtree_within(div, 10));
    assert_eq!(doc.query_selector_all_in(div, "p"), Some(vec![p]));
    assert_eq!(doc.query_selector_all_in(div, "div > p"), Some(vec![p]));
    assert_eq!(doc.query_selector_all_in(div, "a > div"), Some(vec![div]));
    assert_eq!(doc.query_selector_all_in(div, "b > div"), Some(vec![]));
}
