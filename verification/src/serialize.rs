use vstd::prelude::*;

use crate::arena::{lemma_child_ok, lemma_node_ok, lemma_wf_consistent, Arena};
use crate::model::DomTree;
use crate::node::{attrs_view, KindView, NodeKind};
use crate::text::{push_char, push_str, str_chars, str_eq};

verus! {

/// HTML void elements that must not have a closing tag.
pub open spec fn is_void_tag(tag: Seq<char>) -> bool {
    ||| tag == "area"@
    ||| tag == "base"@
    ||| tag == "br"@
    ||| tag == "col"@
    ||| tag == "embed"@
    ||| tag == "hr"@
    ||| tag == "img"@
    ||| tag == "input"@
    ||| tag == "keygen"@
    ||| tag == "link"@
    ||| tag == "meta"@
    ||| tag == "param"@
    ||| tag == "source"@
    ||| tag == "track"@
    ||| tag == "wbr"@
}

/// Whether `tag` names an HTML void element.
pub fn is_void(tag: &str) -> (r: bool)
    ensures
        r == is_void_tag(tag@),
{
    str_eq(tag, "area") || str_eq(tag, "base") || str_eq(tag, "br") || str_eq(tag, "col")
        || str_eq(tag, "embed") || str_eq(tag, "hr") || str_eq(tag, "img") || str_eq(tag, "input")
        || str_eq(tag, "keygen") || str_eq(tag, "link") || str_eq(tag, "meta") || str_eq(
        tag,
        "param",
    ) || str_eq(tag, "source") || str_eq(tag, "track") || str_eq(tag, "wbr")
}

/// Text content with `&`, `<` and `>` written as character references.
pub open spec fn escaped_text(s: Seq<char>) -> Seq<char>
    decreases s.len(),
{
    if s.len() == 0 {
        Seq::empty()
    } else {
        escaped_text(s.drop_last()) + {
            let c = s.last();
            if c == '&' {
                "&amp;"@
            } else if c == '<' {
                "&lt;"@
            } else if c == '>' {
                "&gt;"@
            } else {
                seq![c]
            }
        }
    }
}

/// An attribute value with `&`, `<` and `"` written as character references.
pub open spec fn escaped_attr(s: Seq<char>) -> Seq<char>
    decreases s.len(),
{
    if s.len() == 0 {
        Seq::empty()
    } else {
        escaped_attr(s.drop_last()) + {
            let c = s.last();
            if c == '&' {
                "&amp;"@
            } else if c == '<' {
                "&lt;"@
            } else if c == '"' {
                "&quot;"@
            } else {
                seq![c]
            }
        }
    }
}

/// Text content with `&`, `<` and `>` escaped.
pub fn escape_text(s: &str) -> (r: String)
    ensures
        r@ == escaped_text(s@),
{
    let cs = str_chars(s);
    let mut out = String::new();
    let mut i: usize = 0;
    while i < cs.len()
        invariant
            0 <= i <= cs@.len(),
            cs@ == s@,
            out@ == escaped_text(cs@.take(i as int)),
        decreases cs@.len() - i,
    {
        let c = cs[i];
        if c == '&' {
            push_str(&mut out, "&amp;");
        } else if c == '<' {
            push_str(&mut out, "&lt;");
        } else if c == '>' {
            push_str(&mut out, "&gt;");
        } else {
            push_char(&mut out, c);
            proof {
                assert(seq![c] =~= Seq::<char>::empty().push(c));
            }
        }
        proof {
            assert(cs@.take(i + 1).drop_last() =~= cs@.take(i as int));
        }
        i = i + 1;
    }
    proof {
        assert(cs@.take(cs@.len() as int) =~= cs@);
    }
    out
}

/// An attribute value with `&`, `<` and `"` escaped.
pub fn escape_attr(s: &str) -> (r: String)
    ensures
        r@ == escaped_attr(s@),
{
    let cs = str_chars(s);
    let mut out = String::new();
    let mut i: usize = 0;
    while i < cs.len()
        invariant
            0 <= i <= cs@.len(),
            cs@ == s@,
            out@ == escaped_attr(cs@.take(i as int)),
        decreases cs@.len() - i,
    {
        let c = cs[i];
        if c == '&' {
            push_str(&mut out, "&amp;");
        } else if c == '<' {
            push_str(&mut out, "&lt;");
        } else if c == '"' {
            push_str(&mut out, "&quot;");
        } else {
            push_char(&mut out, c);
            proof {
                assert(seq![c] =~= Seq::<char>::empty().push(c));
            }
        }
        proof {
            assert(cs@.take(i + 1).drop_last() =~= cs@.take(i as int));
        }
        i = i + 1;
    }
    proof {
        assert(cs@.take(cs@.len() as int) =~= cs@);
    }
    out
}


/// The attributes of a start tag: ` name="value"` for each, in order.
pub open spec fn attrs_html(attrs: Seq<(Seq<char>, Seq<char>)>) -> Seq<char>
    decreases attrs.len(),
{
    if attrs.len() == 0 {
        Seq::empty()
    } else {
        let (k, v) = attrs.last();
        attrs_html(attrs.drop_last()) + " "@ + k + "=\""@ + escaped_attr(v) + "\""@
    }
}

/// The HTML of the subtree at `x`, descending at most `fuel` levels.
pub open spec fn node_html(t: DomTree, x: u32, fuel: nat) -> Seq<char>
    decreases fuel, 0nat, 0int,
{
    if fuel == 0 {
        Seq::empty()
    } else {
        let inner = kids_html(t, x, t.kids[x as int].len() as int, (fuel - 1) as nat);
        match t.kinds[x as int] {
            KindView::Document => inner,
            KindView::DocumentType { name, .. } => "<!DOCTYPE "@ + name + ">"@,
            KindView::Element { tag, attrs } => "<"@ + tag + attrs_html(attrs) + ">"@ + if is_void_tag(
                tag,
            ) {
                Seq::empty()
            } else {
                inner + "</"@ + tag + ">"@
            },
            KindView::Text { data } => escaped_text(data),
            KindView::Comment { data } => "<!--"@ + data + "-->"@,
        }
    }
}

/// The HTML of the first `i` children of `x`, one after another.
pub open spec fn kids_html(t: DomTree, x: u32, i: int, fuel: nat) -> Seq<char>
    decreases fuel, 1nat, i,
{
    if i <= 0 {
        Seq::empty()
    } else {
        kids_html(t, x, i - 1, fuel) + node_html(t, t.kids[x as int][i - 1], fuel)
    }
}

/// The HTML of the children of `x` (its inner HTML), with enough fuel for the finite
/// subtree at `x`.
pub open spec fn inner_html(t: DomTree, x: u32) -> Seq<char> {
    kids_html(t, x, t.kids[x as int].len() as int, (t.height(x) - 1) as nat)
}

/// Fuel that reaches below a bounded subtree gives its whole HTML: any more gives the same.
pub proof fn lemma_html_fuel_bounded(t: DomTree, x: u32, h: nat, f1: nat, f2: nat)
    requires
        t.bounded(x, h),
        f1 >= h,
        f2 >= h,
    ensures
        node_html(t, x, f1) == node_html(t, x, f2),
    decreases h, 0nat, 0int,
{
    lemma_kids_html_fuel_bounded(
        t,
        x,
        t.kids[x as int].len() as int,
        (h - 1) as nat,
        (f1 - 1) as nat,
        (f2 - 1) as nat,
    );
}

/// Fuel that reaches below the bounded subtrees of the first `i` children of `x` gives
/// their whole HTML.
pub proof fn lemma_kids_html_fuel_bounded(t: DomTree, x: u32, i: int, h: nat, f1: nat, f2: nat)
    requires
        t.kids_bounded(x, i, h),
        f1 >= h,
        f2 >= h,
    ensures
        kids_html(t, x, i, f1) == kids_html(t, x, i, f2),
    decreases h, 1nat, i,
{
    if i > 0 {
        lemma_kids_html_fuel_bounded(t, x, i - 1, h, f1, f2);
        lemma_html_fuel_bounded(t, t.kids[x as int][i - 1], h, f1, f2);
    }
}

/// The inner HTML computed with any fuel that reaches below the children.
pub proof fn lemma_inner_html_fuel(t: DomTree, x: u32, h: nat, f: nat)
    requires
        t.bounded(x, h),
        f + 1 >= h,
    ensures
        t.finite_below(x),
        inner_html(t, x) == kids_html(t, x, t.kids[x as int].len() as int, f),
{
    let g = t.height(x);
    assert(t.bounded(x, g));
    let n = t.kids[x as int].len() as int;
    if g <= h {
        lemma_kids_html_fuel_bounded(t, x, n, (g - 1) as nat, (g - 1) as nat, f);
    } else {
        lemma_kids_html_fuel_bounded(t, x, n, (h - 1) as nat, (g - 1) as nat, f);
    }
}

/// Any fuel that reaches below the deepest node gives the same HTML.
pub proof fn lemma_html_fuel(t: DomTree, x: u32, d: nat, f1: nat, f2: nat)
    requires
        t.consistent(),
        t.valid(x),
        t.depth_is(x, d),
        f1 >= t.len() - d,
        f2 >= t.len() - d,
    ensures
        node_html(t, x, f1) == node_html(t, x, f2),
    decreases f1, 0nat, 0int,
{
    t.lemma_depth_bound(x, d);
    lemma_kids_html_fuel(
        t,
        x,
        d,
        t.kids[x as int].len() as int,
        (f1 - 1) as nat,
        (f2 - 1) as nat,
    );
}

/// Any fuel that reaches below the deepest node gives the same HTML of the first `i`
/// children.
pub proof fn lemma_kids_html_fuel(t: DomTree, x: u32, d: nat, i: int, f1: nat, f2: nat)
    requires
        t.consistent(),
        t.valid(x),
        t.depth_is(x, d),
        0 <= i <= t.kids[x as int].len(),
        f1 >= t.len() - d - 1,
        f2 >= t.len() - d - 1,
    ensures
        kids_html(t, x, i, f1) == kids_html(t, x, i, f2),
    decreases f1, 1nat, i,
{
    if i > 0 {
        let c = t.kids[x as int][i - 1];
        t.lemma_child_depth(x, d, c);
        lemma_kids_html_fuel(t, x, d, i - 1, f1, f2);
        lemma_html_fuel(t, c, d + 1, f1, f2);
    }
}

/// The HTML of `x` depends only on the kinds and child lists of the nodes below `x`.
pub proof fn lemma_html_frame(t: DomTree, t2: DomTree, x: u32, f: nat)
    requires
        t.consistent(),
        t.valid(x),
        forall|y: u32|
            t.valid(y) && #[trigger] t.is_inclusive_ancestor(x, y) ==> t2.kinds[y as int]
                == t.kinds[y as int] && t2.kids[y as int] == t.kids[y as int],
    ensures
        node_html(t2, x, f) == node_html(t, x, f),
    decreases f, 0nat, 0int,
{
    assert(t.up(x, 0) == Some(x));
    assert(t.is_inclusive_ancestor(x, x));
    if f > 0 {
        lemma_kids_html_frame(t, t2, x, t.kids[x as int].len() as int, (f - 1) as nat);
    }
}

/// The HTML of the first `i` children of `x` depends only on the kinds and child lists
/// of the nodes below `x`.
pub proof fn lemma_kids_html_frame(t: DomTree, t2: DomTree, x: u32, i: int, f: nat)
    requires
        t.consistent(),
        t.valid(x),
        0 <= i <= t.kids[x as int].len(),
        forall|y: u32|
            t.valid(y) && #[trigger] t.is_inclusive_ancestor(x, y) ==> t2.kinds[y as int]
                == t.kinds[y as int] && t2.kids[y as int] == t.kids[y as int],
    ensures
        kids_html(t2, x, i, f) == kids_html(t, x, i, f),
    decreases f, 1nat, i,
{
    assert(t.up(x, 0) == Some(x));
    assert(t.is_inclusive_ancestor(x, x));
    if i > 0 {
        let c = t.kids[x as int][i - 1];
        assert(t.parents[c as int] == Some(x));
        assert forall|y: u32| t.valid(y) && #[trigger] t.is_inclusive_ancestor(c, y) implies t2.kinds[
            y as int] == t.kinds[y as int] && t2.kids[y as int] == t.kids[y as int] by {
            let k = choose|k: nat| t.up(y, k) == Some(c);
            t.lemma_up_add(y, k, 1);
            t.lemma_up_one(c);
            assert(t.up(y, k + 1) == Some(x));
            assert(t.is_inclusive_ancestor(x, y));
        }
        lemma_kids_html_frame(t, t2, x, i - 1, f);
        lemma_html_frame(t, t2, c, f);
    }
}

fn push_attrs(attrs: &Vec<(String, String)>, out: &mut String)
    ensures
        final(out)@ == old(out)@ + attrs_html(attrs_view(attrs@)),
{
    let ghost av = attrs_view(attrs@);
    let mut i: usize = 0;
    while i < attrs.len()
        invariant
            0 <= i <= attrs@.len(),
            av == attrs_view(attrs@),
            out@ == old(out)@ + attrs_html(av.take(i as int)),
        decreases attrs@.len() - i,
    {
        let (k, v) = (&attrs[i].0, &attrs[i].1);
        let ghost before = out@;
        push_char(out, ' ');
        push_str(out, k.as_str());
        push_str(out, "=\"");
        push_str(out, escape_attr(v.as_str()).as_str());
        push_char(out, '"');
        proof {
            assert(av.take(i + 1).drop_last() =~= av.take(i as int));
            assert(av.take(i + 1).last() == (k@, v@));
            reveal_strlit(" ");
            reveal_strlit("\"");
            assert(" "@ =~= seq![' ']);
            assert("\""@ =~= seq!['"']);
            assert(out@ =~= before + " "@ + k@ + "=\""@ + escaped_attr(v@) + "\""@);
        }
        i = i + 1;
    }
    proof {
        assert(av.take(attrs@.len() as int) =~= av);
    }
}

fn serialize_node(arena: &Arena, id: u32, out: &mut String, Ghost(h): Ghost<nat>)
    requires
        arena.wf(),
        arena.view().valid(id),
        arena.view().bounded(id, h),
    ensures
        final(out)@ == old(out)@ + node_html(arena.view(), id, h),
    decreases h, 1nat,
{
    let ghost t = arena.view();
    proof {
        lemma_wf_consistent(arena);
    }
    let ghost fuel = h;
    let node = arena.get(id).unwrap();
    let first_child = node.first_child;
    proof {
        lemma_node_ok(arena.node_seq(), arena.kid_seqs(), id as int);
    }
    let ghost inner = kids_html(t, id, t.kids[id as int].len() as int, (fuel - 1) as nat);
    match &node.kind {
        NodeKind::Document => {
            serialize_children(arena, first_child, out, Ghost(id), Ghost(h));
        },
        NodeKind::DocumentType { name, .. } => {
            push_str(out, "<!DOCTYPE ");
            push_str(out, name.as_str());
            push_char(out, '>');
            proof {
                reveal_strlit(">");
                assert(">"@ =~= seq!['>']);
                assert(out@ =~= old(out)@ + node_html(t, id, fuel));
            }
        },
        NodeKind::Element { tag, attrs } => {
            push_char(out, '<');
            push_str(out, tag.as_str());
            push_attrs(attrs, out);
            push_char(out, '>');
            let ghost head = out@;
            proof {
                reveal_strlit("<");
                reveal_strlit(">");
                assert("<"@ =~= seq!['<']);
                assert(">"@ =~= seq!['>']);
                assert(head =~= old(out)@ + "<"@ + tag@ + attrs_html(attrs_view(attrs@)) + ">"@);
            }
            if !is_void(tag.as_str()) {
                serialize_children(arena, first_child, out, Ghost(id), Ghost(h));
                push_str(out, "</");
                push_str(out, tag.as_str());
                push_char(out, '>');
                proof {
                    reveal_strlit(">");
                    assert(">"@ =~= seq!['>']);
                    assert(out@ =~= head + (inner + "</"@ + tag@ + ">"@));
                }
            } else {
                proof {
                    assert(out@ =~= head + Seq::<char>::empty());
                }
            }
        },
        NodeKind::Text { data } => {
            push_str(out, escape_text(data.as_str()).as_str());
        },
        NodeKind::Comment { data } => {
            // Comment data is stored verbatim from the parser. The HTML spec
            // forbids "-->" inside a comment, so no further escaping is needed.
            push_str(out, "<!--");
            push_str(out, data.as_str());
            push_str(out, "-->");
        },
    }
}

fn serialize_children(
    arena: &Arena,
    first_child: Option<u32>,
    out: &mut String,
    Ghost(parent): Ghost<u32>,
    Ghost(h): Ghost<nat>,
)
    requires
        arena.wf(),
        arena.view().valid(parent),
        arena.view().bounded(parent, h),
        first_child == (if arena.view().kids[parent as int].len() == 0 {
            None
        } else {
            Some(arena.view().kids[parent as int][0])
        }),
    ensures
        final(out)@ == old(out)@ + kids_html(
            arena.view(),
            parent,
            arena.view().kids[parent as int].len() as int,
            (h - 1) as nat,
        ),
    decreases h, 0nat,
{
    let ghost t = arena.view();
    let ghost ns = arena.node_seq();
    let ghost ks = arena.kid_seqs();
    let ghost q = parent as int;
    let ghost cf = (h - 1) as nat;
    proof {
        lemma_wf_consistent(arena);
        lemma_node_ok(ns, ks, q);
        if ks[q].len() > 0 {
            lemma_child_ok(ns, ks, q, 0);
        }
    }
    let mut cursor = first_child;
    let ghost mut i: int = 0;
    while cursor.is_some()
        invariant
            arena.wf(),
            t == arena.view(),
            t.consistent(),
            ns == arena.node_seq(),
            ks == arena.kid_seqs(),
            ks == t.kids,
            0 <= q < ns.len(),
            q == parent as int,
            t.bounded(parent, h),
            cf == h - 1,
            0 <= i <= ks[q].len(),
            cursor == (if i < ks[q].len() {
                Some(ks[q][i])
            } else {
                None
            }),
            out@ == old(out)@ + kids_html(t, parent, i, cf),
        decreases ks[q].len() - i,
    {
        let child_id = cursor.unwrap();
        proof {
            lemma_child_ok(ns, ks, q, i);
            t.lemma_kids_bounded(parent, ks[q].len() as int, cf, i);
        }
        serialize_node(arena, child_id, out, Ghost(cf));
        proof {
            assert(kids_html(t, parent, i + 1, cf) == kids_html(t, parent, i, cf) + node_html(
                t,
                child_id,
                cf,
            ));
        }
        cursor = arena.get(child_id).unwrap().next_sibling;
        proof {
            i = i + 1;
            if i < ks[q].len() {
                lemma_child_ok(ns, ks, q, i);
            }
        }
    }
}

/// The HTML of a whole document.
pub(crate) fn serialize_document(arena: &Arena, root_id: u32) -> (r: String)
    requires
        arena.wf(),
        arena.view().valid(root_id),
        arena.view().parents[root_id as int] is None,
    ensures
        r@ == node_html(arena.view(), root_id, arena.view().len()),
{
    let mut out = String::new();
    proof {
        lemma_wf_consistent(arena);
        assert(arena.view().depth_is(root_id, 0));
        arena.view().lemma_anchored_bounded(root_id, 0);
    }
    serialize_node(arena, root_id, &mut out, Ghost(arena.view().len()));
    proof {
        assert(out@ =~= node_html(arena.view(), root_id, arena.view().len()));
    }
    out
}


/// Serialize all children of `node_id` and return the HTML string (innerHTML).
/// Returns `None` if the node id is invalid.
pub(crate) fn serialize_inner_html(arena: &Arena, node_id: u32) -> (r: Option<String>)
    requires
        arena.wf(),
        arena.view().valid(node_id) ==> arena.view().finite_below(node_id),
    ensures
        r is None <==> !arena.view().valid(node_id),
        r matches Some(h) ==> h@ == inner_html(arena.view(), node_id),
{
    let first_child = match arena.get(node_id) {
        Some(n) => n.first_child,
        None => return None,
    };
    let ghost t = arena.view();
    let ghost h = t.height(node_id);
    proof {
        lemma_wf_consistent(arena);
        lemma_node_ok(arena.node_seq(), arena.kid_seqs(), node_id as int);
        assert(t.bounded(node_id, h));
    }
    let mut out = String::new();
    serialize_children(arena, first_child, &mut out, Ghost(node_id), Ghost(h));
    Some(out)
}

} // verus!
