use vstd::prelude::*;

use crate::arena::{lemma_child_ok, lemma_node_ok, lemma_wf_consistent, Arena};
use crate::model::DomTree;
use crate::node::{KindView, NodeKind};
use crate::text::push_str;
use crate::tree::{append_child, remove_node, DomError};

verus! {

/// The text of the Text nodes among `s`, one after another.
pub open spec fn texts(t: DomTree, s: Seq<u32>) -> Seq<char>
    decreases s.len(),
{
    if s.len() == 0 {
        Seq::empty()
    } else {
        texts(t, s.drop_last()) + match t.kinds[s.last() as int] {
            KindView::Text { data } => data,
            _ => Seq::empty(),
        }
    }
}

pub proof fn lemma_texts_add(t: DomTree, a: Seq<u32>, b: Seq<u32>)
    ensures
        texts(t, a + b) == texts(t, a) + texts(t, b),
    decreases b.len(),
{
    if b.len() == 0 {
        assert(a + b =~= a);
        assert(texts(t, a) + texts(t, b) =~= texts(t, a));
    } else {
        assert((a + b).drop_last() =~= a + b.drop_last());
        lemma_texts_add(t, a, b.drop_last());
        assert(texts(t, a + b) =~= texts(t, a) + texts(t, b));
    }
}

/// The concatenated text of the Text nodes of the subtree at `node`, in document order.
pub open spec fn text_content(t: DomTree, node: u32) -> Seq<char> {
    texts(t, t.preorder(node, t.height(node)))
}

fn collect_text(arena: &Arena, node_id: u32, out: &mut String, Ghost(h): Ghost<nat>)
    requires
        arena.wf(),
        arena.view().valid(node_id),
        arena.view().bounded(node_id, h),
    ensures
        final(out)@ == old(out)@ + texts(arena.view(), arena.view().preorder(node_id, h)),
    decreases h,
{
    let ghost t = arena.view();
    proof {
        lemma_wf_consistent(arena);
    }
    let ghost fuel = h;
    let node = arena.get(node_id).unwrap();
    match &node.kind {
        NodeKind::Text { data } => push_str(out, data.as_str()),
        _ => {},
    }
    proof {
        assert(seq![node_id].drop_last() =~= Seq::<u32>::empty());
        assert(texts(t, Seq::<u32>::empty()) == Seq::<char>::empty());
        assert(t.kinds[node_id as int] == node.kind@);
        assert(texts(t, seq![node_id]) =~= match t.kinds[node_id as int] {
            KindView::Text { data } => data,
            _ => Seq::empty(),
        });
        assert(out@ =~= old(out)@ + texts(t, seq![node_id]));
    }
    let ghost ns = arena.node_seq();
    let ghost ks = arena.kid_seqs();
    let ghost q = node_id as int;
    proof {
        lemma_node_ok(ns, ks, q);
        if ks[q].len() > 0 {
            lemma_child_ok(ns, ks, q, 0);
        }
    }
    let mut child = node.first_child;
    let ghost mut i: int = 0;
    while child.is_some()
        invariant
            arena.wf(),
            t == arena.view(),
            t.consistent(),
            ns == arena.node_seq(),
            ks == arena.kid_seqs(),
            ks == t.kids,
            0 <= q < ns.len(),
            q == node_id as int,
            t.bounded(node_id, h),
            fuel == h,
            fuel >= 1,
            0 <= i <= ks[q].len(),
            child == (if i < ks[q].len() {
                Some(ks[q][i])
            } else {
                None
            }),
            out@ == old(out)@ + texts(t, seq![node_id]) + texts(
                t,
                t.preorder_kids(node_id, i, (fuel - 1) as nat),
            ),
        decreases ks[q].len() - i,
    {
        let child_id = child.unwrap();
        proof {
            lemma_child_ok(ns, ks, q, i);
            t.lemma_kids_bounded(node_id, ks[q].len() as int, (h - 1) as nat, i);
        }
        collect_text(arena, child_id, out, Ghost((h - 1) as nat));
        proof {
            lemma_texts_add(
                t,
                t.preorder_kids(node_id, i, (fuel - 1) as nat),
                t.preorder(child_id, (fuel - 1) as nat),
            );
            assert(t.preorder_kids(node_id, i + 1, (fuel - 1) as nat) == t.preorder_kids(
                node_id,
                i,
                (fuel - 1) as nat,
            ) + t.preorder(child_id, (fuel - 1) as nat));
        }
        child = arena.get(child_id).unwrap().next_sibling;
        proof {
            i = i + 1;
            if i < ks[q].len() {
                lemma_child_ok(ns, ks, q, i);
            }
        }
    }
    proof {
        lemma_texts_add(
            t,
            seq![node_id],
            t.preorder_kids(node_id, ks[q].len() as int, (fuel - 1) as nat),
        );
        assert(t.preorder(node_id, fuel) == seq![node_id] + t.preorder_kids(
            node_id,
            ks[q].len() as int,
            (fuel - 1) as nat,
        ));
    }
}

/// The concatenated text of all Text nodes in the subtree of `node`, or `None` for
/// unknown ids.
pub(crate) fn get_text_content(arena: &Arena, node: u32) -> (r: Option<String>)
    requires
        arena.wf(),
        arena.view().valid(node) ==> arena.view().finite_below(node),
    ensures
        r is None <==> !arena.view().valid(node),
        r matches Some(s) ==> s@ == text_content(arena.view(), node),
{
    if node as usize >= arena.len() {
        return None;
    }
    let ghost t = arena.view();
    let ghost h = t.height(node);
    proof {
        assert(t.bounded(node, h));
    }
    let mut out = String::new();
    collect_text(arena, node, &mut out, Ghost(h));
    proof {
        assert(out@ =~= text_content(t, node));
    }
    Some(out)
}

/// Whether every downward path from `node` ends within `h` levels.
pub(crate) fn bounded_within(arena: &Arena, node: u32, h: usize) -> (r: bool)
    requires
        arena.wf(),
        arena.view().valid(node),
    ensures
        r == arena.view().bounded(node, h as nat),
    decreases h,
{
    let ghost t = arena.view();
    if h == 0 {
        return false;
    }
    let ghost ns = arena.node_seq();
    let ghost ks = arena.kid_seqs();
    let ghost q = node as int;
    let ghost g = (h - 1) as nat;
    proof {
        lemma_wf_consistent(arena);
        lemma_node_ok(ns, ks, q);
        if ks[q].len() > 0 {
            lemma_child_ok(ns, ks, q, 0);
        }
    }
    let mut child = arena.get(node).unwrap().first_child;
    let ghost mut i: int = 0;
    while child.is_some()
        invariant
            arena.wf(),
            t == arena.view(),
            t.consistent(),
            ns == arena.node_seq(),
            ks == arena.kid_seqs(),
            ks == t.kids,
            0 <= q < ns.len(),
            q == node as int,
            h >= 1,
            g == h - 1,
            0 <= i <= ks[q].len(),
            child == (if i < ks[q].len() {
                Some(ks[q][i])
            } else {
                None
            }),
            t.kids_bounded(node, i, g),
        decreases ks[q].len() - i,
    {
        let child_id = child.unwrap();
        proof {
            lemma_child_ok(ns, ks, q, i);
        }
        if !bounded_within(arena, child_id, h - 1) {
            proof {
                if t.kids_bounded(node, ks[q].len() as int, g) {
                    t.lemma_kids_bounded(node, ks[q].len() as int, g, i);
                }
            }
            return false;
        }
        child = arena.get(child_id).unwrap().next_sibling;
        proof {
            i = i + 1;
            if i < ks[q].len() {
                lemma_child_ok(ns, ks, q, i);
            }
        }
    }
    true
}

} // verus!
