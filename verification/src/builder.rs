use vstd::prelude::*;

use crate::arena;
use crate::arena::{lemma_node_ok, lemma_wf_consistent, Arena};
use crate::model::DomTree;
use crate::class_list::{element_attrs, with_attrs};
use crate::node::{attrs_have, attrs_view, has_attr, KindView, NodeKind};
use crate::text::push_str;
use crate::tree;
use crate::tree::{append_outcome, remove_node, DomError};
use crate::Document;

verus! {

/// Detach every child of `node`, first to last.
pub(crate) fn remove_all_children(arena: &mut Arena, node: u32, root: u32)
    requires
        old(arena).wf(),
        old(arena).view().valid(node),
        old(arena).view().valid(root),
        old(arena).view().parents[root as int] is None,
    ensures
        final(arena).wf(),
        final(arena).view() == old(arena).view().cleared(node),
{
    let ghost t0 = arena.view();
    let ghost q = node as int;
    proof {
        lemma_wf_consistent(arena);
        assert(t0.cleared_first(node, 0) =~= t0) by {
            assert(t0.kids[q].skip(0) =~= t0.kids[q]);
            assert(t0.kids[q].take(0) =~= Seq::<u32>::empty());
        }
    }
    let ghost mut k: int = 0;
    loop
        invariant
            arena.wf(),
            t0.consistent(),
            t0.valid(node),
            q == node as int,
            t0.valid(root),
            t0.parents[root as int] is None,
            arena.view().len() == t0.len(),
            0 <= k <= t0.kids[q].len(),
            arena.view() == t0.cleared_first(node, k),
        ensures
            arena.wf(),
            arena.view() == t0.cleared(node),
        decreases t0.kids[q].len() - k,
    {
        let first = arena.get(node).unwrap().first_child;
        proof {
            assert(arena.view().len() == arena.spec_len());
            lemma_node_ok(arena.node_seq(), arena.kid_seqs(), q);
            assert(arena.kid_seqs()[q] == t0.kids[q].skip(k));
        }
        match first {
            None => {
                proof {
                    assert(t0.kids[q].skip(k).len() == 0);
                    assert(k == t0.kids[q].len());
                }
                break ;
            },
            Some(c) => {
                let ghost t = arena.view();
                proof {
                    assert(c == t0.kids[q][k]);
                    t0.lemma_cleared_step(node, k);
                    assert(t0.kids[q].no_duplicates());
                    assert(!t0.kids[q].take(k).contains(c)) by {
                        if t0.kids[q].take(k).contains(c) {
                            let j = t0.kids[q].take(k).index_of(c);
                            assert(t0.kids[q][j] == c);
                        }
                    }
                    assert(t.parents[c as int] == Some(node));
                }
                let r = remove_node(arena, c, root);
                assert(r is Ok);
                proof {
                    k = k + 1;
                }
            },
        }
    }
}


/// `child` leaves its parent, if it has one, and becomes the last child of `parent`
/// (when that append is allowed; otherwise the tree stays as detaching left it).
pub open spec fn moved_to_end(t: DomTree, root: u32, parent: u32, child: u32) -> DomTree {
    let t1 = if t.valid(child) && t.parents[child as int] is Some {
        t.detach(child)
    } else {
        t
    };
    if append_outcome(t1, parent, child, root) is Ok {
        t1.append(parent, child)
    } else {
        t1
    }
}

/// Each node of `cs`, in order, moved to the end of the child list of `parent`.
pub open spec fn moved_all(t: DomTree, root: u32, parent: u32, cs: Seq<u32>) -> DomTree
    decreases cs.len(),
{
    if cs.len() == 0 {
        t
    } else {
        moved_to_end(moved_all(t, root, parent, cs.drop_last()), root, parent, cs.last())
    }
}

/// Moving the first `i` children of `source` to the end of the child list of `node`:
/// they leave `source` in order, are listed by `node` after its own children, and
/// report `node` as their parent; nothing else changes.
pub proof fn lemma_moved_all(t: DomTree, root: u32, node: u32, source: u32, i: int)
    requires
        t.consistent(),
        t.len() <= u32::MAX as nat + 1,
        t.valid(root),
        t.parents[root as int] is None,
        t.valid(node),
        t.valid(source),
        node != source,
        !t.kids[source as int].contains(node),
        0 <= i <= t.kids[source as int].len(),
    ensures
        ({
            let cs = t.kids[source as int];
            let m = moved_all(t, root, node, cs.take(i));
            &&& m.consistent()
            &&& m.kinds == t.kinds
            &&& m.kids == t.kids.update(node as int, t.kids[node as int] + cs.take(i)).update(
                source as int,
                cs.skip(i),
            )
            &&& m.parents == Seq::new(
                t.len(),
                |y: int|
                    if cs.take(i).contains(y as u32) {
                        Some(node)
                    } else {
                        t.parents[y]
                    },
            )
        }),
    decreases i,
{
    let cs = t.kids[source as int];
    assert(cs.no_duplicates());
    if i == 0 {
        assert(cs.take(0) =~= Seq::<u32>::empty());
        let m = moved_all(t, root, node, cs.take(0));
        assert(m == t);
        assert(t.kids[node as int] + cs.take(0) =~= t.kids[node as int]);
        assert(cs.skip(0) =~= cs);
        assert(t.kids.update(node as int, t.kids[node as int] + cs.take(0)).update(
            source as int,
            cs.skip(0),
        ) =~= t.kids);
        assert(Seq::new(
            t.len(),
            |y: int|
                if cs.take(0).contains(y as u32) {
                    Some(node)
                } else {
                    t.parents[y]
                },
        ) =~= t.parents);
    } else {
        lemma_moved_all(t, root, node, source, i - 1);
        let m0 = moved_all(t, root, node, cs.take(i - 1));
        let c = cs[i - 1];
        assert(cs.take(i).drop_last() =~= cs.take(i - 1));
        assert(cs.take(i).last() == c);
        assert(!cs.take(i - 1).contains(c)) by {
            if cs.take(i - 1).contains(c) {
                let j = cs.take(i - 1).index_of(c);
                assert(cs[j] == c);
            }
        }
        assert(t.parents[c as int] == Some(source));
        assert(m0.parents[c as int] == Some(source));
        assert(c != root);
        let r = cs.skip(i - 1);
        assert(m0.kids[source as int] == r);
        assert(r[0] == c);
        assert(r.index_of(c) == 0) by {
            let j = r.index_of(c);
            assert(r[j] == c);
            assert(cs[i - 1 + j] == c);
        }
        m0.lemma_detach_consistent(c);
        let t1 = m0.detach(c);
        assert(t1.parents[c as int] is None);
        t1.lemma_append_consistent(node, c);
        let m = moved_all(t, root, node, cs.take(i));
        assert(m == t1.append(node, c));
        assert(r.remove(0) =~= cs.skip(i));
        assert(t.kids[node as int] + cs.take(i) =~= (t.kids[node as int] + cs.take(i - 1)).push(c));
        assert(m.kids =~= t.kids.update(node as int, t.kids[node as int] + cs.take(i)).update(
            source as int,
            cs.skip(i),
        ));
        assert forall|y: int| 0 <= y < t.len() implies (#[trigger] cs.take(i).contains(y as u32)
            <==> (cs.take(i - 1).contains(y as u32) || y == c as int)) by {
            if cs.take(i).contains(y as u32) {
                let j = cs.take(i).index_of(y as u32);
                if j < i - 1 {
                    assert(cs.take(i - 1)[j] == y as u32);
                }
            }
            if cs.take(i - 1).contains(y as u32) {
                let j = cs.take(i - 1).index_of(y as u32);
                assert(cs.take(i)[j] == y as u32);
            }
            if y == c as int {
                assert(cs.take(i)[i - 1] == c);
            }
        }
        assert(m.parents =~= Seq::new(
            t.len(),
            |y: int|
                if cs.take(i).contains(y as u32) {
                    Some(node)
                } else {
                    t.parents[y]
                },
        ));
    }
}

/// Text appended under `parent`: merged into its last child when that is a text node,
/// else as a new text node appended to `parent` (left detached when `parent` is unknown;
/// when `parent` is the id the new node gets, the node becomes its own child).
pub open spec fn text_appended(t: DomTree, parent: u32, text: Seq<char>) -> DomTree {
    let last = t.kids[parent as int].last();
    if t.valid(parent) && t.kids[parent as int].len() > 0 && t.kinds[last as int] is Text {
        t.set_kind(last, KindView::Text { data: t.kinds[last as int]->Text_data + text })
    } else {
        let t1 = t.add_node(KindView::Text { data: text });
        if t1.valid(parent) {
            t1.append(parent, t.len() as u32)
        } else {
            t1
        }
    }
}

/// `node` placed right before `sibling` under the parent of `sibling`, after leaving
/// its own parent. Unchanged when `sibling` has no parent, or `node` is the root (which
/// may not be placed under another node).
pub open spec fn node_inserted_before(t: DomTree, root: u32, sibling: u32, node: u32) -> DomTree {
    if !t.valid(sibling) || t.parents[sibling as int] is None || node == root {
        t
    } else {
        t.detach(node).insert_before(t.parents[sibling as int]->0, sibling, node)
    }
}

/// Text placed right before `sibling` under its parent: merged into the previous
/// sibling when that is a text node, else as a new text node. Unchanged when `sibling`
/// has no parent.
pub open spec fn text_inserted_before(t: DomTree, sibling: u32, text: Seq<char>) -> DomTree {
    if !t.valid(sibling) || t.parents[sibling as int] is None {
        t
    } else {
        let p = t.parents[sibling as int]->0;
        let i = t.kids[p as int].index_of(sibling);
        let prev = t.kids[p as int][i - 1];
        if i > 0 && t.kinds[prev as int] is Text {
            t.set_kind(prev, KindView::Text { data: t.kinds[prev as int]->Text_data + text })
        } else {
            t.add_node(KindView::Text { data: text }).insert_before(p, sibling, t.len() as u32)
        }
    }
}

/// The attributes after each of `new`, in order, is added unless one of that name
/// is already there.
pub open spec fn attrs_added(
    existing: Seq<(Seq<char>, Seq<char>)>,
    new: Seq<(Seq<char>, Seq<char>)>,
) -> Seq<(Seq<char>, Seq<char>)>
    decreases new.len(),
{
    if new.len() == 0 {
        existing
    } else {
        let a = attrs_added(existing, new.drop_last());
        if has_attr(a, new.last().0) {
            a
        } else {
            a.push(new.last())
        }
    }
}

impl Document {
    /// Append `child` as the last child of `parent`, detaching it first if it is attached.
    /// Failures are ignored: the tree is then left as they leave it.
    pub fn append_node(&mut self, parent: u32, child: u32)
        requires
            old(self).wf(),
        ensures
            final(self).wf(),
            final(self).spec_root() == old(self).spec_root(),
            final(self)@ == moved_to_end(old(self)@, old(self).spec_root(), parent, child),
    {
        proof {
            self.lemma_unfold();
        }
        let has_parent = match self.arena.get(child) {
            Some(n) => n.parent.is_some(),
            None => false,
        };
        if has_parent {
            let _ = self.remove(child);
        }
        let _ = self.append_child(parent, child);
    }

    /// Append text under `parent`, coalescing with a trailing text node when possible.
    pub fn append_text(&mut self, parent: u32, text: &str)
        requires
            old(self).wf(),
            old(self)@.len() <= u32::MAX,
        ensures
            final(self).wf(),
            final(self).spec_root() == old(self).spec_root(),
            final(self)@ == text_appended(old(self)@, parent, text@),
    {
        proof {
            self.lemma_unfold();
            arena::lemma_wf_consistent(&self.arena);
        }
        let last_child = match self.arena.get(parent) {
            Some(n) => n.last_child,
            None => None,
        };
        proof {
            if self@.valid(parent) {
                lemma_node_ok(self.arena.node_seq(), self.arena.kid_seqs(), parent as int);
                if self@.kids[parent as int].len() > 0 {
                    arena::lemma_child_ok(
                        self.arena.node_seq(),
                        self.arena.kid_seqs(),
                        parent as int,
                        self@.kids[parent as int].len() - 1,
                    );
                }
            }
        }
        if let Some(last_id) = last_child {
            let kind = self.arena.replace_kind(last_id, NodeKind::Document);
            match kind {
                NodeKind::Text { mut data } => {
                    push_str(&mut data, text);
                    self.arena.replace_kind(last_id, NodeKind::Text { data });
                    proof {
                        assert(self@ =~= text_appended(old(self)@, parent, text@));
                    }
                    return ;
                },
                other => {
                    self.arena.replace_kind(last_id, other);
                    proof {
                        assert(self@ =~= old(self)@);
                    }
                },
            }
        }
        proof {
            assert(!(old(self)@.valid(parent) && old(self)@.kids[parent as int].len() > 0
                && old(self)@.kinds[old(self)@.kids[parent as int].last() as int] is Text));
        }
        let ghost t0 = self@;
        let id = self.alloc_node(NodeKind::Text { data: String::from_str(text) });
        proof {
            self.lemma_unfold();
            assert(self@.parents[id as int] is None);
            assert(id != self.root);
        }
        let r = self.append_child(parent, id);
        proof {
            assert(t0 == old(self)@);
            assert(old(self)@.len() as u32 == id);
        }
    }

    /// Place `node` right before `sibling` under the parent of `sibling`, detaching it
    /// first if it is attached. Nothing happens when `sibling` has no parent, or when
    /// `node` is the root. When `sibling` has a parent, `node` must be a node of the
    /// document other than `sibling`: the links could not place it otherwise.
    pub fn append_before_sibling(&mut self, sibling: u32, node: u32)
        requires
            old(self).wf(),
            old(self)@.valid(sibling) && old(self)@.parents[sibling as int] is Some ==> old(
                self,
            )@.valid(node) && node != sibling,
        ensures
            final(self).wf(),
            final(self).spec_root() == old(self).spec_root(),
            final(self)@ == node_inserted_before(old(self)@, old(self).spec_root(), sibling, node),
    {
        proof {
            self.lemma_unfold();
        }
        let parent_id = match self.parent(sibling) {
            Some(p) => p,
            None => return ,
        };
        if node == self.root {
            return ;
        }
        let has_parent = self.parent(node).is_some();
        if has_parent {
            let _ = self.remove(node);
        }
        proof {
            arena::lemma_wf_consistent(&old(self).arena);
            assert(self@ == old(self)@.detach(node));
            assert(self@.parents[sibling as int] == Some(parent_id));
        }
        tree::insert_before(&mut self.arena, parent_id, sibling, node);
    }

    /// Place text right before `sibling` under its parent, coalescing with an adjacent
    /// text node when possible.
    pub fn append_text_before_sibling(&mut self, sibling: u32, text: &str)
        requires
            old(self).wf(),
            old(self)@.len() <= u32::MAX,
        ensures
            final(self).wf(),
            final(self).spec_root() == old(self).spec_root(),
            final(self)@ == text_inserted_before(old(self)@, sibling, text@),
    {
        proof {
            self.lemma_unfold();
            arena::lemma_wf_consistent(&self.arena);
        }
        let parent_id = match self.parent(sibling) {
            Some(p) => p,
            None => return ,
        };
        let prev = self.arena.get(sibling).unwrap().prev_sibling;
        let ghost t = self@;
        let ghost p = parent_id as int;
        let ghost i = t.kids[p].index_of(sibling);
        proof {
            lemma_node_ok(self.arena.node_seq(), self.arena.kid_seqs(), sibling as int);
            assert(t.kids[p].contains(sibling));
            arena::lemma_child_ok(self.arena.node_seq(), self.arena.kid_seqs(), p, i);
            if i > 0 {
                arena::lemma_child_ok(self.arena.node_seq(), self.arena.kid_seqs(), p, i - 1);
            }
        }
        if let Some(prev_id) = prev {
            let kind = self.arena.replace_kind(prev_id, NodeKind::Document);
            match kind {
                NodeKind::Text { mut data } => {
                    push_str(&mut data, text);
                    self.arena.replace_kind(prev_id, NodeKind::Text { data });
                    proof {
                        assert(self@ =~= text_inserted_before(old(self)@, sibling, text@));
                    }
                    return ;
                },
                other => {
                    self.arena.replace_kind(prev_id, other);
                    proof {
                        assert(self@ =~= old(self)@);
                    }
                },
            }
        }
        let id = self.alloc_node(NodeKind::Text { data: String::from_str(text) });
        proof {
            assert(self@.parents[sibling as int] == Some(parent_id));
        }
        tree::insert_before(&mut self.arena, parent_id, sibling, id);
    }

    /// Append `child` before `element` when `element` has a parent, else as the last
    /// child of `prev_element`.
    pub fn append_node_based_on_parent(&mut self, element: u32, prev_element: u32, child: u32)
        requires
            old(self).wf(),
            old(self)@.valid(element) && old(self)@.parents[element as int] is Some ==> old(
                self,
            )@.valid(child) && child != element,
        ensures
            final(self).wf(),
            final(self).spec_root() == old(self).spec_root(),
            final(self)@ == (if old(self)@.valid(element) && old(self)@.parents[element as int] is Some {
                node_inserted_before(old(self)@, old(self).spec_root(), element, child)
            } else {
                moved_to_end(old(self)@, old(self).spec_root(), prev_element, child)
            }),
    {
        if self.parent(element).is_some() {
            self.append_before_sibling(element, child);
        } else {
            self.append_node(prev_element, child);
        }
    }

    /// Append text before `element` when `element` has a parent, else at the end of
    /// `prev_element`.
    pub fn append_text_based_on_parent(&mut self, element: u32, prev_element: u32, text: &str)
        requires
            old(self).wf(),
            old(self)@.len() <= u32::MAX,
        ensures
            final(self).wf(),
            final(self).spec_root() == old(self).spec_root(),
            final(self)@ == (if old(self)@.valid(element) && old(self)@.parents[element as int] is Some {
                text_inserted_before(old(self)@, element, text@)
            } else {
                text_appended(old(self)@, prev_element, text@)
            }),
    {
        if self.parent(element).is_some() {
            self.append_text_before_sibling(element, text);
        } else {
            self.append_text(prev_element, text);
        }
    }

    /// Allocate a detached element with the given attributes and return its id.
    pub fn create_element_with_attrs(&mut self, tag: &str, attrs: Vec<(String, String)>) -> (id: u32)
        requires
            old(self).wf(),
            old(self)@.len() <= u32::MAX,
        ensures
            final(self).wf(),
            final(self).spec_root() == old(self).spec_root(),
            id == old(self)@.len(),
            final(self)@ == old(self)@.add_node(
                KindView::Element { tag: tag@, attrs: attrs_view(attrs@) },
            ),
    {
        self.alloc_node(NodeKind::Element { tag: String::from_str(tag), attrs })
    }

    /// Allocate a detached comment and return its id.
    pub fn create_comment(&mut self, text: &str) -> (id: u32)
        requires
            old(self).wf(),
            old(self)@.len() <= u32::MAX,
        ensures
            final(self).wf(),
            final(self).spec_root() == old(self).spec_root(),
            id == old(self)@.len(),
            final(self)@ == old(self)@.add_node(KindView::Comment { data: text@ }),
    {
        self.alloc_node(NodeKind::Comment { data: String::from_str(text) })
    }

    /// Allocate a detached document fragment (a node of the document kind) and return its id.
    pub fn create_fragment(&mut self) -> (id: u32)
        requires
            old(self).wf(),
            old(self)@.len() <= u32::MAX,
        ensures
            final(self).wf(),
            final(self).spec_root() == old(self).spec_root(),
            id == old(self)@.len(),
            final(self)@ == old(self)@.add_node(KindView::Document),
    {
        self.alloc_node(NodeKind::Document)
    }

    /// Append a document type node as the last child of the root.
    pub fn append_doctype(&mut self, name: &str, public_id: &str, system_id: &str)
        requires
            old(self).wf(),
            old(self)@.len() <= u32::MAX,
        ensures
            final(self).wf(),
            final(self).spec_root() == old(self).spec_root(),
            final(self)@ == old(self)@.add_node(
                KindView::DocumentType { name: name@, public_id: public_id@, system_id: system_id@ },
            ).append(old(self).spec_root(), old(self)@.len() as u32),
    {
        let doctype_id = self.alloc_node(
            NodeKind::DocumentType {
                name: String::from_str(name),
                public_id: String::from_str(public_id),
                system_id: String::from_str(system_id),
            },
        );
        proof {
            self.lemma_unfold();
        }
        let root = self.root;
        let r = self.append_child(root, doctype_id);
        proof {
            assert(r is Ok);
        }
    }

    /// Add each attribute, in order, to the element `target` unless it already has one
    /// of that name. Nothing happens for other nodes or unknown ids.
    pub fn add_attrs_if_missing(&mut self, target: u32, attrs: Vec<(String, String)>)
        requires
            old(self).wf(),
        ensures
            final(self).wf(),
            final(self).spec_root() == old(self).spec_root(),
            final(self)@ == (match element_attrs(old(self)@, target) {
                Ok(existing) => old(self)@.set_kind(
                    target,
                    with_attrs(old(self)@.kinds[target as int], attrs_added(existing, attrs_view(attrs@))),
                ),
                Err(_) => old(self)@,
            }),
    {
        proof {
            self.lemma_unfold();
        }
        if target as usize >= self.arena.len() {
            return ;
        }
        let kind = self.arena.replace_kind(target, NodeKind::Document);
        match kind {
            NodeKind::Element { tag, attrs: mut existing } => {
                let ghost ev = attrs_view(existing@);
                let ghost nv = attrs_view(attrs@);
                proof {
                    assert(nv.take(0) =~= Seq::<(Seq<char>, Seq<char>)>::empty());
                }
                let mut i: usize = 0;
                while i < attrs.len()
                    invariant
                        0 <= i <= attrs@.len(),
                        nv == attrs_view(attrs@),
                        attrs_view(existing@) == attrs_added(ev, nv.take(i as int)),
                    decreases attrs@.len() - i,
                {
                    let ghost before = attrs_view(existing@);
                    proof {
                        assert(nv.take(i + 1).drop_last() =~= nv.take(i as int));
                        assert(nv.take(i + 1).last() == nv[i as int]);
                    }
                    if !attrs_have(&existing, &attrs[i].0) {
                        let pair = (attrs[i].0.clone(), attrs[i].1.clone());
                        existing.push(pair);
                        proof {
                            assert(attrs_view(existing@) =~= before.push(nv[i as int]));
                        }
                    }
                    i = i + 1;
                }
                proof {
                    assert(nv.take(attrs@.len() as int) =~= nv);
                }
                self.arena.replace_kind(target, NodeKind::Element { tag, attrs: existing });
                proof {
                    assert(self@ =~= old(self)@.set_kind(
                        target,
                        with_attrs(old(self)@.kinds[target as int], attrs_added(ev, nv)),
                    ));
                }
            },
            other => {
                self.arena.replace_kind(target, other);
                proof {
                    assert(self@ =~= old(self)@);
                }
            },
        }
    }

    /// Move every child of `node`, in order, to the end of the child list of `new_parent`.
    pub fn reparent_children(&mut self, node: u32, new_parent: u32)
        requires
            old(self).wf(),
        ensures
            final(self).wf(),
            final(self).spec_root() == old(self).spec_root(),
            final(self)@ == moved_all(
                old(self)@,
                old(self).spec_root(),
                new_parent,
                if old(self)@.valid(node) {
                    old(self)@.kids[node as int]
                } else {
                    Seq::empty()
                },
            ),
    {
        let children: Vec<u32> = match self.children(node) {
            Some(v) => v,
            None => Vec::new(),
        };
        let ghost cs = children@;
        let ghost t0 = self@;
        let ghost root = self.spec_root();
        proof {
            assert(cs.take(0) =~= Seq::<u32>::empty());
        }
        let mut i: usize = 0;
        while i < children.len()
            invariant
                0 <= i <= children@.len(),
                cs == children@,
                self.wf(),
                self.spec_root() == root,
                self@ == moved_all(t0, root, new_parent, cs.take(i as int)),
            decreases children@.len() - i,
        {
            self.append_node(new_parent, children[i]);
            proof {
                assert(cs.take(i + 1).drop_last() =~= cs.take(i as int));
            }
            i = i + 1;
        }
        proof {
            assert(cs.take(children@.len() as int) =~= cs);
        }
    }

    /// Replace all children of the element `node` with the children of `source`, in order
    /// (the parsed content of an inner-HTML assignment arrives as the children of `source`).
    pub fn replace_children_with(&mut self, node: u32, source: u32) -> (r: Result<(), DomError>)
        requires
            old(self).wf(),
        ensures
            final(self).wf(),
            final(self).spec_root() == old(self).spec_root(),
            match element_attrs(old(self)@, node) {
                Err(e) => r == Err::<(), DomError>(e) && final(self)@ == old(self)@,
                Ok(_) => r is Ok && final(self)@ == moved_all(
                    old(self)@.cleared(node),
                    old(self).spec_root(),
                    node,
                    if old(self)@.valid(source) {
                        old(self)@.cleared(node).kids[source as int]
                    } else {
                        Seq::empty()
                    },
                ),
            },
    {
        match self.arena.get(node) {
            None => return Err(DomError::InvalidNode(node)),
            Some(n) => match &n.kind {
                NodeKind::Element { .. } => {},
                _ => return Err(DomError::NotAnElement(node)),
            },
        }
        remove_all_children(&mut self.arena, node, self.root);
        self.reparent_children(source, node);
        Ok(())
    }
}

} // verus!
