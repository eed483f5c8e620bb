use vstd::prelude::*;

use crate::model::DomTree;
use crate::node::{Node, NodeKind};

verus! {

/// Flat arena that owns all nodes, addressed by u32 index.
pub struct Arena {
    nodes: Vec<Node>,
    /// The ordered children of each node, as the sibling links spell them out.
    kids: Ghost<Seq<Seq<u32>>>,
}

/// Each recorded child list is free of repeats.
pub open spec fn kids_distinct(ks: Seq<Seq<u32>>) -> bool {
    forall|q: int| 0 <= q < ks.len() ==> (#[trigger] ks[q]).no_duplicates()
}

/// The first/last child links of node `q` name the ends of its child list, a node
/// without parent has no siblings, and a node with a parent is listed by it.
pub open spec fn node_ok(ns: Seq<Node>, ks: Seq<Seq<u32>>, q: int) -> bool {
    let node = ns[q];
    &&& node.first_child == (if ks[q].len() == 0 {
        None
    } else {
        Some(ks[q][0])
    })
    &&& node.last_child == (if ks[q].len() == 0 {
        None
    } else {
        Some(ks[q][ks[q].len() - 1])
    })
    &&& node.parent is None ==> node.prev_sibling is None && node.next_sibling is None
    &&& node.parent is Some ==> node.parent->0 < ns.len() && ks[node.parent->0 as int].contains(
        q as u32,
    )
}

/// The `i`-th child of `q` is a valid node whose parent is `q` and whose sibling
/// links name its neighbours in the list.
pub open spec fn child_ok(ns: Seq<Node>, ks: Seq<Seq<u32>>, q: int, i: int) -> bool {
    let x = ks[q][i];
    &&& x < ns.len()
    &&& ns[x as int].parent == Some(q as u32)
    &&& ns[x as int].prev_sibling == (if i == 0 {
        None
    } else {
        Some(ks[q][i - 1])
    })
    &&& ns[x as int].next_sibling == (if i == ks[q].len() - 1 {
        None
    } else {
        Some(ks[q][i + 1])
    })
}

/// The links of all nodes agree with the child lists `ks`.
#[verifier::opaque]
pub open spec fn links_ok(ns: Seq<Node>, ks: Seq<Seq<u32>>) -> bool {
    &&& ns.len() <= u32::MAX as nat + 1
    &&& ks.len() == ns.len()
    &&& kids_distinct(ks)
    &&& forall|q: int| 0 <= q < ns.len() ==> #[trigger] node_ok(ns, ks, q)
    &&& forall|q: int, i: int|
        0 <= q < ns.len() && 0 <= i < ks[q].len() ==> #[trigger] child_ok(ns, ks, q, i)
}

impl Arena {
    /// The nodes, by id.
    pub closed spec fn node_seq(&self) -> Seq<Node> {
        self.nodes@
    }

    /// The ordered children of each node.
    pub closed spec fn kid_seqs(&self) -> Seq<Seq<u32>> {
        self.kids@
    }

    /// The number of nodes.
    pub open spec fn spec_len(&self) -> nat {
        self.node_seq().len()
    }

    /// The node with the given id.
    pub open spec fn node(&self, id: u32) -> Node {
        self.node_seq()[id as int]
    }

    /// The kinds, parents and child lists of all nodes.
    pub open spec fn view(&self) -> DomTree {
        DomTree {
            kinds: self.node_seq().map_values(|n: Node| n.kind@),
            parents: self.node_seq().map_values(|n: Node| n.parent),
            kids: self.kid_seqs(),
        }
    }

    /// The sibling and child links of every node spell out the child lists.
    pub open spec fn wf(&self) -> bool {
        links_ok(self.node_seq(), self.kid_seqs())
    }

    /// The arena with no node.
    pub fn new() -> (a: Self)
        ensures
            a.wf(),
            a.view() == DomTree::empty(),
            a.spec_len() == 0,
    {
        proof {
            reveal(links_ok);
        }
        let a = Self { nodes: Vec::new(), kids: Ghost(Seq::empty()) };
        proof {
            assert(a.view() =~= DomTree::empty());
        }
        a
    }

    /// Allocate a new node and return its id.
    pub fn allocate(&mut self, kind: NodeKind) -> (id: u32)
        requires
            old(self).spec_len() <= u32::MAX,
        ensures
            id as nat == old(self).spec_len(),
            final(self).node_seq() == old(self).node_seq().push(Node::new_spec(kind)),
            final(self).kid_seqs() == old(self).kid_seqs().push(Seq::empty()),
            old(self).wf() ==> final(self).wf(),
            final(self).view() == old(self).view().add_node(kind@),
    {
        let id = self.nodes.len() as u32;
        self.nodes.push(Node::new(kind));
        self.kids = Ghost(self.kids@.push(Seq::empty()));
        proof {
            assert(self.view() =~= old(self).view().add_node(kind@));
            let ghost o = old(self);
            if o.wf() {
                lemma_links_push(o.node_seq(), o.kid_seqs(), Node::new_spec(kind));
            }
        }
        id
    }

    /// The number of nodes.
    pub fn len(&self) -> (n: usize)
        ensures
            n == self.spec_len(),
    {
        self.nodes.len()
    }

    /// The node with the given id, if there is one.
    pub fn get(&self, id: u32) -> (r: Option<&Node>)
        ensures
            r == (if id < self.spec_len() {
                Some(&self.node(id))
            } else {
                None
            }),
    {
        if (id as usize) < self.nodes.len() {
            Some(&self.nodes[id as usize])
        } else {
            None
        }
    }

    /// The node with the given id, to change in place, if there is one.
    pub fn get_mut(&mut self, id: u32) -> (r: Option<&mut Node>)
        ensures
            id < old(self).spec_len() ==> r is Some && *r->0 == old(self).node(id)
                && final(self).node_seq() == old(self).node_seq().update(id as int, *final(r->0))
                && final(self).kid_seqs() == old(self).kid_seqs(),
            id >= old(self).spec_len() ==> r is None && *final(self) == *old(self),
    {
        if (id as usize) < self.nodes.len() {
            Some(&mut self.nodes[id as usize])
        } else {
            None
        }
    }

    /// Replace the child lists recorded for the nodes.
    pub(crate) fn set_kids(&mut self, kids: Ghost<Seq<Seq<u32>>>)
        ensures
            final(self).node_seq() == old(self).node_seq(),
            final(self).kid_seqs() == kids@,
    {
        self.kids = kids;
    }

    pub(crate) fn set_parent(&mut self, id: u32, v: Option<u32>)
        requires
            id < old(self).spec_len(),
        ensures
            final(self).node_seq() == old(self).node_seq().update(
                id as int,
                Node { parent: v, ..old(self).node(id) },
            ),
            final(self).kid_seqs() == old(self).kid_seqs(),
    {
        self.nodes[id as usize].parent = v;
    }

    pub(crate) fn set_first_child(&mut self, id: u32, v: Option<u32>)
        requires
            id < old(self).spec_len(),
        ensures
            final(self).node_seq() == old(self).node_seq().update(
                id as int,
                Node { first_child: v, ..old(self).node(id) },
            ),
            final(self).kid_seqs() == old(self).kid_seqs(),
    {
        self.nodes[id as usize].first_child = v;
    }

    pub(crate) fn set_last_child(&mut self, id: u32, v: Option<u32>)
        requires
            id < old(self).spec_len(),
        ensures
            final(self).node_seq() == old(self).node_seq().update(
                id as int,
                Node { last_child: v, ..old(self).node(id) },
            ),
            final(self).kid_seqs() == old(self).kid_seqs(),
    {
        self.nodes[id as usize].last_child = v;
    }

    pub(crate) fn set_next_sibling(&mut self, id: u32, v: Option<u32>)
        requires
            id < old(self).spec_len(),
        ensures
            final(self).node_seq() == old(self).node_seq().update(
                id as int,
                Node { next_sibling: v, ..old(self).node(id) },
            ),
            final(self).kid_seqs() == old(self).kid_seqs(),
    {
        self.nodes[id as usize].next_sibling = v;
    }

    pub(crate) fn set_prev_sibling(&mut self, id: u32, v: Option<u32>)
        requires
            id < old(self).spec_len(),
        ensures
            final(self).node_seq() == old(self).node_seq().update(
                id as int,
                Node { prev_sibling: v, ..old(self).node(id) },
            ),
            final(self).kid_seqs() == old(self).kid_seqs(),
    {
        self.nodes[id as usize].prev_sibling = v;
    }

    /// Replace the kind of a node, handing back the kind it had.
    pub(crate) fn replace_kind(&mut self, id: u32, kind: NodeKind) -> (prev: NodeKind)
        requires
            id < old(self).spec_len(),
        ensures
            prev == old(self).node(id).kind,
            final(self).node_seq() == old(self).node_seq().update(
                id as int,
                Node { kind: kind, ..old(self).node(id) },
            ),
            final(self).kid_seqs() == old(self).kid_seqs(),
            final(self).view() == old(self).view().set_kind(id, kind@),
            old(self).wf() ==> final(self).wf(),
    {
        let ghost kv = kind@;
        let mut k = kind;
        std::mem::swap(&mut self.nodes[id as usize].kind, &mut k);
        proof {
            assert(self.view().kinds =~= old(self).view().kinds.update(id as int, kv));
            assert(self.view().parents =~= old(self).view().parents);
            assert(self.view() =~= old(self).view().set_kind(id, kv));
            if old(self).wf() {
                lemma_links_kind(old(self).node_seq(), old(self).kid_seqs(), id as int, self.node(id).kind);
                assert(self.node_seq() =~= old(self).node_seq().update(
                    id as int,
                    Node { kind: self.node(id).kind, ..old(self).node(id) },
                ));
            }
        }
        k
    }
}


/// Adding a detached node keeps the links consistent.
pub proof fn lemma_links_push(ns: Seq<Node>, ks: Seq<Seq<u32>>, node: Node)
    requires
        links_ok(ns, ks),
        ns.len() <= u32::MAX,
        node.parent is None,
        node.first_child is None,
        node.last_child is None,
        node.prev_sibling is None,
        node.next_sibling is None,
    ensures
        links_ok(ns.push(node), ks.push(Seq::empty())),
{
    reveal(links_ok);
    let ns2 = ns.push(node);
    let ks2 = ks.push(Seq::<u32>::empty());
    assert forall|q: int| 0 <= q < ks2.len() implies (#[trigger] ks2[q]).no_duplicates() by {
        if q < ks.len() {
            assert(ks2[q] == ks[q]);
        }
    }
    assert forall|q: int| 0 <= q < ns2.len() implies #[trigger] node_ok(ns2, ks2, q) by {
        if q < ns.len() {
            assert(node_ok(ns, ks, q));
            if ns[q].parent is Some {
                assert(ks2[ns[q].parent->0 as int] == ks[ns[q].parent->0 as int]);
            }
        }
    }
    assert forall|q: int, i: int| 0 <= q < ns2.len() && 0 <= i < ks2[q].len() implies #[trigger] child_ok(
        ns2,
        ks2,
        q,
        i,
    ) by {
        assert(q < ns.len());
        assert(child_ok(ns, ks, q, i));
    }
}


/// What well-formedness says of one node.
pub proof fn lemma_node_ok(ns: Seq<Node>, ks: Seq<Seq<u32>>, q: int)
    requires
        links_ok(ns, ks),
        0 <= q < ns.len(),
    ensures
        node_ok(ns, ks, q),
        ks.len() == ns.len(),
        ns.len() <= u32::MAX as nat + 1,
        ks[q].no_duplicates(),
{
    reveal(links_ok);
}

/// What well-formedness says of the `i`-th child of a node.
pub proof fn lemma_child_ok(ns: Seq<Node>, ks: Seq<Seq<u32>>, q: int, i: int)
    requires
        links_ok(ns, ks),
        0 <= q < ns.len(),
        0 <= i < ks[q].len(),
    ensures
        child_ok(ns, ks, q, i),
        ks.len() == ns.len(),
        ns.len() <= u32::MAX as nat + 1,
{
    reveal(links_ok);
}

/// Well-formed links make a consistent tree.
pub proof fn lemma_wf_consistent(a: &Arena)
    requires
        a.wf(),
    ensures
        a.view().consistent(),
        a.kid_seqs().len() == a.spec_len(),
        a.spec_len() <= u32::MAX as nat + 1,
{
    reveal(links_ok);
    let t = a.view();
    let ns = a.node_seq();
    let ks = a.kid_seqs();
    assert forall|p: int, i: int| 0 <= p < t.len() && 0 <= i < t.kids[p].len() implies {
        &&& (#[trigger] t.kids[p][i]) < t.len()
        &&& t.parents[t.kids[p][i] as int] == Some(p as u32)
    } by {
        assert(child_ok(ns, ks, p, i));
    }
    assert forall|x: int| 0 <= x < t.len() && (#[trigger] t.parents[x]) is Some implies {
        &&& t.parents[x]->0 < t.len()
        &&& t.kids[t.parents[x]->0 as int].contains(x as u32)
    } by {
        assert(node_ok(ns, ks, x));
    }
}


/// The kind of a node plays no part in the links.
pub proof fn lemma_links_kind(ns: Seq<Node>, ks: Seq<Seq<u32>>, i: int, kind: NodeKind)
    requires
        links_ok(ns, ks),
        0 <= i < ns.len(),
    ensures
        links_ok(ns.update(i, Node { kind, ..ns[i] }), ks),
{
    reveal(links_ok);
    let ns2 = ns.update(i, Node { kind, ..ns[i] });
    assert forall|q: int| 0 <= q < ns2.len() implies #[trigger] node_ok(ns2, ks, q) by {
        assert(node_ok(ns, ks, q));
    }
    assert forall|q: int, j: int| 0 <= q < ns2.len() && 0 <= j < ks[q].len() implies #[trigger] child_ok(
        ns2,
        ks,
        q,
        j,
    ) by {
        assert(child_ok(ns, ks, q, j));
    }
}

} // verus!
