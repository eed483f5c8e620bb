use vstd::prelude::*;

use crate::arena::{child_ok, lemma_child_ok, lemma_node_ok, links_ok, node_ok, Arena};
use crate::node::Node;
use crate::model::DomTree;
use crate::text::{push_char, push_str};

verus! {

/// Errors returned by public tree-mutation methods.
#[derive(Debug, Clone, PartialEq, Eq, Structural)]
pub enum DomError {
    /// The supplied node id does not exist in the arena.
    InvalidNode(u32),
    /// The document root may not be removed.
    CannotRemoveRoot,
    /// The document root may not be appended as a child of another node.
    CannotAppendRoot,
    /// The child node is already attached to a parent.
    AlreadyAttached,
    /// The operation requires an element node, but the supplied node has a different kind.
    NotAnElement(u32),
}

/// The decimal digit `d` (below ten) as a character.
pub open spec fn digit_char(d: nat) -> char {
    if d == 0 {
        '0'
    } else if d == 1 {
        '1'
    } else if d == 2 {
        '2'
    } else if d == 3 {
        '3'
    } else if d == 4 {
        '4'
    } else if d == 5 {
        '5'
    } else if d == 6 {
        '6'
    } else if d == 7 {
        '7'
    } else if d == 8 {
        '8'
    } else {
        '9'
    }
}

/// The decimal notation of `n`, without leading zeros.
pub open spec fn decimal(n: nat) -> Seq<char>
    decreases n,
{
    if n < 10 {
        seq![digit_char(n)]
    } else {
        decimal(n / 10).push(digit_char(n % 10))
    }
}

/// The message of an error, as it is shown to users.
pub open spec fn error_message(e: DomError) -> Seq<char> {
    match e {
        DomError::InvalidNode(id) => "invalid node id: "@ + decimal(id as nat),
        DomError::CannotRemoveRoot => "cannot remove the document root"@,
        DomError::CannotAppendRoot => "cannot append root as a child"@,
        DomError::AlreadyAttached => "child is already attached to a parent"@,
        DomError::NotAnElement(id) => "node "@ + decimal(id as nat) + " is not an element"@,
    }
}

fn digit(d: u32) -> (c: char)
    requires
        d < 10,
    ensures
        c == digit_char(d as nat),
{
    if d == 0 {
        '0'
    } else if d == 1 {
        '1'
    } else if d == 2 {
        '2'
    } else if d == 3 {
        '3'
    } else if d == 4 {
        '4'
    } else if d == 5 {
        '5'
    } else if d == 6 {
        '6'
    } else if d == 7 {
        '7'
    } else if d == 8 {
        '8'
    } else {
        '9'
    }
}

/// Append the decimal notation of `n`.
pub fn push_decimal(s: &mut String, n: u32)
    ensures
        final(s)@ == old(s)@ + decimal(n as nat),
    decreases n,
{
    if n >= 10 {
        push_decimal(s, n / 10);
    }
    push_char(s, digit(n % 10));
    proof {
        if n >= 10 {
            assert(old(s)@ + decimal((n / 10) as nat) + seq![digit_char((n % 10) as nat)] =~= old(
                s,
            )@ + decimal(n as nat));
        } else {
            assert(old(s)@.push(digit_char(n as nat)) =~= old(s)@ + decimal(n as nat));
        }
    }
}

impl DomError {
    /// The message of the error, as it is shown to users.
    pub fn message(&self) -> (s: String)
        ensures
            s@ == error_message(*self),
    {
        match self {
            DomError::InvalidNode(id) => {
                let mut s = String::from_str("invalid node id: ");
                push_decimal(&mut s, *id);
                s
            },
            DomError::CannotRemoveRoot => String::from_str("cannot remove the document root"),
            DomError::CannotAppendRoot => String::from_str("cannot append root as a child"),
            DomError::AlreadyAttached => String::from_str("child is already attached to a parent"),
            DomError::NotAnElement(id) => {
                let mut s = String::from_str("node ");
                push_decimal(&mut s, *id);
                push_str(&mut s, " is not an element");
                s
            },
        }
    }
}

/// What `append_child` answers, checked in this order.
pub open spec fn append_outcome(t: DomTree, parent: u32, child: u32, root: u32) -> Result<
    (),
    DomError,
> {
    if !t.valid(parent) {
        Err(DomError::InvalidNode(parent))
    } else if !t.valid(child) {
        Err(DomError::InvalidNode(child))
    } else if child == root {
        Err(DomError::CannotAppendRoot)
    } else if t.parents[child as int] is Some {
        Err(DomError::AlreadyAttached)
    } else {
        Ok(())
    }
}

/// What `remove_node` answers, checked in this order.
pub open spec fn remove_outcome(t: DomTree, node: u32, root: u32) -> Result<(), DomError> {
    if !t.valid(node) {
        Err(DomError::InvalidNode(node))
    } else if node == root {
        Err(DomError::CannotRemoveRoot)
    } else {
        Ok(())
    }
}

/// Append `child_id` as the last child of `parent_id`.
///
/// O(1): updates parent <-> child and prev-sibling links only.
pub(crate) fn append_child(arena: &mut Arena, parent_id: u32, child_id: u32, root_id: u32) -> (r:
    Result<(), DomError>)
    requires
        old(arena).wf(),
    ensures
        final(arena).wf(),
        r == append_outcome(old(arena).view(), parent_id, child_id, root_id),
        r is Ok ==> final(arena).view() == old(arena).view().append(parent_id, child_id),
        r is Err ==> *final(arena) == *old(arena),
{
    if arena.get(parent_id).is_none() {
        return Err(DomError::InvalidNode(parent_id));
    }
    if arena.get(child_id).is_none() {
        return Err(DomError::InvalidNode(child_id));
    }
    if child_id == root_id {
        return Err(DomError::CannotAppendRoot);
    }
    if arena.get(child_id).unwrap().parent.is_some() {
        return Err(DomError::AlreadyAttached);
    }
    let ghost ns = arena.node_seq();
    let ghost ks = arena.kid_seqs();
    let ghost p = parent_id as int;
    // Read parent state before taking mutable refs.
    let parent_node = arena.get(parent_id).unwrap();
    let last_child = parent_node.last_child;
    let first_child = parent_node.first_child;
    proof {
        lemma_append_pre(ns, ks, parent_id, child_id);
    }
    // Wire previous tail's forward link.
    if let Some(prev_id) = last_child {
        arena.set_next_sibling(prev_id, Some(child_id));
    }
    // Wire child's back-links.
    arena.set_parent(child_id, Some(parent_id));
    arena.set_prev_sibling(child_id, last_child);
    arena.set_next_sibling(child_id, None);
    // Update parent's child pointers.
    if first_child.is_none() {
        arena.set_first_child(parent_id, Some(child_id));
    }
    arena.set_last_child(parent_id, Some(child_id));
    let ghost nks = ks.update(p, ks[p].push(child_id));
    arena.set_kids(Ghost(nks));
    proof {
        let ghost ns2 = appended_nodes(ns, parent_id, child_id);
        assert(arena.spec_len() == ns.len());
        assert forall|x: int| 0 <= x < ns.len() implies arena.node_seq()[x] == ns2[x] by {
            assert(arena.node_seq()[x].kind == ns2[x].kind);
            assert(arena.node_seq()[x].parent == ns2[x].parent);
            assert(arena.node_seq()[x].next_sibling == ns2[x].next_sibling);
            assert(arena.node_seq()[x].prev_sibling == ns2[x].prev_sibling);
            assert(arena.node_seq()[x].first_child == ns2[x].first_child);
            assert(arena.node_seq()[x].last_child == ns2[x].last_child);
        }
        assert(arena.node_seq() =~= appended_nodes(ns, parent_id, child_id));
        lemma_append_links(ns, ks, parent_id, child_id);
        assert(arena.view().kinds =~= old(arena).view().kinds);
        assert(arena.view().parents =~= old(arena).view().parents.update(
            child_id as int,
            Some(parent_id),
        ));
        assert(arena.view() =~= old(arena).view().append(parent_id, child_id));
    }
    Ok(())
}

/// The nodes after `child` is linked in as the last child of `parent`.
pub open spec fn appended_nodes(ns: Seq<Node>, parent: u32, child: u32) -> Seq<Node> {
    let last = ns[parent as int].last_child;
    Seq::new(
        ns.len(),
        |x: int|
            Node {
                kind: ns[x].kind,
                parent: if x == child as int {
                    Some(parent)
                } else {
                    ns[x].parent
                },
                first_child: if x == parent as int && ns[x].first_child is None {
                    Some(child)
                } else {
                    ns[x].first_child
                },
                last_child: if x == parent as int {
                    Some(child)
                } else {
                    ns[x].last_child
                },
                next_sibling: if x == child as int {
                    None
                } else if last == Some(x as u32) {
                    Some(child)
                } else {
                    ns[x].next_sibling
                },
                prev_sibling: if x == child as int {
                    last
                } else {
                    ns[x].prev_sibling
                },
            },
    )
}

proof fn lemma_append_pre(ns: Seq<Node>, ks: Seq<Seq<u32>>, parent_id: u32, child_id: u32)
    requires
        links_ok(ns, ks),
        parent_id < ns.len(),
        child_id < ns.len(),
        ns[child_id as int].parent is None,
    ensures
        !ks[parent_id as int].contains(child_id),
        ns[parent_id as int].last_child matches Some(l) ==> l < ns.len() && l != child_id,
        ns[parent_id as int].first_child is None <==> ks[parent_id as int].len() == 0,
        ks.len() == ns.len(),
        ns.len() <= u32::MAX as nat + 1,
{
    reveal(links_ok);
    let p = parent_id as int;
    assert(node_ok(ns, ks, p));
    if ks[p].contains(child_id) {
        let i = ks[p].index_of(child_id);
        assert(child_ok(ns, ks, p, i));
    }
    if ks[p].len() > 0 {
        assert(child_ok(ns, ks, p, ks[p].len() - 1));
    }
}

proof fn lemma_append_links(ns: Seq<Node>, ks: Seq<Seq<u32>>, parent_id: u32, child_id: u32)
    requires
        links_ok(ns, ks),
        parent_id < ns.len(),
        child_id < ns.len(),
        ns[child_id as int].parent is None,
    ensures
        links_ok(
            appended_nodes(ns, parent_id, child_id),
            ks.update(parent_id as int, ks[parent_id as int].push(child_id)),
        ),
{
    lemma_append_pre(ns, ks, parent_id, child_id);
    reveal(links_ok);
    let p = parent_id as int;
    let ns2 = appended_nodes(ns, parent_id, child_id);
    let ks2 = ks.update(p, ks[p].push(child_id));
    let last = ns[p].last_child;
    assert(node_ok(ns, ks, p));
    assert forall|q: int| 0 <= q < ks2.len() implies (#[trigger] ks2[q]).no_duplicates() by {
        if q == p {
            assert(ks[q].no_duplicates());
            assert forall|i: int, j: int|
                0 <= i < ks2[q].len() && 0 <= j < ks2[q].len() && i != j implies ks2[q][i]
                != ks2[q][j] by {
                if i < ks[q].len() && j < ks[q].len() {
                } else if i < ks[q].len() {
                    assert(ks[q].contains(ks[q][i]));
                } else {
                    assert(ks[q].contains(ks[q][j]));
                }
            }
        }
    }
    assert forall|q: int| 0 <= q < ns2.len() implies #[trigger] node_ok(ns2, ks2, q) by {
        assert(node_ok(ns, ks, q));
        let node = ns2[q];
        if node.parent is None {
            if last == Some(q as u32) {
                assert(child_ok(ns, ks, p, ks[p].len() - 1));
            }
        }
        if node.parent is Some {
            let r = node.parent->0 as int;
            if q == child_id as int {
                assert(ks2[p][ks2[p].len() - 1] == child_id);
            } else {
                let k = ks[r].index_of(q as u32);
                assert(ks2[r][k] == q as u32);
            }
        }
    }
    assert forall|q: int, i: int| 0 <= q < ns2.len() && 0 <= i < ks2[q].len() implies #[trigger] child_ok(
        ns2,
        ks2,
        q,
        i,
    ) by {
        if q == p && i == ks[p].len() {
            if i > 0 {
                assert(child_ok(ns, ks, p, i - 1));
            }
        } else {
            assert(child_ok(ns, ks, q, i));
            let x = ks[q][i];
            assert(ks2[q][i] == x);
            if let Some(l) = last {
                if l == x {
                    let j = ks[p].len() - 1;
                    assert(child_ok(ns, ks, p, j));
                    assert(ks[p].no_duplicates());
                }
            }
        }
    }
}


/// Detach `node_id` from its parent and siblings in O(1).
///
/// # No-op on detached nodes
///
/// If `node_id` is already detached (has no parent), this function returns `Ok(())` and
/// makes no structural changes. This matches browser `Node.remove()` semantics, where
/// calling `remove()` on a node that has no parent is a silent no-op.
///
/// # Subtree preservation
///
/// Only the node itself is detached from its own parent; its children remain linked
/// to it unchanged.
pub(crate) fn remove_node(arena: &mut Arena, node_id: u32, root_id: u32) -> (r: Result<
    (),
    DomError,
>)
    requires
        old(arena).wf(),
    ensures
        final(arena).wf(),
        r == remove_outcome(old(arena).view(), node_id, root_id),
        r is Ok ==> final(arena).view() == old(arena).view().detach(node_id),
        r is Err ==> *final(arena) == *old(arena),
{
    if arena.get(node_id).is_none() {
        return Err(DomError::InvalidNode(node_id));
    }
    if node_id == root_id {
        return Err(DomError::CannotRemoveRoot);
    }
    let ghost ns = arena.node_seq();
    let ghost ks = arena.kid_seqs();
    // Snapshot links before any mutation.
    let node_snap = arena.get(node_id).unwrap();
    let parent = node_snap.parent;
    let prev = node_snap.prev_sibling;
    let next = node_snap.next_sibling;
    proof {
        lemma_remove_pre(ns, ks, node_id);
    }
    // Stitch siblings together.
    if let Some(prev_id) = prev {
        arena.set_next_sibling(prev_id, next);
    }
    if let Some(next_id) = next {
        arena.set_prev_sibling(next_id, prev);
    }
    // Fix parent's first/last child pointers.
    if let Some(parent_id) = parent {
        let p = arena.get(parent_id).unwrap();
        let first = p.first_child;
        let last = p.last_child;
        if first == Some(node_id) {
            arena.set_first_child(parent_id, next);
        }
        if last == Some(node_id) {
            arena.set_last_child(parent_id, prev);
        }
    }
    // Clear the detached node's tree links.
    arena.set_parent(node_id, None);
    arena.set_prev_sibling(node_id, None);
    arena.set_next_sibling(node_id, None);
    proof {
        let ns2 = removed_nodes(ns, node_id);
        assert forall|x: int| 0 <= x < ns.len() implies arena.node_seq()[x] == ns2[x] by {
            assert(arena.node_seq()[x].kind == ns2[x].kind);
            assert(arena.node_seq()[x].parent == ns2[x].parent);
            assert(arena.node_seq()[x].next_sibling == ns2[x].next_sibling);
            assert(arena.node_seq()[x].prev_sibling == ns2[x].prev_sibling);
            assert(arena.node_seq()[x].first_child == ns2[x].first_child);
            assert(arena.node_seq()[x].last_child == ns2[x].last_child);
        }
        assert(arena.node_seq() =~= ns2);
    }
    let ghost nks = removed_kids(ns, ks, node_id);
    arena.set_kids(Ghost(nks));
    proof {
        lemma_remove_links(ns, ks, node_id);
        assert(arena.view().kinds =~= old(arena).view().kinds);
        assert(arena.view().parents =~= old(arena).view().parents.update(node_id as int, None));
        if parent is None {
            assert(arena.view().parents =~= old(arena).view().parents);
            assert(arena.view() =~= old(arena).view().detach(node_id));
        } else {
            assert(arena.view() =~= old(arena).view().detach(node_id));
        }
    }
    Ok(())
}

/// The child lists after `node` leaves the list of its parent.
pub open spec fn removed_kids(ns: Seq<Node>, ks: Seq<Seq<u32>>, node: u32) -> Seq<Seq<u32>> {
    match ns[node as int].parent {
        None => ks,
        Some(p) => ks.update(p as int, ks[p as int].remove(ks[p as int].index_of(node))),
    }
}

/// The nodes after `node` is unlinked from its parent and siblings.
pub open spec fn removed_nodes(ns: Seq<Node>, node: u32) -> Seq<Node> {
    let prev = ns[node as int].prev_sibling;
    let next = ns[node as int].next_sibling;
    let parent = ns[node as int].parent;
    Seq::new(
        ns.len(),
        |y: int|
            Node {
                kind: ns[y].kind,
                parent: if y == node as int {
                    None
                } else {
                    ns[y].parent
                },
                first_child: if parent == Some(y as u32) && ns[y].first_child == Some(node) {
                    next
                } else {
                    ns[y].first_child
                },
                last_child: if parent == Some(y as u32) && ns[y].last_child == Some(node) {
                    prev
                } else {
                    ns[y].last_child
                },
                next_sibling: if y == node as int {
                    None
                } else if prev == Some(y as u32) {
                    next
                } else {
                    ns[y].next_sibling
                },
                prev_sibling: if y == node as int {
                    None
                } else if next == Some(y as u32) {
                    prev
                } else {
                    ns[y].prev_sibling
                },
            },
    )
}

proof fn lemma_remove_pre(ns: Seq<Node>, ks: Seq<Seq<u32>>, node_id: u32)
    requires
        links_ok(ns, ks),
        node_id < ns.len(),
    ensures
        ks.len() == ns.len(),
        ns.len() <= u32::MAX as nat + 1,
        ns[node_id as int].prev_sibling matches Some(v) ==> v < ns.len() && v != node_id,
        ns[node_id as int].next_sibling matches Some(v) ==> v < ns.len() && v != node_id,
        ns[node_id as int].parent matches Some(v) ==> v < ns.len(),
        ns[node_id as int].parent is None ==> ns[node_id as int].prev_sibling is None
            && ns[node_id as int].next_sibling is None,
{
    reveal(links_ok);
    let x = node_id as int;
    assert(node_ok(ns, ks, x));
    if let Some(p) = ns[x].parent {
        let i = ks[p as int].index_of(node_id);
        assert(child_ok(ns, ks, p as int, i));
        assert(ks[p as int].no_duplicates());
        if i > 0 {
            assert(child_ok(ns, ks, p as int, i - 1));
        }
        if i < ks[p as int].len() - 1 {
            assert(child_ok(ns, ks, p as int, i + 1));
        }
    }
}

proof fn lemma_remove_links(ns: Seq<Node>, ks: Seq<Seq<u32>>, node_id: u32)
    requires
        links_ok(ns, ks),
        node_id < ns.len(),
    ensures
        links_ok(removed_nodes(ns, node_id), removed_kids(ns, ks, node_id)),
{
    reveal(links_ok);
    let x = node_id as int;
    let ns2 = removed_nodes(ns, node_id);
    let ks2 = removed_kids(ns, ks, node_id);
    assert(node_ok(ns, ks, x));
    match ns[x].parent {
        None => {
            assert(ns2 =~= ns);
        },
        Some(pp) => {
            let p = pp as int;
            let i = ks[p].index_of(node_id);
            let len = ks[p].len();
            assert(child_ok(ns, ks, p, i));
            assert(ks[p].no_duplicates());
            assert(node_ok(ns, ks, p));
            let kp = ks[p].remove(i);
            assert(ks2[p] == kp);
            assert forall|q: int| 0 <= q < ks2.len() implies (#[trigger] ks2[q]).no_duplicates() by {
                if q == p {
                    assert forall|a: int, b: int|
                        0 <= a < kp.len() && 0 <= b < kp.len() && a != b implies kp[a] != kp[b] by {
                        let a2 = if a < i { a } else { a + 1 };
                        let b2 = if b < i { b } else { b + 1 };
                        assert(kp[a] == ks[p][a2]);
                        assert(kp[b] == ks[p][b2]);
                    }
                }
            }
            assert forall|q: int| 0 <= q < ns2.len() implies #[trigger] node_ok(ns2, ks2, q) by {
                assert(node_ok(ns, ks, q));
                if q == p {
                    if len > 1 {
                        assert(child_ok(ns, ks, p, 0));
                        assert(child_ok(ns, ks, p, len - 1));
                        if i == 0 {
                            assert(child_ok(ns, ks, p, 1));
                        }
                        if i == len - 1 {
                            assert(child_ok(ns, ks, p, len - 2));
                        }
                    }
                }
                let node = ns2[q];
                if node.parent is None && q != x {
                    if i > 0 && ks[p][i - 1] == q as u32 {
                        assert(child_ok(ns, ks, p, i - 1));
                    }
                    if i < len - 1 && ks[p][i + 1] == q as u32 {
                        assert(child_ok(ns, ks, p, i + 1));
                    }
                }
                if node.parent is Some {
                    let r = node.parent->0 as int;
                    let k = ks[r].index_of(q as u32);
                    if r == p {
                        assert(k != i);
                        if k < i {
                            assert(ks2[r][k] == q as u32);
                        } else {
                            assert(ks2[r][k - 1] == q as u32);
                        }
                    } else {
                        assert(ks2[r][k] == q as u32);
                    }
                }
            }
            assert forall|q: int, j: int| 0 <= q < ns2.len() && 0 <= j < ks2[q].len() implies #[trigger] child_ok(
                ns2,
                ks2,
                q,
                j,
            ) by {
                if q == p {
                    let j2 = if j < i { j } else { j + 1 };
                    assert(child_ok(ns, ks, p, j2));
                    if j2 > 0 {
                        assert(child_ok(ns, ks, p, j2 - 1));
                    }
                    if j2 < len - 1 {
                        assert(child_ok(ns, ks, p, j2 + 1));
                    }
                    if i > 0 {
                        assert(child_ok(ns, ks, p, i - 1));
                    }
                    if i < len - 1 {
                        assert(child_ok(ns, ks, p, i + 1));
                    }
                } else {
                    assert(child_ok(ns, ks, q, j));
                    let y = ks[q][j];
                    if i > 0 {
                        assert(child_ok(ns, ks, p, i - 1));
                    }
                    if i < len - 1 {
                        assert(child_ok(ns, ks, p, i + 1));
                    }
                }
            }
        },
    }
}


/// Return an ordered list of direct children of `node_id`, or `None` if the node does not exist.
pub(crate) fn children(arena: &Arena, node_id: u32) -> (r: Option<Vec<u32>>)
    requires
        arena.wf(),
    ensures
        r matches Some(v) ==> arena.view().valid(node_id) && v@ == arena.view().kids[node_id as int],
        r is None ==> !arena.view().valid(node_id),
{
    let node = match arena.get(node_id) {
        Some(n) => n,
        None => return None,
    };
    let ghost ns = arena.node_seq();
    let ghost ks = arena.kid_seqs();
    let ghost q = node_id as int;
    proof {
        lemma_node_ok(ns, ks, q);
        if ks[q].len() > 0 {
            lemma_child_ok(ns, ks, q, 0);
        }
    }
    let mut result: Vec<u32> = Vec::new();
    let mut cursor = node.first_child;
    let ghost mut i: int = 0;
    while cursor.is_some()
        invariant
            arena.wf(),
            ns == arena.node_seq(),
            ks == arena.kid_seqs(),
            0 <= q < ns.len(),
            ks.len() == ns.len(),
            0 <= i <= ks[q].len(),
            result@ == ks[q].take(i),
            cursor == (if i < ks[q].len() {
                Some(ks[q][i])
            } else {
                None
            }),
            i < ks[q].len() ==> ks[q][i] < ns.len(),
        decreases ks[q].len() - i,
    {
        let id = cursor.unwrap();
        result.push(id);
        proof {
            lemma_child_ok(ns, ks, q, i);
            assert(result@ =~= ks[q].take(i + 1));
            i = i + 1;
            if i < ks[q].len() {
                lemma_child_ok(ns, ks, q, i);
            }
        }
        cursor = arena.get(id).unwrap().next_sibling;
    }
    proof {
        assert(result@ =~= ks[q]);
    }
    Some(result)
}

/// Return the parent id of `node_id`, or `None` if detached.
pub(crate) fn parent_of(arena: &Arena, node_id: u32) -> (r: Option<u32>)
    ensures
        r == (if arena.view().valid(node_id) {
            arena.view().parents[node_id as int]
        } else {
            None
        }),
{
    match arena.get(node_id) {
        Some(n) => n.parent,
        None => None,
    }
}


/// The nodes after the detached `node` is linked in right before `sibling`, a child of `parent`.
pub open spec fn inserted_nodes(ns: Seq<Node>, parent: u32, sibling: u32, node: u32) -> Seq<Node> {
    let prev = ns[sibling as int].prev_sibling;
    Seq::new(
        ns.len(),
        |y: int|
            Node {
                kind: ns[y].kind,
                parent: if y == node as int {
                    Some(parent)
                } else {
                    ns[y].parent
                },
                first_child: if y == parent as int && prev is None {
                    Some(node)
                } else {
                    ns[y].first_child
                },
                last_child: ns[y].last_child,
                next_sibling: if y == node as int {
                    Some(sibling)
                } else if prev == Some(y as u32) {
                    Some(node)
                } else {
                    ns[y].next_sibling
                },
                prev_sibling: if y == node as int {
                    prev
                } else if y == sibling as int {
                    Some(node)
                } else {
                    ns[y].prev_sibling
                },
            },
    )
}

proof fn lemma_insert_pre(ns: Seq<Node>, ks: Seq<Seq<u32>>, parent: u32, sibling: u32, node: u32)
    requires
        links_ok(ns, ks),
        parent < ns.len(),
        sibling < ns.len(),
        node < ns.len(),
        ns[sibling as int].parent == Some(parent),
        ns[node as int].parent is None,
    ensures
        ks.len() == ns.len(),
        ns.len() <= u32::MAX as nat + 1,
        ks[parent as int].contains(sibling),
        !ks[parent as int].contains(node),
        ns[sibling as int].prev_sibling matches Some(v) ==> v < ns.len() && v != node,
        ns[sibling as int].prev_sibling is None <==> ks[parent as int].index_of(sibling) == 0,
        node != sibling,
{
    reveal(links_ok);
    let p = parent as int;
    assert(node_ok(ns, ks, sibling as int));
    let i = ks[p].index_of(sibling);
    assert(child_ok(ns, ks, p, i));
    if i > 0 {
        assert(child_ok(ns, ks, p, i - 1));
    }
    if ks[p].contains(node) {
        let j = ks[p].index_of(node);
        assert(child_ok(ns, ks, p, j));
    }
}

proof fn lemma_insert_links(ns: Seq<Node>, ks: Seq<Seq<u32>>, parent: u32, sibling: u32, node: u32)
    requires
        links_ok(ns, ks),
        parent < ns.len(),
        sibling < ns.len(),
        node < ns.len(),
        ns[sibling as int].parent == Some(parent),
        ns[node as int].parent is None,
    ensures
        links_ok(
            inserted_nodes(ns, parent, sibling, node),
            ks.update(
                parent as int,
                ks[parent as int].insert(ks[parent as int].index_of(sibling), node),
            ),
        ),
{
    lemma_insert_pre(ns, ks, parent, sibling, node);
    reveal(links_ok);
    let p = parent as int;
    let ns2 = inserted_nodes(ns, parent, sibling, node);
    let i = ks[p].index_of(sibling);
    let kp = ks[p].insert(i, node);
    let ks2 = ks.update(p, kp);
    let len = ks[p].len();
    let prev = ns[sibling as int].prev_sibling;
    assert(child_ok(ns, ks, p, i));
    assert(ks[p].no_duplicates());
    assert(node_ok(ns, ks, p));
    assert(node_ok(ns, ks, node as int));
    assert forall|q: int| 0 <= q < ks2.len() implies (#[trigger] ks2[q]).no_duplicates() by {
        if q == p {
            assert forall|a: int, b: int|
                0 <= a < kp.len() && 0 <= b < kp.len() && a != b implies kp[a] != kp[b] by {
                if a != i && b != i {
                    let a2 = if a < i { a } else { a - 1 };
                    let b2 = if b < i { b } else { b - 1 };
                    assert(kp[a] == ks[p][a2]);
                    assert(kp[b] == ks[p][b2]);
                } else if a == i {
                    let b2 = if b < i { b } else { b - 1 };
                    assert(kp[b] == ks[p][b2]);
                    assert(ks[p].contains(ks[p][b2]));
                } else {
                    let a2 = if a < i { a } else { a - 1 };
                    assert(kp[a] == ks[p][a2]);
                    assert(ks[p].contains(ks[p][a2]));
                }
            }
        }
    }
    assert forall|q: int| 0 <= q < ns2.len() implies #[trigger] node_ok(ns2, ks2, q) by {
        assert(node_ok(ns, ks, q));
        if q == p {
            assert(kp[0] == (if i == 0 { node } else { ks[p][0] }));
            assert(kp[kp.len() - 1] == ks[p][len - 1]);
            if i > 0 {
                assert(child_ok(ns, ks, p, i - 1));
            }
        }
        let nd = ns2[q];
        if nd.parent is None && q != node as int {
            if prev == Some(q as u32) {
                assert(child_ok(ns, ks, p, i - 1));
            }
        }
        if nd.parent is Some {
            let r = nd.parent->0 as int;
            if q == node as int {
                assert(kp[i] == node);
            } else {
                let k = ks[r].index_of(q as u32);
                if r == p {
                    if k < i {
                        assert(ks2[r][k] == q as u32);
                    } else {
                        assert(ks2[r][k + 1] == q as u32);
                    }
                } else {
                    assert(ks2[r][k] == q as u32);
                }
            }
        }
    }
    assert forall|q: int, j: int| 0 <= q < ns2.len() && 0 <= j < ks2[q].len() implies #[trigger] child_ok(
        ns2,
        ks2,
        q,
        j,
    ) by {
        if i > 0 {
            assert(child_ok(ns, ks, p, i - 1));
        }
        if q == p {
            if j == i {
                assert(kp[j] == node);
                assert(kp[j + 1] == sibling);
                if i > 0 {
                    assert(kp[j - 1] == ks[p][i - 1]);
                }
            } else {
                let j2 = if j < i { j } else { j - 1 };
                assert(kp[j] == ks[p][j2]);
                assert(child_ok(ns, ks, p, j2));
                if j2 > 0 {
                    assert(child_ok(ns, ks, p, j2 - 1));
                }
                if j2 < len - 1 {
                    assert(child_ok(ns, ks, p, j2 + 1));
                }
                if j > 0 {
                    if j - 1 == i {
                        assert(kp[j - 1] == node);
                    } else {
                        let j3 = if j - 1 < i { j - 1 } else { j - 2 };
                        assert(kp[j - 1] == ks[p][j3]);
                    }
                }
                if j < kp.len() - 1 {
                    if j + 1 == i {
                        assert(kp[j + 1] == node);
                    } else {
                        let j3 = if j + 1 < i { j + 1 } else { j };
                        assert(kp[j + 1] == ks[p][j3]);
                    }
                }
            }
        } else {
            assert(child_ok(ns, ks, q, j));
            let y = ks[q][j];
            assert(ks2[q] == ks[q]);
        }
    }
}

/// Link the detached `new_node` into the child list of `parent_id`, right before
/// `sibling`, which is a child of `parent_id`. O(1).
pub(crate) fn insert_before(arena: &mut Arena, parent_id: u32, sibling: u32, new_node: u32)
    requires
        old(arena).wf(),
        old(arena).view().valid(parent_id),
        old(arena).view().valid(sibling),
        old(arena).view().valid(new_node),
        old(arena).view().parents[sibling as int] == Some(parent_id),
        old(arena).view().parents[new_node as int] is None,
    ensures
        final(arena).wf(),
        final(arena).view() == old(arena).view().insert_before(parent_id, sibling, new_node),
{
    let ghost ns = arena.node_seq();
    let ghost ks = arena.kid_seqs();
    proof {
        lemma_insert_pre(ns, ks, parent_id, sibling, new_node);
    }
    let prev = arena.get(sibling).unwrap().prev_sibling;
    arena.set_parent(new_node, Some(parent_id));
    arena.set_prev_sibling(new_node, prev);
    arena.set_next_sibling(new_node, Some(sibling));
    match prev {
        Some(prev_id) => {
            arena.set_next_sibling(prev_id, Some(new_node));
        },
        None => {
            arena.set_first_child(parent_id, Some(new_node));
        },
    }
    arena.set_prev_sibling(sibling, Some(new_node));
    proof {
        let ns2 = inserted_nodes(ns, parent_id, sibling, new_node);
        assert forall|x: int| 0 <= x < ns.len() implies arena.node_seq()[x] == ns2[x] by {
            assert(arena.node_seq()[x].kind == ns2[x].kind);
            assert(arena.node_seq()[x].parent == ns2[x].parent);
            assert(arena.node_seq()[x].next_sibling == ns2[x].next_sibling);
            assert(arena.node_seq()[x].prev_sibling == ns2[x].prev_sibling);
            assert(arena.node_seq()[x].first_child == ns2[x].first_child);
            assert(arena.node_seq()[x].last_child == ns2[x].last_child);
        }
        assert(arena.node_seq() =~= ns2);
    }
    let ghost p = parent_id as int;
    let ghost nks = ks.update(p, ks[p].insert(ks[p].index_of(sibling), new_node));
    arena.set_kids(Ghost(nks));
    proof {
        lemma_insert_links(ns, ks, parent_id, sibling, new_node);
        assert(arena.view().kinds =~= old(arena).view().kinds);
        assert(arena.view().parents =~= old(arena).view().parents.update(
            new_node as int,
            Some(parent_id),
        ));
        assert(arena.view() =~= old(arena).view().insert_before(parent_id, sibling, new_node));
    }
}

} // verus!
