use vstd::prelude::*;

use crate::node::KindView;

verus! {

/// The mathematical value of a node arena: for each node id, its kind, its parent,
/// and the ordered list of its children.
#[verifier::ext_equal]
pub struct DomTree {
    pub kinds: Seq<KindView>,
    pub parents: Seq<Option<u32>>,
    pub kids: Seq<Seq<u32>>,
}

impl DomTree {
    /// The tree with no node.
    pub open spec fn empty() -> DomTree {
        DomTree { kinds: Seq::empty(), parents: Seq::empty(), kids: Seq::empty() }
    }

    pub open spec fn len(self) -> nat {
        self.kinds.len()
    }

    pub open spec fn valid(self, id: u32) -> bool {
        id < self.len()
    }

    /// Parents and child lists agree: each node is listed, once, by its parent
    /// and by no other node.
    pub open spec fn consistent(self) -> bool {
        &&& self.parents.len() == self.len()
        &&& self.kids.len() == self.len()
        &&& forall|p: int| 0 <= p < self.len() ==> (#[trigger] self.kids[p]).no_duplicates()
        &&& forall|p: int, i: int|
            0 <= p < self.len() && 0 <= i < self.kids[p].len() ==> {
                &&& (#[trigger] self.kids[p][i]) < self.len()
                &&& self.parents[self.kids[p][i] as int] == Some(p as u32)
            }
        &&& forall|x: int|
            0 <= x < self.len() && (#[trigger] self.parents[x]) is Some ==> {
                &&& self.parents[x]->0 < self.len()
                &&& self.kids[self.parents[x]->0 as int].contains(x as u32)
            }
    }

    /// The tree after a fresh detached node of the given kind is added at the end.
    pub open spec fn add_node(self, kind: KindView) -> DomTree {
        DomTree {
            kinds: self.kinds.push(kind),
            parents: self.parents.push(None),
            kids: self.kids.push(Seq::empty()),
        }
    }

    /// The tree after `child` becomes the last child of `parent`.
    pub open spec fn append(self, parent: u32, child: u32) -> DomTree {
        DomTree {
            kinds: self.kinds,
            parents: self.parents.update(child as int, Some(parent)),
            kids: self.kids.update(parent as int, self.kids[parent as int].push(child)),
        }
    }

    /// The tree after `node` is unlinked from its parent (unchanged if it has none).
    pub open spec fn detach(self, node: u32) -> DomTree {
        match self.parents[node as int] {
            None => self,
            Some(p) => DomTree {
                kinds: self.kinds,
                parents: self.parents.update(node as int, None),
                kids: self.kids.update(
                    p as int,
                    self.kids[p as int].remove(self.kids[p as int].index_of(node)),
                ),
            },
        }
    }

    /// The tree after `node` is placed right before `sibling` in the child list of `parent`.
    pub open spec fn insert_before(self, parent: u32, sibling: u32, node: u32) -> DomTree {
        DomTree {
            kinds: self.kinds,
            parents: self.parents.update(node as int, Some(parent)),
            kids: self.kids.update(
                parent as int,
                self.kids[parent as int].insert(self.kids[parent as int].index_of(sibling), node),
            ),
        }
    }

    /// The tree after the kind of `node` is replaced.
    pub open spec fn set_kind(self, node: u32, kind: KindView) -> DomTree {
        DomTree { kinds: self.kinds.update(node as int, kind), ..self }
    }

    /// The node `k` steps up the parent chain of `x`, if the chain is that long.
    pub open spec fn up(self, x: u32, k: nat) -> Option<u32>
        decreases k,
    {
        if k == 0 {
            Some(x)
        } else {
            match self.parents[x as int] {
                None => None,
                Some(p) => self.up(p, (k - 1) as nat),
            }
        }
    }

    /// The parent chain of `x` ends, after exactly `d` steps, at a node with no parent.
    pub open spec fn depth_is(self, x: u32, d: nat) -> bool {
        &&& self.up(x, d) is Some
        &&& self.parents[self.up(x, d)->0 as int] is None
    }

    /// The parent chain of `x` ends at a node with no parent: `x` belongs to a finite tree.
    pub open spec fn anchored(self, x: u32) -> bool {
        exists|d: nat| self.depth_is(x, d)
    }

    /// Number of steps from `x` up to the top of its tree (meaningful when `x` is anchored).
    pub open spec fn depth(self, x: u32) -> nat {
        choose|d: nat| self.depth_is(x, d)
    }

    /// `a` lies on the parent chain of `x` (`x` itself included).
    pub open spec fn is_inclusive_ancestor(self, a: u32, x: u32) -> bool {
        exists|k: nat| self.up(x, k) == Some(a)
    }
}


impl DomTree {
    /// Walking up `a` steps, then `b` more, is walking up `a + b` steps.
    pub proof fn lemma_up_add(self, x: u32, a: nat, b: nat)
        ensures
            self.up(x, a + b) == (match self.up(x, a) {
                Some(y) => self.up(y, b),
                None => None,
            }),
        decreases a,
    {
        if a > 0 {
            match self.parents[x as int] {
                None => {},
                Some(p) => {
                    self.lemma_up_add(p, (a - 1) as nat, b);
                    assert((a + b - 1) as nat == (a - 1) as nat + b);
                },
            }
        }
    }

    /// Once the walk up has left the tree, it stays out.
    pub proof fn lemma_up_some_below(self, x: u32, k: nat, j: nat)
        requires
            j <= k,
            self.up(x, k) is Some,
        ensures
            self.up(x, j) is Some,
    {
        self.lemma_up_add(x, j, (k - j) as nat);
    }

    /// Every node on the parent chain of a valid node is valid.
    pub proof fn lemma_up_valid(self, x: u32, k: nat)
        requires
            self.consistent(),
            self.valid(x),
            self.up(x, k) is Some,
        ensures
            self.valid(self.up(x, k)->0),
        decreases k,
    {
        if k > 0 {
            let p = self.parents[x as int]->0;
            self.lemma_up_valid(p, (k - 1) as nat);
        }
    }

    /// The nodes of the parent chain of a node of depth `d` are all distinct.
    pub proof fn lemma_chain_distinct(self, x: u32, d: nat, i: nat, j: nat)
        requires
            self.depth_is(x, d),
            i < j <= d,
        ensures
            self.up(x, i) != self.up(x, j),
    {
        if self.up(x, i) == self.up(x, j) {
            let p = (j - i) as nat;
            let m = (d + 1 - p) as nat;
            // up(x, m + p) == up(up(x, m - i + i) ...): the chain repeats with period p from i on.
            self.lemma_up_add(x, i, (m - i) as nat);
            self.lemma_up_add(x, j, (m - i) as nat);
            assert(i + (m - i) as nat == m);
            assert(j + (m - i) as nat == d + 1);
            self.lemma_up_add(x, d, 1);
            self.lemma_up_some_below(x, d, m);
        }
    }

    /// A node of depth `d` in a tree of `n` nodes has `d < n`.
    pub proof fn lemma_depth_bound(self, x: u32, d: nat)
        requires
            self.consistent(),
            self.valid(x),
            self.depth_is(x, d),
        ensures
            d < self.len(),
    {
        let f = |k: int| self.up(x, k as nat)->0 as int;
        let dom = vstd::set_lib::set_int_range(0, (d + 1) as int);
        let img = dom.map(f);
        vstd::set_lib::lemma_int_range(0, (d + 1) as int);
        assert(vstd::relations::injective_on(f, dom)) by {
            assert forall|a: int, b: int|
                dom.contains(a) && dom.contains(b) && #[trigger] f(a) == #[trigger] f(b) implies a
                == b by {
                if a != b {
                    self.lemma_up_some_below(x, d, a as nat);
                    self.lemma_up_some_below(x, d, b as nat);
                    if a < b {
                        self.lemma_chain_distinct(x, d, a as nat, b as nat);
                    } else {
                        self.lemma_chain_distinct(x, d, b as nat, a as nat);
                    }
                }
            }
        }
        vstd::set_lib::lemma_map_size(dom, img, f);
        let all = vstd::set_lib::set_int_range(0, self.len() as int);
        vstd::set_lib::lemma_int_range(0, self.len() as int);
        assert(img.subset_of(all)) by {
            assert forall|v: int| img.contains(v) implies all.contains(v) by {
                let k = choose|k: int| dom.contains(k) && f(k) == v;
                self.lemma_up_some_below(x, d, k as nat);
                self.lemma_up_valid(x, k as nat);
            }
        }
        vstd::set_lib::lemma_len_subset(img, all);
    }

    /// The depth of a node is unique.
    pub proof fn lemma_depth_unique(self, x: u32, d: nat, e: nat)
        requires
            self.depth_is(x, d),
            self.depth_is(x, e),
        ensures
            d == e,
    {
        if d < e {
            self.lemma_up_add(x, d, (e - d) as nat);
        } else if e < d {
            self.lemma_up_add(x, e, (d - e) as nat);
        }
    }

    /// A child of a node of depth `d` has depth `d + 1`, and `d + 1` is below the number of nodes.
    pub proof fn lemma_child_depth(self, x: u32, d: nat, c: u32)
        requires
            self.consistent(),
            self.valid(x),
            self.valid(c),
            self.depth_is(x, d),
            self.parents[c as int] == Some(x),
        ensures
            self.depth_is(c, d + 1),
            d + 1 < self.len(),
    {
        assert(self.up(c, d + 1) == self.up(x, d));
        self.lemma_depth_bound(c, d + 1);
    }

    /// The parent of a node of depth `d > 0` has depth `d - 1`.
    pub proof fn lemma_parent_depth(self, x: u32, d: nat)
        requires
            self.depth_is(x, d),
            self.parents[x as int] is Some,
        ensures
            d > 0,
            self.depth_is(self.parents[x as int]->0, (d - 1) as nat),
    {
    }
}


impl DomTree {
    /// The nodes of the subtree at `x` in document order (`x` first, then the subtrees
    /// of its children in order), descending at most `fuel` levels.
    pub open spec fn preorder(self, x: u32, fuel: nat) -> Seq<u32>
        decreases fuel, 0nat, 0int,
    {
        if fuel == 0 {
            Seq::empty()
        } else {
            seq![x] + self.preorder_kids(x, self.kids[x as int].len() as int, (fuel - 1) as nat)
        }
    }

    /// The subtrees of the first `i` children of `x`, one after another.
    pub open spec fn preorder_kids(self, x: u32, i: int, fuel: nat) -> Seq<u32>
        decreases fuel, 1nat, i,
    {
        if i <= 0 {
            Seq::empty()
        } else {
            self.preorder_kids(x, i - 1, fuel) + self.preorder(self.kids[x as int][i - 1], fuel)
        }
    }

    /// The document order of the tree whose top is `x`: enough fuel for any node.
    pub open spec fn subtree(self, x: u32) -> Seq<u32> {
        self.preorder(x, self.len())
    }
}


impl DomTree {
    /// Walking up `k` steps from a node of depth `d` stays in the tree only for `k <= d`,
    /// and reaches a node of depth `d - k`.
    pub proof fn lemma_up_depth(self, x: u32, d: nat, k: nat)
        requires
            self.depth_is(x, d),
            self.up(x, k) is Some,
        ensures
            k <= d,
            self.depth_is(self.up(x, k)->0, (d - k) as nat),
    {
        if k > d {
            self.lemma_up_add(x, d, (k - d) as nat);
            let top = self.up(x, d)->0;
            assert(self.up(top, (k - d) as nat) is None);
        } else {
            self.lemma_up_add(x, k, (d - k) as nat);
        }
    }

    /// Once the walk up has left the tree it stays out.
    pub proof fn lemma_up_none_after(self, x: u32, k: nat, j: nat)
        requires
            self.up(x, k) is None,
            k <= j,
        ensures
            self.up(x, j) is None,
    {
        if self.up(x, j) is Some {
            self.lemma_up_some_below(x, j, k);
        }
    }
}


impl DomTree {
    /// One step up is the parent.
    pub proof fn lemma_up_one(self, x: u32)
        ensures
            self.up(x, 1) == self.parents[x as int],
    {
        reveal_with_fuel(DomTree::up, 2);
    }
}


impl DomTree {
    /// The tree after all children of `node` are detached from it (they keep their own subtrees).
    pub open spec fn cleared(self, node: u32) -> DomTree {
        self.cleared_first(node, self.kids[node as int].len() as int)
    }

    /// The tree after the first `k` children of `node` are detached from it.
    pub open spec fn cleared_first(self, node: u32, k: int) -> DomTree {
        DomTree {
            kinds: self.kinds,
            parents: Seq::new(
                self.parents.len(),
                |x: int|
                    if self.kids[node as int].take(k).contains(x as u32) {
                        None
                    } else {
                        self.parents[x]
                    },
            ),
            kids: self.kids.update(node as int, self.kids[node as int].skip(k)),
        }
    }
}


impl DomTree {
    /// Removing a node keeps parents and child lists in agreement.
    pub proof fn lemma_detach_consistent(self, node: u32)
        requires
            self.consistent(),
            self.valid(node),
            self.len() <= u32::MAX as nat + 1,
        ensures
            self.detach(node).consistent(),
    {
        if let Some(p) = self.parents[node as int] {
            let k = self.kids[p as int];
            assert(k.contains(node));
            let i = k.index_of(node);
            let r = k.remove(i);
            assert(k[i] == node);
            let t = self.detach(node);
            assert(k.no_duplicates());
            assert forall|j: int| 0 <= j < r.len() implies r[j] != node && (#[trigger] r[j]) == (
            if j < i {
                k[j]
            } else {
                k[j + 1]
            }) by {
                if j >= i {
                    assert(k[j + 1] != k[i]);
                } else {
                    assert(k[j] != k[i]);
                }
            }
            assert(r.no_duplicates()) by {
                assert forall|a: int, b: int| 0 <= a < r.len() && 0 <= b < r.len() && a != b implies r[a]
                    != r[b] by {
                    let a2 = if a < i {
                        a
                    } else {
                        a + 1
                    };
                    let b2 = if b < i {
                        b
                    } else {
                        b + 1
                    };
                    assert(k[a2] != k[b2]);
                }
            }
            assert forall|q: int, j: int| 0 <= q < t.len() && 0 <= j < t.kids[q].len() implies {
                &&& (#[trigger] t.kids[q][j]) < t.len()
                &&& t.parents[t.kids[q][j] as int] == Some(q as u32)
            } by {
                if q == p as int {
                    let j2 = if j < i {
                        j
                    } else {
                        j + 1
                    };
                    assert(t.kids[q][j] == r[j]);
                    assert(r[j] == k[j2]);
                    assert(r[j] != node);
                    assert(self.parents[k[j2] as int] == Some(p));
                } else {
                    if self.kids[q][j] == node {
                        assert(self.parents[node as int] == Some(q as u32));
                    }
                }
            }
            assert forall|x: int| 0 <= x < t.len() && (#[trigger] t.parents[x]) is Some implies {
                &&& t.parents[x]->0 < t.len()
                &&& t.kids[t.parents[x]->0 as int].contains(x as u32)
            } by {
                assert(x != node as int);
                assert(self.parents[x] is Some);
                let q = self.parents[x]->0;
                if q == p {
                    let m = k.index_of(x as u32);
                    assert(k[m] == x as u32);
                    assert(m != i);
                    if m < i {
                        assert(r[m] == x as u32);
                    } else {
                        assert(r[m - 1] == x as u32);
                    }
                }
            }
        }
    }

    /// Every node in the document order from `x` has `x` on its parent chain.
    pub proof fn lemma_preorder_ancestor(self, x: u32, fuel: nat, y: u32)
        requires
            self.consistent(),
            self.valid(x),
            self.preorder(x, fuel).contains(y),
        ensures
            self.is_inclusive_ancestor(x, y),
        decreases fuel, 0nat, 0int,
    {
        if y == x {
            assert(self.up(y, 0) == Some(x));
        } else {
            let n = self.kids[x as int].len() as int;
            let pk = self.preorder_kids(x, n, (fuel - 1) as nat);
            let pre = self.preorder(x, fuel);
            assert(pre == seq![x] + pk);
            let j = pre.index_of(y);
            assert(pre[j] == y);
            assert(j > 0);
            assert(pk[j - 1] == y);
            self.lemma_preorder_kids_ancestor(x, n, (fuel - 1) as nat, y);
        }
    }

    /// Every node in the subtrees of the first `i` children of `x` has `x` on its parent chain.
    pub proof fn lemma_preorder_kids_ancestor(self, x: u32, i: int, fuel: nat, y: u32)
        requires
            self.consistent(),
            self.valid(x),
            0 <= i <= self.kids[x as int].len(),
            self.preorder_kids(x, i, fuel).contains(y),
        ensures
            self.is_inclusive_ancestor(x, y),
        decreases fuel, 1nat, i,
    {
        if i > 0 {
            let a = self.preorder_kids(x, i - 1, fuel);
            let c = self.kids[x as int][i - 1];
            let b = self.preorder(c, fuel);
            let all = self.preorder_kids(x, i, fuel);
            assert(all == a + b);
            let j = all.index_of(y);
            if j < a.len() {
                assert(a[j] == y);
                self.lemma_preorder_kids_ancestor(x, i - 1, fuel, y);
            } else {
                assert(b[j - a.len()] == y);
                self.lemma_preorder_ancestor(c, fuel, y);
                let k = choose|k: nat| self.up(y, k) == Some(c);
                self.lemma_up_add(y, k, 1);
                self.lemma_up_one(c);
                assert(self.up(y, k + 1) == Some(x));
            }
        } else {
            assert(self.preorder_kids(x, i, fuel) =~= Seq::<u32>::empty());
        }
    }
}

impl DomTree {
    /// Appending a detached node keeps parents and child lists in agreement.
    pub proof fn lemma_append_consistent(self, parent: u32, child: u32)
        requires
            self.consistent(),
            self.len() <= u32::MAX as nat + 1,
            self.valid(parent),
            self.valid(child),
            self.parents[child as int] is None,
        ensures
            self.append(parent, child).consistent(),
    {
        let t = self.append(parent, child);
        let k = self.kids[parent as int];
        assert(!k.contains(child)) by {
            if k.contains(child) {
                let j = k.index_of(child);
                assert(self.parents[k[j] as int] == Some(parent));
            }
        }
        let k2 = k.push(child);
        assert(k2.no_duplicates()) by {
            assert forall|a: int, b: int| 0 <= a < k2.len() && 0 <= b < k2.len() && a != b implies k2[a]
                != k2[b] by {
                if a < k.len() && b < k.len() {
                    assert(k.no_duplicates());
                } else if a < k.len() {
                    assert(k2[a] == k[a]);
                } else {
                    assert(k2[b] == k[b]);
                }
            }
        }
        assert forall|q: int, j: int| 0 <= q < t.len() && 0 <= j < t.kids[q].len() implies {
            &&& (#[trigger] t.kids[q][j]) < t.len()
            &&& t.parents[t.kids[q][j] as int] == Some(q as u32)
        } by {
            if q == parent as int && j == k.len() {
                assert(t.kids[q][j] == child);
            } else {
                assert(t.kids[q][j] == self.kids[q][j]);
                assert(self.parents[self.kids[q][j] as int] == Some(q as u32));
            }
        }
        assert forall|x: int| 0 <= x < t.len() && (#[trigger] t.parents[x]) is Some implies {
            &&& t.parents[x]->0 < t.len()
            &&& t.kids[t.parents[x]->0 as int].contains(x as u32)
        } by {
            if x == child as int {
                assert(k2[k.len() as int] == child);
            } else {
                let q = self.parents[x]->0;
                if q == parent {
                    let m = k.index_of(x as u32);
                    assert(k2[m] == x as u32);
                }
            }
        }
    }

    /// Clearing the first `k + 1` children is clearing the first `k` and then detaching
    /// the next one.
    pub proof fn lemma_cleared_step(self, node: u32, k: int)
        requires
            self.consistent(),
            self.len() <= u32::MAX as nat + 1,
            self.valid(node),
            0 <= k < self.kids[node as int].len(),
        ensures
            self.cleared_first(node, k + 1) == self.cleared_first(node, k).detach(
                self.kids[node as int][k],
            ),
    {
        let ks = self.kids[node as int];
        let c = ks[k];
        let t = self.cleared_first(node, k);
        assert(ks.no_duplicates());
        assert(!ks.take(k).contains(c)) by {
            if ks.take(k).contains(c) {
                let j = ks.take(k).index_of(c);
                assert(ks[j] == c);
            }
        }
        assert(self.parents[c as int] == Some(node));
        assert(t.parents[c as int] == Some(node));
        let r = ks.skip(k);
        assert(r[0] == c);
        assert(r.index_of(c) == 0) by {
            let j = r.index_of(c);
            assert(r[j] == c);
            assert(ks[k + j] == c);
        }
        assert(r.remove(0) =~= ks.skip(k + 1));
        assert forall|x: int| 0 <= x < self.len() implies (#[trigger] ks.take(k + 1).contains(
            x as u32,
        ) <==> (ks.take(k).contains(x as u32) || x == c as int)) by {
            if ks.take(k + 1).contains(x as u32) {
                let j = ks.take(k + 1).index_of(x as u32);
                if j < k {
                    assert(ks.take(k)[j] == x as u32);
                }
            }
            if ks.take(k).contains(x as u32) {
                let j = ks.take(k).index_of(x as u32);
                assert(ks.take(k + 1)[j] == x as u32);
            }
            if x == c as int {
                assert(ks.take(k + 1)[k] == c);
            }
        }
        assert(self.cleared_first(node, k + 1).parents =~= t.detach(c).parents);
        assert(self.cleared_first(node, k + 1).kids =~= t.detach(c).kids);
    }

    /// Clearing the first `k` children of a node keeps parents and child lists in agreement.
    pub proof fn lemma_cleared_first_consistent(self, node: u32, k: int)
        requires
            self.consistent(),
            self.len() <= u32::MAX as nat + 1,
            self.valid(node),
            0 <= k <= self.kids[node as int].len(),
        ensures
            self.cleared_first(node, k).consistent(),
        decreases k,
    {
        if k == 0 {
            let ks = self.kids[node as int];
            assert(ks.skip(0) =~= ks);
            assert(ks.take(0) =~= Seq::<u32>::empty());
            assert(self.cleared_first(node, 0) =~= self);
        } else {
            self.lemma_cleared_first_consistent(node, k - 1);
            self.lemma_cleared_step(node, k - 1);
            let c = self.kids[node as int][k - 1];
            self.cleared_first(node, k - 1).lemma_detach_consistent(c);
        }
    }
}

impl DomTree {
    /// Every downward path from `x` ends within `h` levels: `x` and the nodes below it
    /// form a finite tree of height at most `h`.
    pub open spec fn bounded(self, x: u32, h: nat) -> bool
        decreases h, 0nat, 0int,
    {
        h > 0 && self.kids_bounded(x, self.kids[x as int].len() as int, (h - 1) as nat)
    }

    /// Below each of the first `i` children of `x` there are at most `h` levels.
    pub open spec fn kids_bounded(self, x: u32, i: int, h: nat) -> bool
        decreases h, 1nat, i,
    {
        i <= 0 || (self.kids_bounded(x, i - 1, h) && self.bounded(self.kids[x as int][i - 1], h))
    }

    /// The children of a node with bounded height have bounded height, one level less.
    pub proof fn lemma_kids_bounded(self, x: u32, i: int, h: nat, j: int)
        requires
            self.kids_bounded(x, i, h),
            0 <= j < i,
        ensures
            self.bounded(self.kids[x as int][j], h),
        decreases i,
    {
        if j < i - 1 {
            self.lemma_kids_bounded(x, i - 1, h, j);
        }
    }

    /// The first `i` children are bounded when each of them is.
    pub proof fn lemma_kids_bounded_intro(self, x: u32, i: int, h: nat)
        requires
            0 <= i,
            forall|j: int| 0 <= j < i ==> #[trigger] self.bounded(self.kids[x as int][j], h),
        ensures
            self.kids_bounded(x, i, h),
        decreases i,
    {
        if i > 0 {
            self.lemma_kids_bounded_intro(x, i - 1, h);
            assert(self.bounded(self.kids[x as int][i - 1], h));
        }
    }

    /// The nodes below `x` form a finite tree (no cycle of links is reachable downward).
    pub open spec fn finite_below(self, x: u32) -> bool {
        exists|h: nat| self.bounded(x, h)
    }

    /// A bound on the height of the subtree at `x` (meaningful when it is finite).
    pub open spec fn height(self, x: u32) -> nat {
        choose|h: nat| self.bounded(x, h)
    }

    /// A larger bound is a bound too.
    pub proof fn lemma_bounded_mono(self, x: u32, h: nat, g: nat)
        requires
            self.bounded(x, h),
            h <= g,
        ensures
            self.bounded(x, g),
        decreases h,
    {
        let n = self.kids[x as int].len() as int;
        assert forall|j: int| 0 <= j < n implies #[trigger] self.bounded(
            self.kids[x as int][j],
            (g - 1) as nat,
        ) by {
            self.lemma_kids_bounded(x, n, (h - 1) as nat, j);
            self.lemma_bounded_mono(self.kids[x as int][j], (h - 1) as nat, (g - 1) as nat);
        }
        self.lemma_kids_bounded_intro(x, n, (g - 1) as nat);
    }

    /// Below a node of depth `d` there are at most `len - d` levels.
    pub proof fn lemma_anchored_bounded(self, x: u32, d: nat)
        requires
            self.consistent(),
            self.valid(x),
            self.depth_is(x, d),
        ensures
            d < self.len(),
            self.bounded(x, (self.len() - d) as nat),
        decreases self.len() - d,
    {
        self.lemma_depth_bound(x, d);
        assert forall|i: int| 0 <= i < self.kids[x as int].len() implies #[trigger] self.bounded(
            self.kids[x as int][i],
            (self.len() - d - 1) as nat,
        ) by {
            let c = self.kids[x as int][i];
            self.lemma_child_depth(x, d, c);
            self.lemma_anchored_bounded(c, d + 1);
        }
        self.lemma_kids_bounded_intro(x, self.kids[x as int].len() as int, (self.len() - d - 1) as nat);
    }
}

impl DomTree {
    /// Every node's chain of parents ends: no cycle of parent links.
    pub open spec fn acyclic(self) -> bool {
        forall|x: u32| self.valid(x) ==> #[trigger] self.anchored(x)
    }

    /// The first `j` steps up from `x` are the same in another tree where the nodes met
    /// before them keep their parents.
    pub proof fn lemma_up_kept(self, t2: DomTree, x: u32, j: nat)
        requires
            forall|i: nat|
                i < j && (#[trigger] self.up(x, i)) is Some ==> t2.parents[self.up(x, i)->0 as int]
                    == self.parents[self.up(x, i)->0 as int],
        ensures
            t2.up(x, j) == self.up(x, j),
        decreases j,
    {
        if j > 0 {
            assert(self.up(x, 0) == Some(x));
            match self.parents[x as int] {
                None => {},
                Some(p) => {
                    assert forall|i: nat|
                        i < (j - 1) as nat && (#[trigger] self.up(p, i)) is Some implies t2.parents[self.up(
                        p,
                        i,
                    )->0 as int] == self.parents[self.up(p, i)->0 as int] by {
                        assert(self.up(x, i + 1) == self.up(p, i));
                    }
                    self.lemma_up_kept(t2, p, (j - 1) as nat);
                },
            }
        }
    }
}

impl DomTree {
    /// Fuel that reaches below a bounded subtree gives its whole document order: any more
    /// gives the same.
    pub proof fn lemma_preorder_fuel(self, x: u32, h: nat, f1: nat, f2: nat)
        requires
            self.bounded(x, h),
            f1 >= h,
            f2 >= h,
        ensures
            self.preorder(x, f1) == self.preorder(x, f2),
        decreases h, 0nat, 0int,
    {
        self.lemma_preorder_kids_fuel(
            x,
            self.kids[x as int].len() as int,
            (h - 1) as nat,
            (f1 - 1) as nat,
            (f2 - 1) as nat,
        );
    }

    /// Fuel that reaches below the bounded subtrees of the first `i` children of `x`
    /// gives their whole document order.
    pub proof fn lemma_preorder_kids_fuel(self, x: u32, i: int, h: nat, f1: nat, f2: nat)
        requires
            self.kids_bounded(x, i, h),
            f1 >= h,
            f2 >= h,
        ensures
            self.preorder_kids(x, i, f1) == self.preorder_kids(x, i, f2),
        decreases h, 1nat, i,
    {
        if i > 0 {
            self.lemma_preorder_kids_fuel(x, i - 1, h, f1, f2);
            self.lemma_preorder_fuel(self.kids[x as int][i - 1], h, f1, f2);
        }
    }
}

} // verus!
