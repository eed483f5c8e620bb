mod arena;
pub mod attributes;
pub mod builder;
pub mod class_list;
pub mod content;
pub mod laws;
pub mod model;
pub mod node;
pub mod selector;
pub mod serialize;
pub mod text;
pub mod tree;

use vstd::prelude::*;

pub use arena::Arena;
use model::DomTree;
use attributes::{attribute_of, with_attr, without_attr};
use class_list::{element_attrs, with_attrs, with_class, without_class};
use content::text_content;
use selector::{class_attr, group_has_descendant, select, selector_group};
use text::words;
use serialize::{inner_html, node_html};
use node::{KindView, Node, NodeKind};
pub use tree::DomError;

verus! {

/// An HTML document: an arena of nodes and the id of its root node.
pub struct Document {
    pub(crate) arena: Arena,
    pub(crate) root: u32,
}

impl View for Document {
    type V = DomTree;

    closed spec fn view(&self) -> DomTree {
        self.arena.view()
    }
}

impl Document {
    /// The id of the root node.
    pub closed spec fn spec_root(&self) -> u32 {
        self.root
    }

    /// The root is node 0, a valid node without parent, and the links are consistent.
    pub closed spec fn wf(&self) -> bool {
        &&& self.root == 0
        &&& self.arena.wf()
        &&& self@.valid(self.root)
        &&& self@.parents[self.root as int] is None
    }

    /// The meaning of the view, the root and well-formedness, for the rest of the crate.
    pub(crate) proof fn lemma_unfold(&self)
        ensures
            self@ == self.arena.view(),
            self.spec_root() == self.root,
            self.wf() == (self.root == 0 && self.arena.wf() && self@.valid(self.root)
                && self@.parents[self.root as int] is None),
    {
    }

    /// In every document, whatever calls made it, the root is node 0, exists, and has no
    /// parent.
    pub proof fn law_root_fixed(&self)
        requires
            self.wf(),
        ensures
            self.spec_root() == 0,
            self@.valid(0),
            self@.parents[0] is None,
    {
    }

    /// A well-formed document is a consistent tree whose root has no parent.
    pub proof fn lemma_wf_consistent(&self)
        requires
            self.wf(),
        ensures
            self@.consistent(),
            self@.valid(self.spec_root()),
            self@.parents[self.spec_root() as int] is None,
            self@.len() <= u32::MAX as nat + 1,
    {
        arena::lemma_wf_consistent(&self.arena);
    }

    #[verifier::when_used_as_spec(spec_root)]
    pub fn root_id(&self) -> (r: u32)
        ensures
            r == self.spec_root(),
    {
        self.root
    }

    /// A document with only its root node, whose id is 0.
    pub fn new() -> (d: Self)
        ensures
            d.wf(),
            d.spec_root() == 0,
            d@ == DomTree::empty().add_node(KindView::Document),
            d@.acyclic(),
    {
        let mut arena = Arena::new();
        let root = arena.allocate(NodeKind::Document);
        proof {
            let t = arena.view();
            assert(t =~= DomTree::empty().add_node(KindView::Document));
            assert forall|x: u32| t.valid(x) implies #[trigger] t.anchored(x) by {
                assert(x == 0);
                assert(t.up(x, 0) == Some(x));
                assert(t.depth_is(x, 0));
            }
        }
        Self { arena, root }
    }

    /// The number of nodes ever created in the document, removed ones included.
    pub fn node_count(&self) -> (n: usize)
        ensures
            n == self@.len(),
    {
        self.arena.len()
    }

    /// Allocate a new element node and return its id. The node is detached until appended.
    pub fn create_element(&mut self, tag: &str) -> (id: u32)
        requires
            old(self).wf(),
            old(self)@.len() <= u32::MAX,
        ensures
            final(self).wf(),
            final(self).spec_root() == old(self).spec_root(),
            id == old(self)@.len(),
            final(self)@ == old(self)@.add_node(KindView::Element { tag: tag@, attrs: Seq::empty() }),
            old(self)@.acyclic() ==> final(self)@.acyclic(),
    {
        let kind = NodeKind::Element { tag: String::from_str(tag), attrs: Vec::new() };
        proof {
            assert(kind@ == KindView::Element { tag: tag@, attrs: Seq::empty() }) by {
                assert(node::attrs_view(Seq::<(String, String)>::empty()) =~= Seq::empty());
            }
        }
        self.alloc_node(kind)
    }

    /// Allocate any node kind and return its id.
    pub(crate) fn alloc_node(&mut self, kind: NodeKind) -> (id: u32)
        requires
            old(self).wf(),
            old(self)@.len() <= u32::MAX,
        ensures
            final(self).wf(),
            final(self).spec_root() == old(self).spec_root(),
            id == old(self)@.len(),
            final(self)@ == old(self)@.add_node(kind@),
            old(self)@.acyclic() ==> final(self)@.acyclic(),
    {
        let ghost t0 = self@;
        let ghost k = kind@;
        proof {
            arena::lemma_wf_consistent(&self.arena);
            if t0.acyclic() {
                laws::law_add_node_keeps_acyclic(t0, k);
            }
        }
        self.arena.allocate(kind)
    }

    /// Return an immutable reference to a node by id.
    pub(crate) fn get_node(&self, id: u32) -> (r: Option<&Node>)
        ensures
            r == (if id < self.arena.spec_len() {
                Some(&self.arena.node(id))
            } else {
                None
            }),
    {
        self.arena.get(id)
    }

    /// Append `child` as the last child of `parent`. O(1).
    pub fn append_child(&mut self, parent: u32, child: u32) -> (r: Result<(), DomError>)
        requires
            old(self).wf(),
        ensures
            final(self).wf(),
            final(self).spec_root() == old(self).spec_root(),
            r == tree::append_outcome(old(self)@, parent, child, old(self).spec_root()),
            r is Ok ==> final(self)@ == old(self)@.append(parent, child),
            r is Err ==> final(self)@ == old(self)@,
            old(self)@.acyclic() && !old(self)@.is_inclusive_ancestor(child, parent)
                ==> final(self)@.acyclic(),
    {
        let ghost t0 = self@;
        proof {
            arena::lemma_wf_consistent(&self.arena);
        }
        let r = tree::append_child(&mut self.arena, parent, child, self.root);
        proof {
            assert(self@.parents[self.root as int] is None);
            if r is Ok && t0.acyclic() && !t0.is_inclusive_ancestor(child, parent) {
                laws::law_append_keeps_acyclic(t0, parent, child);
            }
        }
        r
    }

    /// Detach `node` from its parent and siblings. O(1).
    ///
    /// If `node` is valid but has no parent (already detached), returns `Ok(())` unchanged.
    /// Only `node` is unlinked from its own parent; its children remain attached to it.
    pub fn remove(&mut self, node: u32) -> (r: Result<(), DomError>)
        requires
            old(self).wf(),
        ensures
            final(self).wf(),
            final(self).spec_root() == old(self).spec_root(),
            r == tree::remove_outcome(old(self)@, node, old(self).spec_root()),
            r is Ok ==> final(self)@ == old(self)@.detach(node),
            r is Err ==> final(self)@ == old(self)@,
            old(self)@.acyclic() ==> final(self)@.acyclic(),
    {
        let ghost t0 = self@;
        proof {
            arena::lemma_wf_consistent(&self.arena);
        }
        let r = tree::remove_node(&mut self.arena, node, self.root);
        proof {
            if r is Ok && t0.acyclic() {
                laws::law_remove_keeps_acyclic(t0, node);
            }
        }
        r
    }

    /// Return the ordered list of direct children of `node`.
    ///
    /// Returns `None` if `node` does not exist in the arena.
    pub fn children(&self, node: u32) -> (r: Option<Vec<u32>>)
        requires
            self.wf(),
        ensures
            r matches Some(v) ==> self@.valid(node) && v@ == self@.kids[node as int],
            r is None ==> !self@.valid(node),
    {
        tree::children(&self.arena, node)
    }

    /// Return the parent of `node`, or `None` if the node is detached, is the root, or does not
    /// exist in the arena.
    pub fn parent(&self, node: u32) -> (r: Option<u32>)
        ensures
            r == (if self@.valid(node) {
                self@.parents[node as int]
            } else {
                None
            }),
    {
        tree::parent_of(&self.arena, node)
    }

    /// Serialize the document to an HTML string.
    pub fn serialize(&self) -> (r: String)
        requires
            self.wf(),
        ensures
            r@ == node_html(self@, self.spec_root(), self@.len()),
    {
        serialize::serialize_document(&self.arena, self.root)
    }

    /// Return all elements matching `selector`, in document order.
    pub fn query_selector_all(&self, selector: &str) -> (r: Vec<u32>)
        requires
            self.wf(),
        ensures
            r@ == select(self@, selector_group(selector@), self@.subtree(self.spec_root())),
    {
        proof {
            let t = self@;
            arena::lemma_wf_consistent(&self.arena);
            assert(t.depth_is(self.root, 0));
            t.lemma_anchored_bounded(self.root, 0);
            let h = t.height(self.root);
            assert(t.bounded(self.root, h));
            if h <= t.len() {
                t.lemma_preorder_fuel(self.root, h, h, t.len());
            } else {
                t.lemma_preorder_fuel(self.root, t.len(), h, t.len());
            }
        }
        selector::query_all(&self.arena, self.root, selector)
    }

    /// Return the first element, in document order, matching `selector`.
    pub fn query_selector(&self, selector: &str) -> (r: Option<u32>)
        requires
            self.wf(),
        ensures
            ({
                let all = select(self@, selector_group(selector@), self@.subtree(self.spec_root()));
                r == (if all.len() > 0 {
                    Some(all[0])
                } else {
                    None
                })
            }),
    {
        let all = self.query_selector_all(selector);
        if all.len() > 0 {
            Some(all[0])
        } else {
            None
        }
    }

    /// Whether `node` is a valid node whose chain of parents ends at a node without parent.
    /// Matching a selector walks up that chain.
    pub fn is_anchored(&self, node: u32) -> (r: bool)
        requires
            self.wf(),
        ensures
            r == (self@.valid(node) && self@.anchored(node)),
    {
        let n = self.arena.len();
        if node as usize >= n {
            return false;
        }
        let ghost t = self@;
        proof {
            arena::lemma_wf_consistent(&self.arena);
        }
        let mut cur = node;
        let mut steps: usize = 0;
        while steps < n
            invariant
                t == self@,
                t.consistent(),
                n == t.len(),
                t.valid(node),
                steps <= n,
                t.up(node, steps as nat) == Some(cur),
                t.valid(cur),
                forall|j: nat| j < steps ==> !t.depth_is(node, j),
            decreases n - steps,
        {
            match tree::parent_of(&self.arena, cur) {
                None => {
                    proof {
                        assert(t.depth_is(node, steps as nat));
                    }
                    return true;
                },
                Some(p) => {
                    proof {
                        t.lemma_up_add(node, steps as nat, 1);
                        t.lemma_up_one(cur);
                        assert(!t.depth_is(node, steps as nat));
                    }
                    cur = p;
                    steps = steps + 1;
                },
            }
        }
        proof {
            if t.anchored(node) {
                let d = choose|d: nat| t.depth_is(node, d);
                t.lemma_depth_bound(node, d);
            }
        }
        false
    }

    /// Return all elements matching `selector` in the subtree of `node` (`node` included),
    /// in document order; `None` for unknown ids. The subtree must be finite; when the
    /// selector has a descendant combinator, matching walks up from each node, so the
    /// chain of parents of `node` must end too.
    pub fn query_selector_all_in(&self, node: u32, selector: &str) -> (r: Option<Vec<u32>>)
        requires
            self.wf(),
            self@.valid(node) ==> self@.finite_below(node),
            self@.valid(node) && group_has_descendant(selector_group(selector@))
                ==> self@.anchored(node),
        ensures
            r is None <==> !self@.valid(node),
            r matches Some(v) ==> v@ == select(
                self@,
                selector_group(selector@),
                self@.preorder(node, self@.height(node)),
            ),
    {
        if node as usize >= self.arena.len() {
            return None;
        }
        Some(selector::query_all(&self.arena, node, selector))
    }

    /// Whether `node` is a valid node below which every downward path ends within `h`
    /// levels. Subtree walks (text content, inner HTML) need such a bound: a node that
    /// was appended under its own descendant leaves a cycle of links below it.
    pub fn subtree_within(&self, node: u32, h: usize) -> (r: bool)
        requires
            self.wf(),
        ensures
            r == (self@.valid(node) && self@.bounded(node, h as nat)),
    {
        if node as usize >= self.arena.len() {
            return false;
        }
        content::bounded_within(&self.arena, node, h)
    }

    /// Return the serialized HTML of the children of `node`, or `None` for unknown ids.
    pub fn get_inner_html(&self, node: u32) -> (r: Option<String>)
        requires
            self.wf(),
            self@.valid(node) ==> self@.finite_below(node),
        ensures
            r is None <==> !self@.valid(node),
            r matches Some(h) ==> h@ == inner_html(self@, node),
    {
        serialize::serialize_inner_html(&self.arena, node)
    }

    /// Allocate a detached text node and return its id.
    pub fn create_text_node(&mut self, text: &str) -> (id: u32)
        requires
            old(self).wf(),
            old(self)@.len() <= u32::MAX,
        ensures
            final(self).wf(),
            final(self).spec_root() == old(self).spec_root(),
            id == old(self)@.len(),
            final(self)@ == old(self)@.add_node(KindView::Text { data: text@ }),
            old(self)@.acyclic() ==> final(self)@.acyclic(),
    {
        self.alloc_node(NodeKind::Text { data: String::from_str(text) })
    }

    /// Get an attribute value; `None` if the node, or the attribute, is absent, or the
    /// node is not an element.
    pub fn get_attribute(&self, node: u32, name: &str) -> (r: Option<String>)
        ensures
            match r {
                Some(v) => attribute_of(self@, node, name@) == Some(v@),
                None => attribute_of(self@, node, name@) is None,
            },
    {
        attributes::get_attribute(&self.arena, node, name)
    }

    /// Set an attribute on an element node, creating it if absent.
    pub fn set_attribute(&mut self, node: u32, name: &str, value: &str) -> (r: Result<(), DomError>)
        requires
            old(self).wf(),
        ensures
            final(self).wf(),
            final(self).spec_root() == old(self).spec_root(),
            match element_attrs(old(self)@, node) {
                Err(e) => r == Err::<(), DomError>(e) && final(self)@ == old(self)@,
                Ok(attrs) => r is Ok && final(self)@ == old(self)@.set_kind(
                    node,
                    with_attrs(old(self)@.kinds[node as int], with_attr(attrs, name@, value@)),
                ),
            },
    {
        attributes::set_attribute(&mut self.arena, node, name, value)
    }

    /// Remove an attribute from an element node (every attribute of that name).
    /// No-op if the attribute is absent.
    pub fn remove_attribute(&mut self, node: u32, name: &str) -> (r: Result<(), DomError>)
        requires
            old(self).wf(),
        ensures
            final(self).wf(),
            final(self).spec_root() == old(self).spec_root(),
            match element_attrs(old(self)@, node) {
                Err(e) => r == Err::<(), DomError>(e) && final(self)@ == old(self)@,
                Ok(attrs) => r is Ok && final(self)@ == old(self)@.set_kind(
                    node,
                    with_attrs(old(self)@.kinds[node as int], without_attr(attrs, name@)),
                ),
            },
    {
        attributes::remove_attribute(&mut self.arena, node, name)
    }

    /// Add a CSS class token to `node`'s `class` attribute.
    pub fn class_list_add(&mut self, node: u32, class: &str) -> (r: Result<(), DomError>)
        requires
            old(self).wf(),
        ensures
            final(self).wf(),
            final(self).spec_root() == old(self).spec_root(),
            match element_attrs(old(self)@, node) {
                Err(e) => r == Err::<(), DomError>(e) && final(self)@ == old(self)@,
                Ok(attrs) => r is Ok && final(self)@ == old(self)@.set_kind(
                    node,
                    with_attrs(old(self)@.kinds[node as int], with_class(attrs, class@)),
                ),
            },
    {
        class_list::class_list_add(&mut self.arena, node, class)
    }

    /// Remove a CSS class token from `node`'s `class` attribute.
    pub fn class_list_remove(&mut self, node: u32, class: &str) -> (r: Result<(), DomError>)
        requires
            old(self).wf(),
        ensures
            final(self).wf(),
            final(self).spec_root() == old(self).spec_root(),
            match element_attrs(old(self)@, node) {
                Err(e) => r == Err::<(), DomError>(e) && final(self)@ == old(self)@,
                Ok(attrs) => r is Ok && final(self)@ == old(self)@.set_kind(
                    node,
                    with_attrs(old(self)@.kinds[node as int], without_class(attrs, class@)),
                ),
            },
    {
        class_list::class_list_remove(&mut self.arena, node, class)
    }

    /// Return `true` if `node`'s `class` attribute contains the given token.
    pub fn class_list_contains(&self, node: u32, class: &str) -> (r: Result<bool, DomError>)
        ensures
            r == (match element_attrs(self@, node) {
                Err(e) => Err(e),
                Ok(attrs) => Ok(words(class_attr(attrs)).contains(class@)),
            }),
    {
        class_list::class_list_contains(&self.arena, node, class)
    }

    /// Return the concatenated text of all text nodes in the subtree of `node`, or `None`
    /// for unknown ids.
    pub fn get_text_content(&self, node: u32) -> (r: Option<String>)
        requires
            self.wf(),
            self@.valid(node) ==> self@.finite_below(node),
        ensures
            r is None <==> !self@.valid(node),
            r matches Some(s) ==> s@ == text_content(self@, node),
    {
        content::get_text_content(&self.arena, node)
    }

    /// Replace all children of the element `node` with a single text node.
    pub fn set_text_content(&mut self, node: u32, text: &str) -> (r: Result<(), DomError>)
        requires
            old(self).wf(),
            old(self)@.len() <= u32::MAX,
        ensures
            final(self).wf(),
            final(self).spec_root() == old(self).spec_root(),
            match element_attrs(old(self)@, node) {
                Err(e) => r == Err::<(), DomError>(e) && final(self)@ == old(self)@,
                Ok(_) => r is Ok && final(self)@ == old(self)@.cleared(node).add_node(
                    KindView::Text { data: text@ },
                ).append(node, old(self)@.len() as u32),
            },
    {
        match self.arena.get(node) {
            None => return Err(DomError::InvalidNode(node)),
            Some(n) => match &n.kind {
                NodeKind::Element { .. } => {},
                _ => return Err(DomError::NotAnElement(node)),
            },
        }
        builder::remove_all_children(&mut self.arena, node, self.root);
        let id = self.alloc_node(NodeKind::Text { data: String::from_str(text) });
        let r = tree::append_child(&mut self.arena, node, id, self.root);
        proof {
            assert(r is Ok);
        }
        Ok(())
    }
}

impl Default for Document {
    /// The document with only its root node.
    fn default() -> (d: Self)
        ensures
            d.wf(),
            d.spec_root() == 0,
            d@ == DomTree::empty().add_node(KindView::Document),
    {
        Self::new()
    }
}

} // verus!
