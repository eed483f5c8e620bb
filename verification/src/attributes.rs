use vstd::prelude::*;

use crate::arena::Arena;
use crate::class_list::{element_attrs, with_attrs};
use crate::model::DomTree;
use crate::node::{attr_lookup, attr_pos, attrs_view, find_attr, lemma_attr_pos, KindView, NodeKind};
use crate::tree::DomError;

verus! {

/// The attributes after `name` is set to `value`: the first attribute of that name
/// takes the value, or a new attribute is added at the end.
pub open spec fn with_attr(attrs: Seq<(Seq<char>, Seq<char>)>, name: Seq<char>, value: Seq<char>) -> Seq<
    (Seq<char>, Seq<char>),
> {
    match attr_pos(attrs, name) {
        Some(i) => attrs.update(i, (name, value)),
        None => attrs.push((name, value)),
    }
}

/// The attributes other than those named `name`, in order.
pub open spec fn without_attr(attrs: Seq<(Seq<char>, Seq<char>)>, name: Seq<char>) -> Seq<
    (Seq<char>, Seq<char>),
>
    decreases attrs.len(),
{
    if attrs.len() == 0 {
        Seq::empty()
    } else {
        without_attr(attrs.drop_last(), name) + if attrs.last().0 != name {
            seq![attrs.last()]
        } else {
            Seq::empty()
        }
    }
}

/// The value of the attribute `name` of an element; `None` for other nodes, for
/// unknown ids and for absent attributes.
pub open spec fn attribute_of(t: DomTree, node: u32, name: Seq<char>) -> Option<Seq<char>> {
    match element_attrs(t, node) {
        Ok(attrs) => attr_lookup(attrs, name),
        Err(_) => None,
    }
}

pub(crate) fn get_attribute(arena: &Arena, node: u32, name: &str) -> (r: Option<String>)
    ensures
        match r {
            Some(v) => attribute_of(arena.view(), node, name@) == Some(v@),
            None => attribute_of(arena.view(), node, name@) is None,
        },
{
    let n = match arena.get(node) {
        Some(n) => n,
        None => return None,
    };
    match &n.kind {
        NodeKind::Element { attrs, .. } => {
            let key = String::from_str(name);
            proof {
                lemma_attr_pos(attrs_view(attrs@), name@);
            }
            match find_attr(attrs, &key) {
                Some(i) => Some(attrs[i].1.clone()),
                None => None,
            }
        },
        _ => None,
    }
}

pub(crate) fn set_attribute(arena: &mut Arena, node: u32, name: &str, value: &str) -> (r: Result<
    (),
    DomError,
>)
    requires
        old(arena).wf(),
    ensures
        final(arena).wf(),
        match element_attrs(old(arena).view(), node) {
            Err(e) => r == Err::<(), DomError>(e) && final(arena).view() == old(arena).view(),
            Ok(attrs) => r is Ok && final(arena).view() == old(arena).view().set_kind(
                node,
                with_attrs(old(arena).view().kinds[node as int], with_attr(attrs, name@, value@)),
            ),
        },
{
    if node as usize >= arena.len() {
        return Err(DomError::InvalidNode(node));
    }
    let kind = arena.replace_kind(node, NodeKind::Document);
    match kind {
        NodeKind::Element { tag, mut attrs } => {
            let ghost av = attrs_view(attrs@);
            let key = String::from_str(name);
            proof {
                lemma_attr_pos(av, name@);
            }
            match find_attr(&attrs, &key) {
                Some(i) => {
                    attrs.set(i, (key, String::from_str(value)));
                },
                None => {
                    attrs.push((key, String::from_str(value)));
                },
            }
            proof {
                assert(attrs_view(attrs@) =~= with_attr(av, name@, value@));
            }
            arena.replace_kind(node, NodeKind::Element { tag, attrs });
            proof {
                assert(arena.view() =~= old(arena).view().set_kind(
                    node,
                    with_attrs(old(arena).view().kinds[node as int], with_attr(av, name@, value@)),
                ));
            }
            Ok(())
        },
        other => {
            arena.replace_kind(node, other);
            proof {
                assert(arena.view() =~= old(arena).view());
            }
            Err(DomError::NotAnElement(node))
        },
    }
}

pub(crate) fn remove_attribute(arena: &mut Arena, node: u32, name: &str) -> (r: Result<
    (),
    DomError,
>)
    requires
        old(arena).wf(),
    ensures
        final(arena).wf(),
        match element_attrs(old(arena).view(), node) {
            Err(e) => r == Err::<(), DomError>(e) && final(arena).view() == old(arena).view(),
            Ok(attrs) => r is Ok && final(arena).view() == old(arena).view().set_kind(
                node,
                with_attrs(old(arena).view().kinds[node as int], without_attr(attrs, name@)),
            ),
        },
{
    if node as usize >= arena.len() {
        return Err(DomError::InvalidNode(node));
    }
    let kind = arena.replace_kind(node, NodeKind::Document);
    match kind {
        NodeKind::Element { tag, attrs } => {
            let ghost av = attrs_view(attrs@);
            let key = String::from_str(name);
            let mut kept: Vec<(String, String)> = Vec::new();
            let mut attrs = attrs;
            let mut i: usize = 0;
            let n = attrs.len();
            let ghost orig = attrs@;
            // Move each pair out of the old list, keeping the ones with another name.
            while i < n
                invariant
                    0 <= i <= n,
                    n == orig.len(),
                    av == attrs_view(orig),
                    attrs@.len() == n,
                    forall|j: int| i <= j < n ==> attrs@[j] == orig[j],
                    attrs_view(kept@) == without_attr(av.take(i as int), name@),
                    key@ == name@,
                decreases n - i,
            {
                let mut pair = (String::new(), String::new());
                attrs.set_and_swap(i, &mut pair);
                proof {
                    assert(pair == orig[i as int]);
                    assert(av.take(i + 1).drop_last() =~= av.take(i as int));
                    assert(av.take(i + 1).last() == (pair.0@, pair.1@));
                }
                if !(pair.0 == key) {
                    let ghost before = kept@;
                    kept.push(pair);
                    proof {
                        assert(attrs_view(kept@) =~= attrs_view(before).push(
                            (kept@.last().0@, kept@.last().1@),
                        ));
                        assert(without_attr(av.take(i + 1), name@) =~= without_attr(
                            av.take(i as int),
                            name@,
                        ).push(av.take(i + 1).last()));
                    }
                } else {
                    proof {
                        assert(without_attr(av.take(i + 1), name@) =~= without_attr(
                            av.take(i as int),
                            name@,
                        ));
                    }
                }
                i = i + 1;
            }
            proof {
                assert(av.take(n as int) =~= av);
            }
            arena.replace_kind(node, NodeKind::Element { tag, attrs: kept });
            proof {
                assert(arena.view() =~= old(arena).view().set_kind(
                    node,
                    with_attrs(old(arena).view().kinds[node as int], without_attr(av, name@)),
                ));
            }
            Ok(())
        },
        other => {
            arena.replace_kind(node, other);
            proof {
                assert(arena.view() =~= old(arena).view());
            }
            Err(DomError::NotAnElement(node))
        },
    }
}

} // verus!
