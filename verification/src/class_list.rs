use vstd::prelude::*;

use crate::arena::Arena;
use crate::model::DomTree;
use crate::node::{attrs_view, find_attr, lemma_attr_pos, attr_pos, KindView, NodeKind};
use crate::selector::{class_attr, class_key};
use crate::text::{
    chars_eq, join, push_char, push_chars, push_str, split_words, str_chars, words, words_contain,
};
use crate::tree::DomError;

verus! {

/// The attributes of `node` when it is an element; the error that the class list
/// operations answer otherwise.
pub open spec fn element_attrs(t: DomTree, node: u32) -> Result<
    Seq<(Seq<char>, Seq<char>)>,
    DomError,
> {
    if !t.valid(node) {
        Err(DomError::InvalidNode(node))
    } else {
        match t.kinds[node as int] {
            KindView::Element { attrs, .. } => Ok(attrs),
            _ => Err(DomError::NotAnElement(node)),
        }
    }
}

/// The same kind with other attributes (for an element).
pub open spec fn with_attrs(k: KindView, attrs: Seq<(Seq<char>, Seq<char>)>) -> KindView {
    match k {
        KindView::Element { tag, .. } => KindView::Element { tag, attrs },
        _ => k,
    }
}

/// The attributes after `cls` is added to the class list: appended to the first
/// `class` attribute (after a blank when it is not empty) unless it is already one of
/// its words, or a new `class` attribute when there is none.
pub open spec fn with_class(attrs: Seq<(Seq<char>, Seq<char>)>, cls: Seq<char>) -> Seq<
    (Seq<char>, Seq<char>),
> {
    match attr_pos(attrs, class_key()) {
        Some(i) => {
            let v = attrs[i].1;
            if words(v).contains(cls) {
                attrs
            } else {
                attrs.update(i, (attrs[i].0, v + (if v.len() > 0 {
                    seq![' ']
                } else {
                    Seq::empty()
                }) + cls))
            }
        },
        None => attrs.push((class_key(), cls)),
    }
}

/// The words of a list other than `cls`, in order.
pub open spec fn without_word(ws: Seq<Seq<char>>, cls: Seq<char>) -> Seq<Seq<char>>
    decreases ws.len(),
{
    if ws.len() == 0 {
        Seq::empty()
    } else {
        without_word(ws.drop_last(), cls) + if ws.last() != cls {
            seq![ws.last()]
        } else {
            Seq::empty()
        }
    }
}

/// The attributes after `cls` is removed from the class list: when it is one of the
/// words of the first `class` attribute, that attribute becomes its other words joined
/// by single blanks; otherwise nothing changes.
pub open spec fn without_class(attrs: Seq<(Seq<char>, Seq<char>)>, cls: Seq<char>) -> Seq<
    (Seq<char>, Seq<char>),
> {
    match attr_pos(attrs, class_key()) {
        Some(i) => if words(attrs[i].1).contains(cls) {
            attrs.update(i, (attrs[i].0, join(without_word(words(attrs[i].1), cls), " "@)))
        } else {
            attrs
        },
        None => attrs,
    }
}

/// Whether `node` is an element whose `class` attribute has `cls` among its words.
pub open spec fn class_list_has(t: DomTree, node: u32, cls: Seq<char>) -> bool {
    match element_attrs(t, node) {
        Ok(attrs) => words(class_attr(attrs)).contains(cls),
        Err(_) => false,
    }
}

fn key_class() -> (s: String)
    ensures
        s@ == class_key(),
{
    String::from_str("class")
}

/// Add `class` to the element's `class` attribute if not already present.
pub(crate) fn class_list_add(arena: &mut Arena, node: u32, class: &str) -> (r: Result<
    (),
    DomError,
>)
    requires
        old(arena).wf(),
    ensures
        final(arena).wf(),
        match element_attrs(old(arena).view(), node) {
            Err(e) => r == Err::<(), DomError>(e) && final(arena).view() == old(arena).view(),
            Ok(attrs) => r is Ok && final(arena).view() == old(arena).view().set_kind(
                node,
                with_attrs(old(arena).view().kinds[node as int], with_class(attrs, class@)),
            ),
        },
{
    if node as usize >= arena.len() {
        return Err(DomError::InvalidNode(node));
    }
    let kind = arena.replace_kind(node, NodeKind::Document);
    match kind {
        NodeKind::Element { tag, mut attrs } => {
            let ghost av = attrs_view(attrs@);
            let key = key_class();
            proof {
                lemma_attr_pos(av, class_key());
            }
            match find_attr(&attrs, &key) {
                Some(i) => {
                    let v = attrs[i].1.clone();
                    let vc = str_chars(v.as_str());
                    let cc = str_chars(class);
                    if !words_contain(vc.as_slice(), cc.as_slice()) {
                        let k = attrs[i].0.clone();
                        let mut nv = v;
                        let ghost v0 = nv@;
                        if vc.len() > 0 {
                            push_char(&mut nv, ' ');
                        }
                        let ghost sep: Seq<char> = if v0.len() > 0 {
                            seq![' ']
                        } else {
                            Seq::empty()
                        };
                        proof {
                            assert(nv@ =~= v0 + sep);
                        }
                        push_str(&mut nv, class);
                        let ghost nvv = nv@;
                        let ghost kv = k@;
                        proof {
                            assert(v0 == av[i as int].1);
                            assert(kv == av[i as int].0);
                            assert(nvv == v0 + sep + class@);
                        }
                        attrs.set(i, (k, nv));
                        proof {
                            assert(attrs_view(attrs@) =~= av.update(i as int, (kv, nvv)));
                            assert(attrs_view(attrs@) =~= with_class(av, class@));
                        }
                    }
                },
                None => {
                    attrs.push((key, String::from_str(class)));
                    proof {
                        assert(attrs_view(attrs@) =~= with_class(av, class@));
                    }
                },
            }
            arena.replace_kind(node, NodeKind::Element { tag, attrs });
            proof {
                assert(arena.view() =~= old(arena).view().set_kind(
                    node,
                    with_attrs(old(arena).view().kinds[node as int], with_class(av, class@)),
                ));
            }
            Ok(())
        },
        other => {
            arena.replace_kind(node, other);
            proof {
                assert(arena.view() =~= old(arena).view());
            }
            Err(DomError::NotAnElement(node))
        },
    }
}


/// The words of `ws` other than `cls`, joined by single blanks.
fn join_without(ws: &Vec<Vec<char>>, cls: &[char]) -> (r: String)
    ensures
        r@ == join(without_word(ws@.map_values(|w: Vec<char>| w@), cls@), " "@),
{
    let ghost wv = ws@.map_values(|w: Vec<char>| w@);
    let mut out = String::new();
    let mut first = true;
    let mut j: usize = 0;
    proof {
        reveal_strlit(" ");
        assert(wv.take(0) =~= Seq::<Seq<char>>::empty());
    }
    while j < ws.len()
        invariant
            0 <= j <= ws@.len(),
            wv == ws@.map_values(|w: Vec<char>| w@),
            out@ == join(without_word(wv.take(j as int), cls@), " "@),
            first == (without_word(wv.take(j as int), cls@).len() == 0),
            " "@ == seq![' '],
        decreases ws@.len() - j,
    {
        let w = &ws[j];
        let ghost prev = without_word(wv.take(j as int), cls@);
        proof {
            assert(wv.take(j + 1).drop_last() =~= wv.take(j as int));
            assert(wv.take(j + 1).last() == w@);
        }
        if !chars_eq(w.as_slice(), cls) {
            if !first {
                push_char(&mut out, ' ');
            }
            push_chars(&mut out, w.as_slice());
            first = false;
            proof {
                let next = without_word(wv.take(j + 1), cls@);
                assert(next =~= prev.push(w@));
                assert(next.drop_last() =~= prev);
                if prev.len() == 0 {
                    assert(out@ =~= next[0]);
                } else {
                    assert(out@ =~= join(prev, " "@) + " "@ + w@);
                }
            }
        } else {
            proof {
                assert(without_word(wv.take(j + 1), cls@) =~= prev);
            }
        }
        j = j + 1;
    }
    proof {
        assert(wv.take(ws@.len() as int) =~= wv);
    }
    out
}

/// Remove `class` from the element's `class` attribute (no-op if absent).
pub(crate) fn class_list_remove(arena: &mut Arena, node: u32, class: &str) -> (r: Result<
    (),
    DomError,
>)
    requires
        old(arena).wf(),
    ensures
        final(arena).wf(),
        match element_attrs(old(arena).view(), node) {
            Err(e) => r == Err::<(), DomError>(e) && final(arena).view() == old(arena).view(),
            Ok(attrs) => r is Ok && final(arena).view() == old(arena).view().set_kind(
                node,
                with_attrs(old(arena).view().kinds[node as int], without_class(attrs, class@)),
            ),
        },
{
    if node as usize >= arena.len() {
        return Err(DomError::InvalidNode(node));
    }
    let kind = arena.replace_kind(node, NodeKind::Document);
    match kind {
        NodeKind::Element { tag, mut attrs } => {
            let ghost av = attrs_view(attrs@);
            let key = key_class();
            proof {
                lemma_attr_pos(av, class_key());
            }
            match find_attr(&attrs, &key) {
                Some(i) => {
                    let vc = str_chars(attrs[i].1.as_str());
                    let cc = str_chars(class);
                    if !words_contain(vc.as_slice(), cc.as_slice()) {
                        arena.replace_kind(node, NodeKind::Element { tag, attrs });
                        proof {
                            assert(arena.view() =~= old(arena).view());
                            assert(without_class(av, class@) == av);
                            assert(with_attrs(old(arena).view().kinds[node as int], av)
                                == old(arena).view().kinds[node as int]);
                        }
                        return Ok(());
                    }
                    let ws = split_words(vc.as_slice());
                    proof {
                        assert(ws@.map_values(|w: Vec<char>| w@) =~= words(vc@));
                    }
                    let nv = join_without(&ws, cc.as_slice());
                    let k = attrs[i].0.clone();
                    let ghost nvv = nv@;
                    let ghost kv = k@;
                    attrs.set(i, (k, nv));
                    proof {
                        assert(attrs_view(attrs@) =~= av.update(i as int, (kv, nvv)));
                        assert(attrs_view(attrs@) =~= without_class(av, class@));
                    }
                },
                None => {},
            }
            arena.replace_kind(node, NodeKind::Element { tag, attrs });
            proof {
                assert(arena.view() =~= old(arena).view().set_kind(
                    node,
                    with_attrs(old(arena).view().kinds[node as int], without_class(av, class@)),
                ));
            }
            Ok(())
        },
        other => {
            arena.replace_kind(node, other);
            proof {
                assert(arena.view() =~= old(arena).view());
            }
            Err(DomError::NotAnElement(node))
        },
    }
}

/// Return `true` if the element's `class` attribute contains `class`.
pub(crate) fn class_list_contains(arena: &Arena, node: u32, class: &str) -> (r: Result<
    bool,
    DomError,
>)
    ensures
        r == (match element_attrs(arena.view(), node) {
            Err(e) => Err(e),
            Ok(attrs) => Ok(words(class_attr(attrs)).contains(class@)),
        }),
{
    let node_ref = match arena.get(node) {
        Some(n) => n,
        None => return Err(DomError::InvalidNode(node)),
    };
    match &node_ref.kind {
        NodeKind::Element { attrs, .. } => {
            let ghost av = attrs_view(attrs@);
            proof {
                lemma_attr_pos(av, class_key());
            }
            let has = match find_attr(attrs, &key_class()) {
                Some(i) => {
                    let vc = str_chars(attrs[i].1.as_str());
                    let cc = str_chars(class);
                    words_contain(vc.as_slice(), cc.as_slice())
                },
                None => {
                    proof {
                        assert(words(Seq::<char>::empty()) =~= Seq::<Seq<char>>::empty());
                    }
                    false
                },
            };
            Ok(has)
        },
        _ => Err(DomError::NotAnElement(node)),
    }
}

} // verus!
