use vstd::prelude::*;

use crate::attributes::{attribute_of, with_attr, without_attr};
use crate::class_list::{
    class_list_has, element_attrs, with_attrs, with_class, without_class, without_word,
};
use crate::selector::{
    class_attr, class_key, complex_selector, group_from, ident_end, is_ident_char, is_space,
    attr_name_end, attr_qualifier, attr_value, group_matches, matches_from, qualifiers, quote_end,
    Combinator, select, selected, selector_group, simple_matches,
    simple_selector, skip_ws, steps_from,
    AttrView, SimpleView, StepView,
};
use crate::text::{is_ascii_digit, is_ascii_letter};
use crate::text::{
    is_word, join, lemma_words_append_word, lemma_words_are_words, lemma_words_join,
    lemma_words_push_space, words,
};
use crate::builder::{lemma_moved_all, moved_all, text_appended};
use crate::content::{lemma_texts_add, text_content, texts};
use crate::serialize::{
    attrs_html, escaped_attr, escaped_text, is_void_tag, inner_html, kids_html, lemma_html_fuel, lemma_html_frame, lemma_inner_html_fuel,
    node_html,
};
use crate::model::DomTree;
use crate::tree::append_outcome;
use crate::node::{attr_lookup, attr_pos, attr_pos_from, has_attr, lemma_attr_pos, KindView};

verus! {

/// Appending a detached node and then removing it gives back the tree it was appended to.
pub proof fn law_remove_undoes_append(t: DomTree, parent: u32, child: u32)
    requires
        t.consistent(),
        t.valid(parent),
        t.valid(child),
        t.parents[child as int] is None,
    ensures
        t.append(parent, child).detach(child) == t,
{
    let k = t.kids[parent as int];
    assert(!k.contains(child)) by {
        if k.contains(child) {
            let i = k.index_of(child);
            assert(t.parents[k[i] as int] == Some(parent));
        }
    }
    let t2 = t.append(parent, child);
    assert(t2.parents[child as int] == Some(parent));
    assert(k.push(child).index_of(child) == k.len()) by {
        assert(k.push(child)[k.len() as int] == child);
        let j = k.push(child).index_of(child);
        if j < k.len() {
            assert(k.push(child)[j] == k[j]);
        }
    }
    assert(k.push(child).remove(k.len() as int) =~= k);
    assert(t2.detach(child).parents =~= t.parents);
    assert(t2.detach(child).kids =~= t.kids);
    assert(t2.detach(child) =~= t);
}

/// Removing a node twice is removing it once.
pub proof fn law_remove_idempotent(t: DomTree, node: u32)
    requires
        t.valid(node),
        t.parents.len() == t.len(),
    ensures
        t.detach(node).detach(node) == t.detach(node),
{
}

/// Removing a node leaves every child list but its parent's as it was, and every
/// parent link but its own: in particular the node keeps its own children, and they
/// still report it as their parent.
pub proof fn law_remove_keeps_subtree(t: DomTree, node: u32, other: u32)
    requires
        t.consistent(),
        t.valid(node),
        t.valid(other),
        t.parents[node as int] != Some(other),
    ensures
        t.detach(node).kids[other as int] == t.kids[other as int],
        other != node ==> t.detach(node).parents[other as int] == t.parents[other as int],
{
}

/// After a node is removed it has no parent and its former parent no longer lists it;
/// the other children of that parent keep their order.
pub proof fn law_remove_unlinks(t: DomTree, node: u32)
    requires
        t.consistent(),
        t.valid(node),
        t.parents[node as int] is Some,
    ensures
        t.detach(node).parents[node as int] is None,
        !t.detach(node).kids[t.parents[node as int]->0 as int].contains(node),
        t.detach(node).kids[t.parents[node as int]->0 as int] == t.kids[t.parents[node as int]->0 as int].filter(
            |x: u32| x != node,
        ),
{
    let p = t.parents[node as int]->0 as int;
    let k = t.kids[p];
    let i = k.index_of(node);
    assert(k.no_duplicates());
    let r = k.remove(i);
    assert(!r.contains(node)) by {
        if r.contains(node) {
            let j = r.index_of(node);
            if j < i {
                assert(k[j] == node);
            } else {
                assert(k[j + 1] == node);
            }
        }
    }
    assert(r =~= k.filter(|x: u32| x != node)) by {
        lemma_remove_is_filter(k, node);
    }
}

proof fn lemma_remove_is_filter(k: Seq<u32>, x: u32)
    requires
        k.no_duplicates(),
        k.contains(x),
    ensures
        k.remove(k.index_of(x)) == k.filter(|y: u32| y != x),
    decreases k.len(),
{
    let i = k.index_of(x);
    let f = |y: u32| y != x;
    let d = k.drop_last();
    assert(k =~= d.push(k.last()));
    if k.last() == x {
        assert(i == k.len() - 1) by {
            assert(k[i] == x);
        }
        assert(!d.contains(x)) by {
            if d.contains(x) {
                let j = d.index_of(x);
                assert(k[j] == x);
            }
        }
        assert(d.filter(f) =~= d) by {
            d.lemma_filter_len_push(f, k.last());
            lemma_filter_all(d, x);
        }
        assert(k.filter(f) == d.filter(f)) by {
            reveal_with_fuel(Seq::filter, 1);
            assert(k.drop_last() == d);
        }
        assert(k.remove(i) =~= d);
    } else {
        assert(d.contains(x)) by {
            assert(k[i] == x);
            assert(i != k.len() - 1);
            assert(d[i] == x);
        }
        assert(d.no_duplicates());
        assert(d.index_of(x) == i) by {
            let j = d.index_of(x);
            assert(k[j] == x);
            assert(k[i] == x);
        }
        lemma_remove_is_filter(d, x);
        assert(k.filter(f) == d.filter(f).push(k.last())) by {
            reveal_with_fuel(Seq::filter, 1);
            assert(k.drop_last() == d);
        }
        assert(k.remove(i) =~= d.remove(i).push(k.last()));
    }
}

proof fn lemma_filter_all(d: Seq<u32>, x: u32)
    requires
        !d.contains(x),
    ensures
        d.filter(|y: u32| y != x) == d,
    decreases d.len(),
{
    let f = |y: u32| y != x;
    if d.len() > 0 {
        let e = d.drop_last();
        assert(!e.contains(x)) by {
            if e.contains(x) {
                let j = e.index_of(x);
                assert(d[j] == x);
            }
        }
        lemma_filter_all(e, x);
        assert(d.filter(f) == e.filter(f).push(d.last())) by {
            reveal_with_fuel(Seq::filter, 1);
        }
        assert(d =~= e.push(d.last()));
    } else {
        assert(d.filter(f) =~= d) by {
            reveal_with_fuel(Seq::filter, 1);
        }
    }
}


/// An attribute named `name` at `k`, with none of that name before it, is the first one.
proof fn lemma_attr_pos_at(attrs: Seq<(Seq<char>, Seq<char>)>, name: Seq<char>, k: int, i: int)
    requires
        0 <= i <= k < attrs.len(),
        attrs[k].0 == name,
        forall|j: int| 0 <= j < k ==> attrs[j].0 != name,
    ensures
        attr_pos_from(attrs, name, i) == Some(k),
    decreases k - i,
{
    if i < k {
        lemma_attr_pos_at(attrs, name, k, i + 1);
    }
}

/// After an attribute is set, reading it gives the value that was set.
pub proof fn law_get_after_set(t: DomTree, node: u32, name: Seq<char>, value: Seq<char>)
    requires
        element_attrs(t, node) is Ok,
    ensures
        attribute_of(
            t.set_kind(
                node,
                with_attrs(t.kinds[node as int], with_attr(element_attrs(t, node)->Ok_0, name, value)),
            ),
            node,
            name,
        ) == Some(value),
{
    let attrs = element_attrs(t, node)->Ok_0;
    let a2 = with_attr(attrs, name, value);
    lemma_attr_pos(attrs, name);
    match attr_pos(attrs, name) {
        Some(i) => {
            lemma_attr_pos_at(a2, name, i, 0);
        },
        None => {
            assert forall|j: int| 0 <= j < attrs.len() implies a2[j].0 != name by {
                if attrs[j].0 == name {
                    assert(has_attr(attrs, name));
                }
            }
            lemma_attr_pos_at(a2, name, attrs.len() as int, 0);
        },
    }
}

proof fn lemma_without_attr(attrs: Seq<(Seq<char>, Seq<char>)>, name: Seq<char>)
    ensures
        !has_attr(without_attr(attrs, name), name),
    decreases attrs.len(),
{
    if attrs.len() > 0 {
        lemma_without_attr(attrs.drop_last(), name);
        let w = without_attr(attrs, name);
        let w0 = without_attr(attrs.drop_last(), name);
        if has_attr(w, name) {
            let j = choose|j: int| 0 <= j < w.len() && (#[trigger] w[j]).0 == name;
            if j < w0.len() {
                assert(w[j] == w0[j]);
            }
        }
    }
}

/// After an attribute is removed, reading it gives nothing.
pub proof fn law_get_after_remove(t: DomTree, node: u32, name: Seq<char>)
    requires
        element_attrs(t, node) is Ok,
    ensures
        attribute_of(
            t.set_kind(
                node,
                with_attrs(t.kinds[node as int], without_attr(element_attrs(t, node)->Ok_0, name)),
            ),
            node,
            name,
        ) is None,
{
    let attrs = element_attrs(t, node)->Ok_0;
    lemma_without_attr(attrs, name);
    lemma_attr_pos(without_attr(attrs, name), name);
}


/// The words of a list other than `cls` leave `cls` out and are words when the list's are.
proof fn lemma_without_word(ws: Seq<Seq<char>>, cls: Seq<char>)
    ensures
        !without_word(ws, cls).contains(cls),
        (forall|k: int| 0 <= k < ws.len() ==> is_word(#[trigger] ws[k])) ==> forall|k: int|
            0 <= k < without_word(ws, cls).len() ==> is_word(#[trigger] without_word(ws, cls)[k]),
    decreases ws.len(),
{
    if ws.len() > 0 {
        let d = ws.drop_last();
        lemma_without_word(d, cls);
        let w0 = without_word(d, cls);
        let w = without_word(ws, cls);
        let tail: Seq<Seq<char>> = if ws.last() != cls {
            seq![ws.last()]
        } else {
            Seq::empty()
        };
        assert(w == w0 + tail);
        if w.contains(cls) {
            let j = w.index_of(cls);
            if j < w0.len() {
                assert(w0[j] == w[j]);
            } else {
                assert(w[j] == tail[j - w0.len()]);
            }
        }
        if forall|k: int| 0 <= k < ws.len() ==> is_word(#[trigger] ws[k]) {
            assert forall|k: int| 0 <= k < d.len() implies is_word(#[trigger] d[k]) by {
                assert(d[k] == ws[k]);
            }
            assert forall|k: int| 0 <= k < w.len() implies is_word(#[trigger] w[k]) by {
                if k < w0.len() {
                    assert(w[k] == w0[k]);
                } else {
                    assert(w[k] == ws.last());
                    assert(is_word(ws[ws.len() - 1]));
                }
            }
        }
    }
}

/// The first attribute named `name` of a list whose attribute at `k` is replaced by one of
/// the same name is where it was.
proof fn lemma_attr_pos_update(
    attrs: Seq<(Seq<char>, Seq<char>)>,
    name: Seq<char>,
    k: int,
    v: Seq<char>,
)
    requires
        attr_pos(attrs, name) == Some(k),
    ensures
        attr_lookup(attrs.update(k, (name, v)), name) == Some(v),
{
    lemma_attr_pos(attrs, name);
    lemma_attr_pos_at(attrs.update(k, (name, v)), name, k, 0);
}

/// An attribute added at the end of a list with no attribute of that name is the one found.
proof fn lemma_attr_pos_push(attrs: Seq<(Seq<char>, Seq<char>)>, name: Seq<char>, v: Seq<char>)
    requires
        attr_pos(attrs, name) is None,
    ensures
        attr_lookup(attrs.push((name, v)), name) == Some(v),
{
    lemma_attr_pos(attrs, name);
    let a2 = attrs.push((name, v));
    assert forall|j: int| 0 <= j < attrs.len() implies a2[j].0 != name by {
        if attrs[j].0 == name {
            assert(has_attr(attrs, name));
        }
    }
    lemma_attr_pos_at(a2, name, attrs.len() as int, 0);
}

/// Adding a class to an element: when the class list has it already nothing changes,
/// otherwise a one-word class becomes its last word; either way the list then has it.
pub proof fn law_class_add(t: DomTree, node: u32, cls: Seq<char>)
    requires
        element_attrs(t, node) is Ok,
        is_word(cls),
    ensures
        ({
            let attrs = element_attrs(t, node)->Ok_0;
            let before = words(class_attr(attrs));
            &&& before.contains(cls) ==> with_class(attrs, cls) == attrs
            &&& words(class_attr(with_class(attrs, cls))) == (if before.contains(cls) {
                before
            } else {
                before.push(cls)
            })
            &&& class_list_has(
                t.set_kind(node, with_attrs(t.kinds[node as int], with_class(attrs, cls))),
                node,
                cls,
            )
        }),
{
    let attrs = element_attrs(t, node)->Ok_0;
    let a2 = with_class(attrs, cls);
    let key = class_key();
    match attr_pos(attrs, key) {
        Some(i) => {
            lemma_attr_pos(attrs, key);
            let v = attrs[i].1;
            assert(class_attr(attrs) == v);
            if !words(v).contains(cls) {
                let sep: Seq<char> = if v.len() > 0 {
                    seq![' ']
                } else {
                    Seq::empty()
                };
                let nv = v + sep + cls;
                assert(attrs[i].0 == key);
                lemma_attr_pos_update(attrs, key, i, nv);
                assert(a2 == attrs.update(i, (key, nv)));
                if v.len() > 0 {
                    assert(v + sep =~= v.push(' '));
                    lemma_words_push_space(v, ' ');
                    lemma_words_append_word(v + sep, cls);
                } else {
                    assert(nv =~= Seq::<char>::empty() + cls);
                    lemma_words_append_word(Seq::empty(), cls);
                    assert(words(v) =~= Seq::<Seq<char>>::empty());
                }
                assert(words(class_attr(a2)) == words(v).push(cls));
                assert(words(v).push(cls)[words(v).len() as int] == cls);
            }
        },
        None => {
            lemma_attr_pos_push(attrs, key, cls);
            assert(class_attr(attrs) == Seq::<char>::empty());
            assert(words(Seq::<char>::empty()) =~= Seq::<Seq<char>>::empty());
            lemma_words_append_word(Seq::empty(), cls);
            assert(Seq::<char>::empty() + cls =~= cls);
            assert(words(class_attr(a2)) =~= seq![cls]);
            assert(seq![cls][0] == cls);
        },
    }
    let t2 = t.set_kind(node, with_attrs(t.kinds[node as int], a2));
    assert(element_attrs(t2, node) == Ok::<_, crate::tree::DomError>(a2));
}

/// A list of words without `cls` loses nothing when `cls` is left out.
proof fn lemma_without_absent_word(ws: Seq<Seq<char>>, cls: Seq<char>)
    requires
        !ws.contains(cls),
    ensures
        without_word(ws, cls) == ws,
    decreases ws.len(),
{
    if ws.len() > 0 {
        let d = ws.drop_last();
        assert(!d.contains(cls)) by {
            if d.contains(cls) {
                let j = d.index_of(cls);
                assert(ws[j] == cls);
            }
        }
        lemma_without_absent_word(d, cls);
        assert(ws.last() != cls) by {
            assert(ws[ws.len() - 1] == ws.last());
        }
        assert(without_word(ws, cls) =~= ws);
    }
}

/// Removing a class from an element leaves the other words of its class list, in order,
/// and the list no longer has that class; when the list does not have it, the attributes
/// stay as they were.
pub proof fn law_class_remove(t: DomTree, node: u32, cls: Seq<char>)
    requires
        element_attrs(t, node) is Ok,
    ensures
        ({
            let attrs = element_attrs(t, node)->Ok_0;
            &&& words(class_attr(without_class(attrs, cls))) == without_word(
                words(class_attr(attrs)),
                cls,
            )
            &&& !class_list_has(
                t.set_kind(node, with_attrs(t.kinds[node as int], without_class(attrs, cls))),
                node,
                cls,
            )
            &&& !words(class_attr(attrs)).contains(cls) ==> without_class(attrs, cls) == attrs
        }),
{
    let attrs = element_attrs(t, node)->Ok_0;
    let a2 = without_class(attrs, cls);
    let key = class_key();
    match attr_pos(attrs, key) {
        Some(i) => {
            lemma_attr_pos(attrs, key);
            let v = attrs[i].1;
            assert(class_attr(attrs) == v);
            if !words(v).contains(cls) {
                lemma_without_absent_word(words(v), cls);
            }
            let ww = without_word(words(v), cls);
            lemma_words_are_words(v);
            lemma_without_word(words(v), cls);
            reveal_strlit(" ");
            assert(" "@ =~= seq![' ']);
            lemma_words_join(ww);
            lemma_attr_pos_update(attrs, key, i, join(ww, " "@));
        },
        None => {
            assert(words(Seq::<char>::empty()) =~= Seq::<Seq<char>>::empty());
            assert(without_word(Seq::<Seq<char>>::empty(), cls) =~= Seq::<Seq<char>>::empty());
        },
    }
    lemma_without_word(words(class_attr(attrs)), cls);
    let t2 = t.set_kind(node, with_attrs(t.kinds[node as int], a2));
    assert(element_attrs(t2, node) == Ok::<_, crate::tree::DomError>(a2));
}


/// A parent chain whose nodes keep their parents in another tree is a parent chain there too.
proof fn lemma_chain_kept(t: DomTree, t2: DomTree, x: u32, d: nat)
    requires
        t.depth_is(x, d),
        forall|k: nat|
            k <= d ==> t2.parents[(#[trigger] t.up(x, k))->0 as int] == t.parents[t.up(
                x,
                k,
            )->0 as int],
    ensures
        t2.depth_is(x, d),
        t2.up(x, d) == t.up(x, d),
    decreases d,
{
    assert(t.up(x, 0) == Some(x));
    if d > 0 {
        let p = t.parents[x as int]->0;
        assert(t.parents[x as int] is Some);
        assert forall|k: nat| k <= (d - 1) as nat implies t2.parents[(#[trigger] t.up(
            p,
            k,
        ))->0 as int] == t.parents[t.up(p, k)->0 as int] by {
            assert(t.up(x, k + 1) == t.up(p, k));
        }
        lemma_chain_kept(t, t2, p, (d - 1) as nat);
    }
}

/// After the text content of an element is set, the element has a finite subtree again
/// (and is still in its tree), its text content is the text that was set, and its inner
/// HTML is that text escaped.
pub proof fn law_text_after_set(t: DomTree, node: u32, text: Seq<char>)
    requires
        t.consistent(),
        element_attrs(t, node) is Ok,
        t.len() <= u32::MAX,
    ensures
        ({
            let t2 = t.cleared(node).add_node(KindView::Text { data: text }).append(
                node,
                t.len() as u32,
            );
            &&& t2.finite_below(node)
            &&& t.anchored(node) ==> t2.anchored(node)
            &&& text_content(t2, node) == text
            &&& inner_html(t2, node) == escaped_text(text)
        }),
{
    let n = t.len() as u32;
    let t2 = t.cleared(node).add_node(KindView::Text { data: text }).append(node, n);
    let ks = t.kids[node as int];
    assert(ks.take(ks.len() as int) =~= ks);
    if t.anchored(node) {
        let d = t.depth(node);
        assert(t.depth_is(node, d));
        t.lemma_depth_bound(node, d);
        assert forall|k: nat| k <= d implies t2.parents[(#[trigger] t.up(node, k))->0 as int]
            == t.parents[t.up(node, k)->0 as int] by {
            t.lemma_up_some_below(node, d, k);
            t.lemma_up_valid(node, k);
            let y = t.up(node, k)->0;
            if ks.contains(y) {
                let j = ks.index_of(y);
                assert(t.parents[ks[j] as int] == Some(node));
                t.lemma_child_depth(node, d, y);
                t.lemma_up_depth(node, d, k);
                t.lemma_depth_unique(y, d + 1, (d - k) as nat);
            }
            assert(y != n);
        }
        lemma_chain_kept(t, t2, node, d);
    }
    assert(t2.kids[node as int] =~= seq![n]);
    assert(t2.kids[n as int] =~= Seq::<u32>::empty());
    // The subtree at `node` is `node` above the new text node.
    assert(t2.bounded(n, 1)) by {
        assert(t2.kids_bounded(n, 0, 0));
    }
    assert(t2.bounded(node, 2)) by {
        assert(t2.kids_bounded(node, 0, 1));
        assert(t2.kids_bounded(node, 1, 1));
    }
    let h = t2.height(node);
    assert(t2.bounded(node, h));
    assert(t2.kids_bounded(node, 1, (h - 1) as nat));
    t2.lemma_kids_bounded(node, 1, (h - 1) as nat, 0);
    assert(h >= 2);
    let f1 = (h - 1) as nat;
    assert(t2.preorder(n, f1) =~= seq![n]);
    assert(t2.preorder_kids(node, 1, f1) =~= seq![n]) by {
        assert(t2.preorder_kids(node, 0, f1) =~= Seq::<u32>::empty());
    }
    assert(t2.preorder(node, h) =~= seq![node, n]);
    let pre = seq![node, n];
    assert(pre.drop_last() =~= seq![node]);
    assert(seq![node].drop_last() =~= Seq::<u32>::empty());
    assert(t2.kinds[node as int] is Element);
    assert(t2.kinds[n as int] == KindView::Text { data: text });
    assert(texts(t2, Seq::<u32>::empty()) == Seq::<char>::empty());
    assert(seq![node].last() == node);
    assert(texts(t2, seq![node]) =~= Seq::<char>::empty());
    assert(texts(t2, pre) =~= text);
    assert(kids_html(t2, node, 0, f1) =~= Seq::<char>::empty());
    assert(node_html(t2, n, f1) == escaped_text(text));
    assert(inner_html(t2, node) =~= escaped_text(text));
}


/// What a query selects is among the nodes it looked at.
proof fn lemma_select_within(t: DomTree, g: Seq<Seq<StepView>>, s: Seq<u32>, y: u32)
    requires
        select(t, g, s).contains(y),
    ensures
        s.contains(y),
    decreases s.len(),
{
    if s.len() > 0 {
        let d = s.drop_last();
        let a = select(t, g, d);
        let all = select(t, g, s);
        let j = all.index_of(y);
        if j < a.len() {
            assert(a[j] == all[j]);
            lemma_select_within(t, g, d, y);
            let m = d.index_of(y);
            assert(s[m] == d[m]);
        } else {
            assert(all[j] == s.last());
            assert(s[s.len() - 1] == y);
        }
    }
}

/// After a node other than the root is removed, the document order from the root no
/// longer reaches it, so no query on the document returns it.
pub proof fn law_removed_not_found(t: DomTree, root: u32, node: u32, selector: Seq<char>)
    requires
        t.consistent(),
        t.len() <= u32::MAX as nat + 1,
        t.valid(root),
        t.valid(node),
        node != root,
    ensures
        !t.detach(node).subtree(root).contains(node),
        !select(
            t.detach(node),
            selector_group(selector),
            t.detach(node).subtree(root),
        ).contains(node),
{
    let t2 = t.detach(node);
    t.lemma_detach_consistent(node);
    assert(t2.parents[node as int] is None);
    if t2.subtree(root).contains(node) {
        t2.lemma_preorder_ancestor(root, t2.len(), node);
        let k = choose|k: nat| t2.up(node, k) == Some(root);
        if k > 0 {
            assert(t2.up(node, k) is None);
        }
    }
    if select(t2, selector_group(selector), t2.subtree(root)).contains(node) {
        lemma_select_within(t2, selector_group(selector), t2.subtree(root), node);
    }
}

/// After a detached node is appended, it is the last child of its new parent and reports
/// that parent, and the earlier children keep their order.
pub proof fn law_append_links(t: DomTree, parent: u32, child: u32)
    requires
        t.consistent(),
        t.valid(parent),
        t.valid(child),
    ensures
        t.append(parent, child).kids[parent as int].last() == child,
        t.append(parent, child).kids[parent as int].drop_last() == t.kids[parent as int],
        t.append(parent, child).parents[child as int] == Some(parent),
{
    assert(t.append(parent, child).kids[parent as int].drop_last() =~= t.kids[parent as int]);
}


/// A node on the parent chain of a child of `p` is on the chain of `p`'s child, so `p`
/// is on it too.
proof fn lemma_ancestor_of_parent(t: DomTree, c: u32, p: u32, y: u32)
    requires
        t.is_inclusive_ancestor(c, y),
        t.parents[c as int] == Some(p),
    ensures
        t.is_inclusive_ancestor(p, y),
{
    let k = choose|k: nat| t.up(y, k) == Some(c);
    t.lemma_up_add(y, k, 1);
    t.lemma_up_one(c);
    assert(t.up(y, k + 1) == Some(p));
}

/// The HTML of the first `i` children of `x` in `m` and of `y` in `t`, when these children
/// are the same nodes and each has the same HTML in both trees.
proof fn lemma_kids_html_same(
    t: DomTree,
    y: u32,
    fy: nat,
    m: DomTree,
    x: u32,
    fx: nat,
    i: int,
)
    requires
        0 <= i <= t.kids[y as int].len(),
        i <= m.kids[x as int].len(),
        forall|j: int| 0 <= j < i ==> m.kids[x as int][j] == t.kids[y as int][j],
        forall|j: int|
            0 <= j < i ==> node_html(m, #[trigger] t.kids[y as int][j], fx) == node_html(
                t,
                t.kids[y as int][j],
                fy,
            ),
    ensures
        kids_html(m, x, i, fx) == kids_html(t, y, i, fy),
    decreases i,
{
    if i > 0 {
        lemma_kids_html_same(t, y, fy, m, x, fx, i - 1);
        assert(node_html(m, t.kids[y as int][i - 1], fx) == node_html(t, t.kids[y as int][i - 1], fy));
    }
}

/// After the children of an element are replaced by those of `source` (what setting the
/// inner HTML does with the parsed nodes), the element's inner HTML is what the inner HTML
/// of `source` was. `source` must not contain the element.
pub proof fn law_inner_html_after_replace(t: DomTree, root: u32, node: u32, source: u32)
    requires
        t.consistent(),
        t.len() <= u32::MAX as nat + 1,
        t.valid(root),
        t.parents[root as int] is None,
        element_attrs(t, node) is Ok,
        t.valid(source),
        t.anchored(node),
        t.anchored(source),
        node != source,
        !t.is_inclusive_ancestor(source, node),
    ensures
        ({
            let m = moved_all(t.cleared(node), root, node, t.cleared(node).kids[source as int]);
            &&& m.anchored(node)
            &&& m.finite_below(node)
            &&& inner_html(m, node) == inner_html(t, source)
        }),
{
    let t1 = t.cleared(node);
    let ks = t.kids[node as int];
    t.lemma_cleared_first_consistent(node, ks.len() as int);
    assert(ks.take(ks.len() as int) =~= ks);
    assert(ks.skip(ks.len() as int) =~= Seq::<u32>::empty());
    let cs = t.kids[source as int];
    assert(t1.kids[source as int] == cs);
    // `node` is not a child of `source`, and `root` is not a child of `node`.
    assert(!cs.contains(node)) by {
        if cs.contains(node) {
            let j = cs.index_of(node);
            assert(t.parents[cs[j] as int] == Some(source));
            t.lemma_up_one(node);
        }
    }
    assert(!ks.contains(root)) by {
        if ks.contains(root) {
            let j = ks.index_of(root);
            assert(t.parents[ks[j] as int] == Some(node));
        }
    }
    assert(t1.parents[root as int] is None);
    lemma_moved_all(t1, root, node, source, cs.len() as int);
    assert(cs.take(cs.len() as int) =~= cs);
    assert(cs.skip(cs.len() as int) =~= Seq::<u32>::empty());
    let m = moved_all(t1, root, node, cs);
    assert(m.kids[node as int] =~= cs);
    // The parent chain of `node` is as it was.
    let d = t.depth(node);
    assert(t.depth_is(node, d));
    t.lemma_depth_bound(node, d);
    assert forall|k: nat| k <= d implies m.parents[(#[trigger] t.up(node, k))->0 as int]
        == t.parents[t.up(node, k)->0 as int] by {
        t.lemma_up_some_below(node, d, k);
        t.lemma_up_valid(node, k);
        let y = t.up(node, k)->0;
        if ks.contains(y) {
            let j = ks.index_of(y);
            assert(t.parents[ks[j] as int] == Some(node));
            t.lemma_child_depth(node, d, y);
            t.lemma_up_depth(node, d, k);
            t.lemma_depth_unique(y, d + 1, (d - k) as nat);
        }
        if cs.contains(y) {
            let j = cs.index_of(y);
            assert(t.parents[cs[j] as int] == Some(source));
            t.lemma_up_add(node, k, 1);
            t.lemma_up_one(y);
            assert(t.up(node, k + 1) == Some(source));
        }
    }
    lemma_chain_kept(t, m, node, d);
    assert(m.anchored(node));
    let dm = m.depth(node);
    assert(m.depth_is(node, dm));
    m.lemma_depth_unique(node, d, dm);
    // Each moved child has the HTML it had.
    let ds = t.depth(source);
    assert(t.depth_is(source, ds));
    let n = t.len();
    let fx = (n - d - 1) as nat;
    let fy = (n - ds - 1) as nat;
    assert forall|j: int| 0 <= j < cs.len() implies node_html(m, #[trigger] cs[j], fx) == node_html(
        t,
        cs[j],
        fy,
    ) by {
        let c = cs[j];
        assert(t.parents[c as int] == Some(source));
        t.lemma_child_depth(source, ds, c);
        assert(m.kids[node as int][j] == c);
        assert(m.parents[c as int] == Some(node));
        m.lemma_child_depth(node, d, c);
        lemma_html_fuel(m, c, d + 1, fx, n);
        assert forall|y: u32| t.valid(y) && #[trigger] t.is_inclusive_ancestor(c, y) implies m.kinds[
            y as int] == t.kinds[y as int] && m.kids[y as int] == t.kids[y as int] by {
            lemma_ancestor_of_parent(t, c, source, y);
            if y == source {
                let k = choose|k: nat| t.up(y, k) == Some(c);
                t.lemma_up_depth(source, ds, k);
                t.lemma_depth_unique(c, ds + 1, (ds - k) as nat);
            }
            assert(y != node);
        }
        lemma_html_frame(t, m, c, n);
        lemma_html_fuel(t, c, ds + 1, n, fy);
    }
    lemma_kids_html_same(t, source, fy, m, node, fx, cs.len() as int);
    // Both inner HTMLs are these: the fuel reaches below the finite subtrees.
    m.lemma_anchored_bounded(node, d);
    lemma_inner_html_fuel(m, node, (n - d) as nat, fx);
    t.lemma_anchored_bounded(source, ds);
    lemma_inner_html_fuel(t, source, (n - ds) as nat, fy);
}


/// Looking up a name after an attribute is added at the end: an earlier attribute of that
/// name still wins.
proof fn lemma_lookup_push(attrs: Seq<(Seq<char>, Seq<char>)>, x: (Seq<char>, Seq<char>), k: Seq<char>)
    ensures
        attr_lookup(attrs.push(x), k) == (if has_attr(attrs, k) {
            attr_lookup(attrs, k)
        } else if x.0 == k {
            Some(x.1)
        } else {
            None
        }),
{
    let a2 = attrs.push(x);
    lemma_attr_pos(attrs, k);
    lemma_attr_pos(a2, k);
    if has_attr(attrs, k) {
        let p = attr_pos(attrs, k)->0;
        lemma_attr_pos_at(a2, k, p, 0);
    } else if x.0 == k {
        assert forall|j: int| 0 <= j < attrs.len() implies a2[j].0 != k by {
            if attrs[j].0 == k {
                assert(has_attr(attrs, k));
            }
        }
        lemma_attr_pos_at(a2, k, attrs.len() as int, 0);
    } else {
        if has_attr(a2, k) {
            let j = choose|j: int| 0 <= j < a2.len() && (#[trigger] a2[j]).0 == k;
            assert(attrs[j] == a2[j]);
        }
    }
}

/// Setting an attribute leaves every attribute of another name as it was.
pub proof fn law_set_keeps_other_attributes(
    t: DomTree,
    node: u32,
    name: Seq<char>,
    value: Seq<char>,
    other: Seq<char>,
)
    requires
        element_attrs(t, node) is Ok,
        other != name,
    ensures
        attribute_of(
            t.set_kind(
                node,
                with_attrs(t.kinds[node as int], with_attr(element_attrs(t, node)->Ok_0, name, value)),
            ),
            node,
            other,
        ) == attribute_of(t, node, other),
{
    let attrs = element_attrs(t, node)->Ok_0;
    let a2 = with_attr(attrs, name, value);
    lemma_attr_pos(attrs, name);
    match attr_pos(attrs, name) {
        Some(i) => {
            lemma_attr_pos(attrs, other);
            lemma_attr_pos(a2, other);
            match attr_pos(attrs, other) {
                Some(p) => {
                    assert(p != i);
                    assert forall|j: int| 0 <= j < p implies a2[j].0 != other by {
                        if j != i {
                            assert(a2[j] == attrs[j]);
                        }
                    }
                    lemma_attr_pos_at(a2, other, p, 0);
                },
                None => {
                    if has_attr(a2, other) {
                        let j = choose|j: int| 0 <= j < a2.len() && (#[trigger] a2[j]).0 == other;
                        assert(a2[j] == attrs[j]);
                        assert(has_attr(attrs, other));
                    }
                },
            }
        },
        None => {
            lemma_lookup_push(attrs, (name, value), other);
            lemma_attr_pos(attrs, other);
        },
    }
}

/// Removing the attributes of one name leaves the lookup of any other name as it was.
proof fn lemma_without_attr_keeps(attrs: Seq<(Seq<char>, Seq<char>)>, name: Seq<char>, other: Seq<char>)
    requires
        other != name,
    ensures
        attr_lookup(without_attr(attrs, name), other) == attr_lookup(attrs, other),
    decreases attrs.len(),
{
    if attrs.len() > 0 {
        let d = attrs.drop_last();
        let x = attrs.last();
        lemma_without_attr_keeps(d, name, other);
        assert(d.push(x) =~= attrs);
        lemma_lookup_push(d, x, other);
        let w = without_attr(d, name);
        lemma_attr_pos(w, other);
        lemma_attr_pos(d, other);
        if x.0 != name {
            assert(without_attr(attrs, name) =~= w.push(x));
            lemma_lookup_push(w, x, other);
        } else {
            assert(without_attr(attrs, name) =~= w);
        }
    }
}

/// Removing an attribute leaves every attribute of another name as it was.
pub proof fn law_remove_keeps_other_attributes(t: DomTree, node: u32, name: Seq<char>, other: Seq<char>)
    requires
        element_attrs(t, node) is Ok,
        other != name,
    ensures
        attribute_of(
            t.set_kind(
                node,
                with_attrs(t.kinds[node as int], without_attr(element_attrs(t, node)->Ok_0, name)),
            ),
            node,
            other,
        ) == attribute_of(t, node, other),
{
    lemma_without_attr_keeps(element_attrs(t, node)->Ok_0, name, other);
}


/// After a detached node is appended to an element that is not inside it, the element's
/// inner HTML is what it was followed by the HTML of the appended node.
pub proof fn law_inner_html_after_append(t: DomTree, parent: u32, child: u32)
    requires
        t.consistent(),
        t.len() <= u32::MAX as nat + 1,
        t.valid(parent),
        t.valid(child),
        t.parents[child as int] is None,
        t.anchored(parent),
        !t.is_inclusive_ancestor(child, parent),
    ensures
        t.append(parent, child).anchored(parent),
        inner_html(t.append(parent, child), parent) == inner_html(t, parent) + node_html(
            t,
            child,
            t.len(),
        ),
{
    let t2 = t.append(parent, child);
    t.lemma_append_consistent(parent, child);
    let n = t.len();
    let d = t.depth(parent);
    assert(t.depth_is(parent, d));
    t.lemma_depth_bound(parent, d);
    // The parent chain of `parent` does not pass through `child`.
    assert forall|k: nat| k <= d implies t2.parents[(#[trigger] t.up(parent, k))->0 as int]
        == t.parents[t.up(parent, k)->0 as int] by {
        t.lemma_up_some_below(parent, d, k);
        t.lemma_up_valid(parent, k);
        let y = t.up(parent, k)->0;
        if y == child {
            assert(t.up(parent, k) == Some(child));
            assert(t.is_inclusive_ancestor(child, parent));
        }
        assert(y != child);
        assert(t2.parents[y as int] == t.parents[y as int]);
    }
    lemma_chain_kept(t, t2, parent, d);
    let d2 = t2.depth(parent);
    assert(t2.depth_is(parent, d2));
    t2.lemma_depth_unique(parent, d, d2);
    let f = (n - d - 1) as nat;
    let ks = t.kids[parent as int];
    // The children that were there keep their HTML.
    assert forall|j: int| 0 <= j < ks.len() implies node_html(t2, #[trigger] ks[j], f) == node_html(
        t,
        ks[j],
        f,
    ) by {
        let c = ks[j];
        assert(t.parents[c as int] == Some(parent));
        t.lemma_child_depth(parent, d, c);
        assert forall|y: u32| t.valid(y) && #[trigger] t.is_inclusive_ancestor(c, y) implies t2.kinds[
            y as int] == t.kinds[y as int] && t2.kids[y as int] == t.kids[y as int] by {
            if y == parent {
                let k = choose|k: nat| t.up(y, k) == Some(c);
                t.lemma_up_depth(parent, d, k);
                t.lemma_depth_unique(c, d + 1, (d - k) as nat);
            }
        }
        lemma_html_frame(t, t2, c, f);
    }
    assert forall|j: int| 0 <= j < ks.len() implies t2.kids[parent as int][j] == ks[j] by {}
    lemma_kids_html_same(t, parent, f, t2, parent, f, ks.len() as int);
    // The appended node has the HTML it had.
    assert(t2.kids[parent as int][ks.len() as int] == child);
    assert(t2.parents[child as int] == Some(parent));
    t2.lemma_child_depth(parent, d, child);
    lemma_html_fuel(t2, child, d + 1, f, n);
    assert forall|y: u32| t.valid(y) && #[trigger] t.is_inclusive_ancestor(child, y) implies t2.kinds[
        y as int] == t.kinds[y as int] && t2.kids[y as int] == t.kids[y as int] by {
        assert(y != parent);
    }
    lemma_html_frame(t, t2, child, n);
    assert(kids_html(t2, parent, ks.len() as int + 1, f) == kids_html(t2, parent, ks.len() as int, f)
        + node_html(t2, child, f));
    t2.lemma_anchored_bounded(parent, d);
    lemma_inner_html_fuel(t2, parent, (n - d) as nat, f);
    t.lemma_anchored_bounded(parent, d);
    lemma_inner_html_fuel(t, parent, (n - d) as nat, f);
}

/// A newly created node is detached, so it can be appended to any node of the document.
pub proof fn law_new_node_appendable(t: DomTree, root: u32, parent: u32, kind: KindView)
    requires
        t.consistent(),
        t.valid(root),
        t.valid(parent),
        t.len() <= u32::MAX,
    ensures
        t.add_node(kind).parents[t.len() as int] is None,
        append_outcome(t.add_node(kind), parent, t.len() as u32, root) is Ok,
{
}

/// Removing a node keeps every parent chain finite.
pub proof fn law_remove_keeps_acyclic(t: DomTree, node: u32)
    requires
        t.consistent(),
        t.acyclic(),
        t.valid(node),
    ensures
        t.detach(node).acyclic(),
{
    let t2 = t.detach(node);
    assert forall|y: u32| t2.valid(y) implies #[trigger] t2.anchored(y) by {
        assert(t.anchored(y));
        let d = t.depth(y);
        assert(t.depth_is(y, d));
        if exists|k: nat| k <= d && #[trigger] t.up(y, k) == Some(node) {
            let k = choose|k: nat| k <= d && #[trigger] t.up(y, k) == Some(node);
            assert forall|i: nat| i < k && (#[trigger] t.up(y, i)) is Some implies t2.parents[t.up(
                y,
                i,
            )->0 as int] == t.parents[t.up(y, i)->0 as int] by {
                t.lemma_chain_distinct(y, d, i, k);
                t.lemma_up_valid(y, i);
            }
            t.lemma_up_kept(t2, y, k);
            assert(t2.depth_is(y, k));
        } else {
            assert forall|k: nat| k <= d implies t2.parents[(#[trigger] t.up(y, k))->0 as int]
                == t.parents[t.up(y, k)->0 as int] by {
                t.lemma_up_some_below(y, d, k);
                t.lemma_up_valid(y, k);
            }
            lemma_chain_kept(t, t2, y, d);
        }
    }
}

/// Appending a detached node under a node that is not inside its subtree keeps every
/// parent chain finite.
pub proof fn law_append_keeps_acyclic(t: DomTree, parent: u32, child: u32)
    requires
        t.consistent(),
        t.acyclic(),
        t.valid(parent),
        t.valid(child),
        t.parents[child as int] is None,
        !t.is_inclusive_ancestor(child, parent),
    ensures
        t.append(parent, child).acyclic(),
{
    let t2 = t.append(parent, child);
    // The chain of `parent` does not meet `child`, so it is kept.
    assert(t.anchored(parent));
    let e = t.depth(parent);
    assert(t.depth_is(parent, e));
    assert forall|k: nat| k <= e implies t2.parents[(#[trigger] t.up(parent, k))->0 as int]
        == t.parents[t.up(parent, k)->0 as int] by {
        t.lemma_up_some_below(parent, e, k);
        t.lemma_up_valid(parent, k);
        if t.up(parent, k) == Some(child) {
            assert(t.is_inclusive_ancestor(child, parent));
        }
    }
    lemma_chain_kept(t, t2, parent, e);
    assert forall|y: u32| t2.valid(y) implies #[trigger] t2.anchored(y) by {
        assert(t.anchored(y));
        let d = t.depth(y);
        assert(t.depth_is(y, d));
        if exists|k: nat| k <= d && #[trigger] t.up(y, k) == Some(child) {
            let k = choose|k: nat| k <= d && #[trigger] t.up(y, k) == Some(child);
            // `child` has no parent in `t`, so it is the top of the chain.
            if k < d {
                t.lemma_up_add(y, k, 1);
                t.lemma_up_one(child);
                t.lemma_up_some_below(y, d, k + 1);
            }
            assert(k == d);
            assert forall|i: nat| i < k && (#[trigger] t.up(y, i)) is Some implies t2.parents[t.up(
                y,
                i,
            )->0 as int] == t.parents[t.up(y, i)->0 as int] by {
                t.lemma_chain_distinct(y, d, i, k);
                t.lemma_up_valid(y, i);
            }
            t.lemma_up_kept(t2, y, k);
            t2.lemma_up_add(y, k, 1);
            t2.lemma_up_one(child);
            t2.lemma_up_add(y, k + 1, e);
            assert(t2.depth_is(y, k + 1 + e));
        } else {
            assert forall|k: nat| k <= d implies t2.parents[(#[trigger] t.up(y, k))->0 as int]
                == t.parents[t.up(y, k)->0 as int] by {
                t.lemma_up_some_below(y, d, k);
                t.lemma_up_valid(y, k);
            }
            lemma_chain_kept(t, t2, y, d);
        }
    }
}

/// Adding a node keeps every parent chain finite.
pub proof fn law_add_node_keeps_acyclic(t: DomTree, kind: KindView)
    requires
        t.consistent(),
        t.acyclic(),
    ensures
        t.add_node(kind).acyclic(),
{
    let t2 = t.add_node(kind);
    assert forall|y: u32| t2.valid(y) implies #[trigger] t2.anchored(y) by {
        if y as int == t.len() {
            assert(t2.up(y, 0) == Some(y));
            assert(t2.depth_is(y, 0));
        } else {
            assert(t.anchored(y));
            let d = t.depth(y);
            assert(t.depth_is(y, d));
            assert forall|i: nat| i < d + 1 && (#[trigger] t.up(y, i)) is Some implies t2.parents[t.up(
                y,
                i,
            )->0 as int] == t.parents[t.up(y, i)->0 as int] by {
                t.lemma_up_valid(y, i);
            }
            t.lemma_up_kept(t2, y, d);
            assert(t2.depth_is(y, d));
        }
    }
}

/// No operation frees a node: adding one makes one more, the others keep the count, so
/// an id once valid stays valid.
pub proof fn law_operations_keep_nodes(t: DomTree, a: u32, b: u32, kind: KindView)
    requires
        t.valid(a),
        t.valid(b),
        t.parents.len() == t.len(),
        t.kids.len() == t.len(),
    ensures
        t.add_node(kind).len() == t.len() + 1,
        t.append(a, b).len() == t.len(),
        t.detach(a).len() == t.len(),
        t.set_kind(a, kind).len() == t.len(),
        t.cleared(a).len() == t.len(),
{
}

/// A node keeps its parent through every operation that does not move that node: an
/// appended node reports its parent until it is removed or moved.
pub proof fn law_parent_kept(t: DomTree, c: u32, a: u32, b: u32, kind: KindView)
    requires
        t.valid(a),
        t.valid(b),
        t.valid(c),
        t.parents.len() == t.len(),
        t.kids.len() == t.len(),
    ensures
        c != b ==> t.append(a, b).parents[c as int] == t.parents[c as int],
        c != a ==> t.detach(a).parents[c as int] == t.parents[c as int],
        t.add_node(kind).parents[c as int] == t.parents[c as int],
        t.set_kind(a, kind).parents[c as int] == t.parents[c as int],
{
}


/// A selector word: ASCII letters, digits, `-` and `_`, at least one of them.
pub open spec fn is_ascii_word(w: Seq<char>) -> bool {
    &&& w.len() > 0
    &&& forall|i: int|
        0 <= i < w.len() ==> (#[trigger] is_ascii_letter(w[i]) || is_ascii_digit(w[i]) || w[i]
            == '-' || w[i] == '_')
}

/// The simple selector with only the given tag, id or class.
pub open spec fn only(tag: Option<Seq<char>>, id: Option<Seq<char>>, classes: Seq<Seq<char>>) -> SimpleView {
    SimpleView { tag, id, classes, attrs: Seq::<AttrView>::empty() }
}

/// A run of word characters is read to its end.
proof fn lemma_ident_to_end(s: Seq<char>, i: int)
    requires
        0 <= i <= s.len(),
        forall|j: int|
            i <= j < s.len() ==> (#[trigger] is_ascii_letter(s[j]) || is_ascii_digit(s[j]) || s[j]
                == '-' || s[j] == '_'),
    ensures
        ident_end(s, i) == s.len(),
    decreases s.len() - i,
{
    if i < s.len() {
        assert(is_ascii_letter(s[i]) || is_ascii_digit(s[i]) || s[i] == '-' || s[i] == '_');
        assert(is_ident_char(s[i]));
        lemma_ident_to_end(s, i + 1);
    }
}

/// A string that is one simple selector, with nothing before or after it, is a group of
/// one complex selector of that one step.
proof fn lemma_group_of_one_simple(s: Seq<char>, sel: SimpleView)
    requires
        s.len() > 0,
        !is_space(s[0]),
        simple_selector(s, 0) == (Some(sel), s.len() as int),
    ensures
        selector_group(s) == seq![seq![StepView { simple: sel, combinator: None }]],
{
    let st = seq![StepView { simple: sel, combinator: None }];
    assert(skip_ws(s, 0) == 0);
    assert(steps_from(s, s.len() as int, st) == (st, s.len() as int));
    assert(complex_selector(s, 0) == (Some(st), s.len() as int));
    assert(skip_ws(s, s.len() as int) == s.len());
    assert(group_from(s, 0, Seq::empty()) =~= seq![st]);
}

/// A selector word that starts with a letter selects that tag; `#` and a word selects
/// that id; `.` and a word selects that class: in each case one complex selector of one
/// step, with nothing else asked.
pub proof fn law_selector_words(w: Seq<char>)
    requires
        is_ascii_word(w),
    ensures
        is_ascii_letter(w[0]) ==> selector_group(w) == seq![
            seq![StepView { simple: only(Some(w), None, Seq::empty()), combinator: None }],
        ],
        selector_group(seq!['#'] + w) == seq![
            seq![StepView { simple: only(None, Some(w), Seq::empty()), combinator: None }],
        ],
        selector_group(seq!['.'] + w) == seq![
            seq![StepView { simple: only(None, None, seq![w]), combinator: None }],
        ],
{
    let n = w.len() as int;
    if is_ascii_letter(w[0]) {
        lemma_ident_to_end(w, 0);
        assert(w.subrange(0, n) =~= w);
        let sel = only(Some(w), None, Seq::empty());
        assert(qualifiers(w, n, sel) == (sel, n));
        assert(simple_selector(w, 0) == (Some(sel), n));
        lemma_group_of_one_simple(w, sel);
    }
    let h = seq!['#'] + w;
    assert forall|j: int| 1 <= j < h.len() implies (#[trigger] is_ascii_letter(h[j])
        || is_ascii_digit(h[j]) || h[j] == '-' || h[j] == '_') by {
        assert(h[j] == w[j - 1]);
        assert(is_ascii_letter(w[j - 1]) || is_ascii_digit(w[j - 1]) || w[j - 1] == '-' || w[j - 1] == '_');
    }
    lemma_ident_to_end(h, 1);
    assert(h.subrange(1, n + 1) =~= w);
    let hs = only(None, Some(w), Seq::empty());
    assert(qualifiers(h, n + 1, hs) == (hs, n + 1));
    assert(qualifiers(h, 0, only(None, None, Seq::empty())) == (hs, n + 1));
    assert(simple_selector(h, 0) == (Some(hs), n + 1));
    lemma_group_of_one_simple(h, hs);
    let d = seq!['.'] + w;
    assert forall|j: int| 1 <= j < d.len() implies (#[trigger] is_ascii_letter(d[j])
        || is_ascii_digit(d[j]) || d[j] == '-' || d[j] == '_') by {
        assert(d[j] == w[j - 1]);
        assert(is_ascii_letter(w[j - 1]) || is_ascii_digit(w[j - 1]) || w[j - 1] == '-' || w[j - 1] == '_');
    }
    lemma_ident_to_end(d, 1);
    assert(d.subrange(1, n + 1) =~= w);
    let ds = only(None, None, seq![w]);
    assert(Seq::<Seq<char>>::empty().push(w) =~= seq![w]);
    assert(qualifiers(d, n + 1, ds) == (ds, n + 1));
    assert(qualifiers(d, 0, only(None, None, Seq::empty())) == (ds, n + 1));
    assert(simple_selector(d, 0) == (Some(ds), n + 1));
    lemma_group_of_one_simple(d, ds);
}


/// An element of the given tag.
pub open spec fn is_tagged(t: DomTree, x: u32, w: Seq<char>) -> bool {
    &&& t.valid(x)
    &&& t.kinds[x as int] is Element
    &&& t.kinds[x as int]->Element_tag == w
}

/// A selector word that starts with a letter selects, among any nodes, exactly the
/// elements whose tag is that word, in their order.
pub proof fn law_tag_selects_exactly(t: DomTree, w: Seq<char>, s: Seq<u32>)
    requires
        is_ascii_word(w),
        is_ascii_letter(w[0]),
    ensures
        select(t, selector_group(w), s) == s.filter(|x: u32| is_tagged(t, x, w)),
    decreases s.len(),
{
    law_selector_words(w);
    let g = selector_group(w);
    let sel = only(Some(w), None, Seq::empty());
    let st = seq![StepView { simple: sel, combinator: None }];
    let f = |x: u32| is_tagged(t, x, w);
    assert forall|x: u32| #[trigger] selected(t, g, x) == is_tagged(t, x, w) by {
        assert(g[0] == st);
        if t.valid(x) && t.kinds[x as int] is Element {
            assert(matches_from(t, x, st, 0) == simple_matches(t.kinds[x as int], sel));
            if t.kinds[x as int]->Element_tag == w {
                assert(simple_matches(t.kinds[x as int], sel));
                assert(group_matches(t, x, g));
            } else {
                assert(!simple_matches(t.kinds[x as int], sel));
                if group_matches(t, x, g) {
                    let i = choose|i: int|
                        0 <= i < g.len() && (#[trigger] g[i]).len() > 0 && matches_from(
                            t,
                            x,
                            g[i],
                            g[i].len() - 1,
                        );
                    assert(i == 0);
                }
            }
        }
    }
    if s.len() == 0 {
        assert(s.filter(f) =~= Seq::<u32>::empty()) by {
            reveal_with_fuel(Seq::filter, 1);
        }
    } else {
        law_tag_selects_exactly(t, w, s.drop_last());
        assert(s.filter(f) == s.drop_last().filter(f) + (if f(s.last()) {
            seq![s.last()]
        } else {
            Seq::<u32>::empty()
        })) by {
            reveal_with_fuel(Seq::filter, 1);
            if f(s.last()) {
                assert(s.drop_last().filter(f).push(s.last()) =~= s.drop_last().filter(f) + seq![
                    s.last(),
                ]);
            } else {
                assert(s.drop_last().filter(f) + Seq::<u32>::empty() =~= s.drop_last().filter(f));
            }
        }
        assert(selected(t, g, s.last()) == f(s.last()));
    }
}


/// Escaping text works character by character: the escape of a concatenation is the
/// concatenation of the escapes.
proof fn lemma_escaped_text_add(a: Seq<char>, b: Seq<char>)
    ensures
        escaped_text(a + b) == escaped_text(a) + escaped_text(b),
    decreases b.len(),
{
    if b.len() == 0 {
        assert(a + b =~= a);
        assert(escaped_text(a) + escaped_text(b) =~= escaped_text(a));
    } else {
        assert((a + b).drop_last() =~= a + b.drop_last());
        assert((a + b).last() == b.last());
        lemma_escaped_text_add(a, b.drop_last());
        assert(escaped_text(a + b) =~= escaped_text(a) + escaped_text(b));
    }
}

/// Escaping an attribute value works character by character.
proof fn lemma_escaped_attr_add(a: Seq<char>, b: Seq<char>)
    ensures
        escaped_attr(a + b) == escaped_attr(a) + escaped_attr(b),
    decreases b.len(),
{
    if b.len() == 0 {
        assert(a + b =~= a);
        assert(escaped_attr(a) + escaped_attr(b) =~= escaped_attr(a));
    } else {
        assert((a + b).drop_last() =~= a + b.drop_last());
        assert((a + b).last() == b.last());
        lemma_escaped_attr_add(a, b.drop_last());
        assert(escaped_attr(a + b) =~= escaped_attr(a) + escaped_attr(b));
    }
}

/// Escaping text replaces `&`, `<` and `>` by their character references, keeps every
/// other character, and works character by character; text without those three
/// characters is written as it is.
pub proof fn law_escape_text(a: Seq<char>, b: Seq<char>, c: char)
    ensures
        escaped_text(a + b) == escaped_text(a) + escaped_text(b),
        escaped_text(seq!['&']) == seq!['&', 'a', 'm', 'p', ';'],
        escaped_text(seq!['<']) == seq!['&', 'l', 't', ';'],
        escaped_text(seq!['>']) == seq!['&', 'g', 't', ';'],
        c != '&' && c != '<' && c != '>' ==> escaped_text(seq![c]) == seq![c],
        (forall|i: int| 0 <= i < a.len() ==> #[trigger] a[i] != '&' && a[i] != '<' && a[i] != '>')
            ==> escaped_text(a) == a,
    decreases a.len(),
{
    lemma_escaped_text_add(a, b);
    reveal_strlit("&amp;");
    reveal_strlit("&lt;");
    reveal_strlit("&gt;");
    assert(seq!['&'].drop_last() =~= Seq::<char>::empty());
    assert(seq!['<'].drop_last() =~= Seq::<char>::empty());
    assert(seq!['>'].drop_last() =~= Seq::<char>::empty());
    assert(seq![c].drop_last() =~= Seq::<char>::empty());
    assert("&amp;"@ =~= seq!['&', 'a', 'm', 'p', ';']);
    assert(escaped_text(Seq::<char>::empty()) == Seq::<char>::empty());
    assert(seq!['&'].last() == '&');
    assert(escaped_text(seq!['&']) =~= seq!['&', 'a', 'm', 'p', ';']);
    assert(escaped_text(seq!['<']) =~= seq!['&', 'l', 't', ';']);
    assert(escaped_text(seq!['>']) =~= seq!['&', 'g', 't', ';']);
    if c != '&' && c != '<' && c != '>' {
        assert(escaped_text(seq![c]) =~= seq![c]);
    }
    if a.len() > 0 && (forall|i: int| 0 <= i < a.len() ==> #[trigger] a[i] != '&' && a[i] != '<' && a[i] != '>') {
        let d = a.drop_last();
        assert forall|i: int| 0 <= i < d.len() implies #[trigger] d[i] != '&' && d[i] != '<' && d[i] != '>' by {
            assert(d[i] == a[i]);
        }
        law_escape_text(d, b, c);
        assert(a[a.len() - 1] == a.last());
        assert(escaped_text(a) =~= a);
    } else if a.len() == 0 {
        assert(escaped_text(a) =~= a);
    }
}

/// Escaping an attribute value replaces `&`, `<` and `"` by their character references,
/// keeps every other character, and works character by character.
pub proof fn law_escape_attr(a: Seq<char>, b: Seq<char>, c: char)
    ensures
        escaped_attr(a + b) == escaped_attr(a) + escaped_attr(b),
        escaped_attr(seq!['&']) == seq!['&', 'a', 'm', 'p', ';'],
        escaped_attr(seq!['<']) == seq!['&', 'l', 't', ';'],
        escaped_attr(seq!['"']) == seq!['&', 'q', 'u', 'o', 't', ';'],
        c != '&' && c != '<' && c != '"' ==> escaped_attr(seq![c]) == seq![c],
{
    lemma_escaped_attr_add(a, b);
    reveal_strlit("&amp;");
    reveal_strlit("&lt;");
    reveal_strlit("&quot;");
    assert(seq!['&'].drop_last() =~= Seq::<char>::empty());
    assert(seq!['<'].drop_last() =~= Seq::<char>::empty());
    assert(seq!['"'].drop_last() =~= Seq::<char>::empty());
    assert(seq![c].drop_last() =~= Seq::<char>::empty());
    assert("&amp;"@ =~= seq!['&', 'a', 'm', 'p', ';']);
    assert(escaped_attr(Seq::<char>::empty()) == Seq::<char>::empty());
    assert(seq!['&'].last() == '&');
    assert(escaped_attr(seq!['&']) =~= seq!['&', 'a', 'm', 'p', ';']);
    assert(escaped_attr(seq!['<']) =~= seq!['&', 'l', 't', ';']);
    assert(escaped_attr(seq!['"']) =~= seq!['&', 'q', 'u', 'o', 't', ';']);
    if c != '&' && c != '<' && c != '"' {
        assert(escaped_attr(seq![c]) =~= seq![c]);
    }
}


/// The text of a node itself: the data of a text node, nothing for other nodes.
pub open spec fn own_text(k: KindView) -> Seq<char> {
    match k {
        KindView::Text { data } => data,
        _ => Seq::empty(),
    }
}

/// The text contents of the first `i` children of `x`, one after another.
pub open spec fn kids_text(t: DomTree, x: u32, i: int) -> Seq<char>
    decreases i,
{
    if i <= 0 {
        Seq::empty()
    } else {
        kids_text(t, x, i - 1) + text_content(t, t.kids[x as int][i - 1])
    }
}

/// The text content computed with any fuel that reaches below a bounded subtree.
proof fn lemma_text_content_fuel(t: DomTree, x: u32, g: nat)
    requires
        t.bounded(x, g),
    ensures
        text_content(t, x) == texts(t, t.preorder(x, g)),
{
    let h = t.height(x);
    assert(t.bounded(x, h));
    if h <= g {
        t.lemma_preorder_fuel(x, h, h, g);
    } else {
        t.lemma_preorder_fuel(x, g, h, g);
    }
}

proof fn lemma_kids_text(t: DomTree, x: u32, i: int, g: nat)
    requires
        0 <= i <= t.kids[x as int].len(),
        t.kids_bounded(x, t.kids[x as int].len() as int, g),
    ensures
        texts(t, t.preorder_kids(x, i, g)) == kids_text(t, x, i),
    decreases i,
{
    if i > 0 {
        lemma_kids_text(t, x, i - 1, g);
        let c = t.kids[x as int][i - 1];
        t.lemma_kids_bounded(x, t.kids[x as int].len() as int, g, i - 1);
        lemma_text_content_fuel(t, c, g);
        lemma_texts_add(t, t.preorder_kids(x, i - 1, g), t.preorder(c, g));
    } else {
        assert(t.preorder_kids(x, i, g) =~= Seq::<u32>::empty());
    }
}

/// Text content is compositional: the text content of a node with a finite subtree is
/// its own data (for a text node) followed by the text contents of its children, in
/// order. So every text node below contributes its whole data.
pub proof fn law_text_content_compositional(t: DomTree, x: u32)
    requires
        t.finite_below(x),
    ensures
        text_content(t, x) == own_text(t.kinds[x as int]) + kids_text(
            t,
            x,
            t.kids[x as int].len() as int,
        ),
{
    let h = t.height(x);
    assert(t.bounded(x, h));
    let n = t.kids[x as int].len() as int;
    let g = (h - 1) as nat;
    lemma_kids_text(t, x, n, g);
    lemma_texts_add(t, seq![x], t.preorder_kids(x, n, g));
    assert(t.preorder(x, h) == seq![x] + t.preorder_kids(x, n, g));
    assert(seq![x].drop_last() =~= Seq::<u32>::empty());
    assert(seq![x].last() == x);
    assert(texts(t, Seq::<u32>::empty()) == Seq::<char>::empty());
    assert(texts(t, seq![x]) =~= own_text(t.kinds[x as int]));
}


/// Appended text is never lost: it is added at the end of the data of the last child
/// when that is a text node (nothing else changes), and otherwise becomes a new text
/// node, holding exactly that text and no children, appended as the last child.
pub proof fn law_append_text_keeps_text(t: DomTree, parent: u32, text: Seq<char>)
    requires
        t.consistent(),
        t.valid(parent),
        t.len() <= u32::MAX,
    ensures
        ({
            let t2 = text_appended(t, parent, text);
            let k = t.kids[parent as int];
            let n = t.len() as u32;
            if k.len() > 0 && t.kinds[k.last() as int] is Text {
                &&& t2.len() == t.len()
                &&& t2.kids == t.kids
                &&& t2.parents == t.parents
                &&& t2.kinds[k.last() as int] == KindView::Text {
                    data: t.kinds[k.last() as int]->Text_data + text,
                }
            } else {
                &&& t2.len() == t.len() + 1
                &&& t2.kids[parent as int] == k.push(n)
                &&& t2.kinds[n as int] == KindView::Text { data: text }
                &&& t2.kids[n as int] == Seq::<u32>::empty()
                &&& t2.parents[n as int] == Some(parent)
            }
        }),
{
    let k = t.kids[parent as int];
    let n = t.len() as u32;
    let t2 = text_appended(t, parent, text);
    if k.len() > 0 && t.kinds[k.last() as int] is Text {
        assert(k[k.len() - 1] < t.len());
        assert(t2.kinds.len() == t.len());
    } else {
        let t1 = t.add_node(KindView::Text { data: text });
        assert(t1.valid(parent));
        assert(t2 == t1.append(parent, n));
        assert(t1.kids[parent as int] == k);
        assert(t2.kids[n as int] == t1.kids[n as int]);
    }
}


/// Selecting with a group of one single-step selector keeps, in order, the nodes at which
/// that step's simple selector matches an element.
proof fn lemma_select_one_step(t: DomTree, sel: SimpleView, s: Seq<u32>)
    ensures
        select(t, seq![seq![StepView { simple: sel, combinator: None }]], s) == s.filter(
            |x: u32| t.valid(x) && simple_matches(t.kinds[x as int], sel),
        ),
    decreases s.len(),
{
    let st = seq![StepView { simple: sel, combinator: None }];
    let g = seq![st];
    let f = |x: u32| t.valid(x) && simple_matches(t.kinds[x as int], sel);
    assert forall|x: u32| #[trigger] selected(t, g, x) == f(x) by {
        assert(g[0] == st);
        if t.valid(x) && simple_matches(t.kinds[x as int], sel) {
            assert(matches_from(t, x, st, 0));
            assert(group_matches(t, x, g));
        } else if group_matches(t, x, g) {
            let i = choose|i: int|
                0 <= i < g.len() && (#[trigger] g[i]).len() > 0 && matches_from(
                    t,
                    x,
                    g[i],
                    g[i].len() - 1,
                );
            assert(i == 0);
        }
    }
    if s.len() == 0 {
        assert(s.filter(f) =~= Seq::<u32>::empty()) by {
            reveal_with_fuel(Seq::filter, 1);
        }
    } else {
        lemma_select_one_step(t, sel, s.drop_last());
        assert(s.filter(f) == s.drop_last().filter(f) + (if f(s.last()) {
            seq![s.last()]
        } else {
            Seq::<u32>::empty()
        })) by {
            reveal_with_fuel(Seq::filter, 1);
            if f(s.last()) {
                assert(s.drop_last().filter(f).push(s.last()) =~= s.drop_last().filter(f) + seq![
                    s.last(),
                ]);
            } else {
                assert(s.drop_last().filter(f) + Seq::<u32>::empty() =~= s.drop_last().filter(f));
            }
        }
        assert(selected(t, g, s.last()) == f(s.last()));
    }
}

/// An element whose `id` attribute (any of them) has the given value.
pub open spec fn has_id(t: DomTree, x: u32, w: Seq<char>) -> bool {
    &&& t.valid(x)
    &&& t.kinds[x as int] is Element
    &&& exists|i: int|
        0 <= i < t.kinds[x as int]->Element_attrs.len() && #[trigger] t.kinds[
            x as int]->Element_attrs[i] == (seq!['i', 'd'], w)
}

/// `#` and a selector word selects, among any nodes, exactly the elements with an `id`
/// attribute of that value; `.` and a selector word selects exactly the elements whose
/// class list has that class.
pub proof fn law_id_and_class_select_exactly(t: DomTree, w: Seq<char>, s: Seq<u32>)
    requires
        is_ascii_word(w),
    ensures
        select(t, selector_group(seq!['#'] + w), s) == s.filter(|x: u32| has_id(t, x, w)),
        select(t, selector_group(seq!['.'] + w), s) == s.filter(
            |x: u32| class_list_has(t, x, w),
        ),
{
    law_selector_words(w);
    let si = only(None, Some(w), Seq::empty());
    let sc = only(None, None, seq![w]);
    lemma_select_one_step(t, si, s);
    lemma_select_one_step(t, sc, s);
    reveal_strlit("id");
    assert(crate::selector::id_key() =~= seq!['i', 'd']);
    let fi = |x: u32| t.valid(x) && simple_matches(t.kinds[x as int], si);
    let gi = |x: u32| has_id(t, x, w);
    assert(fi =~= gi) by {
        assert forall|x: u32| #[trigger] fi(x) == gi(x) by {
            if t.valid(x) && t.kinds[x as int] is Element {
                let attrs = t.kinds[x as int]->Element_attrs;
                assert(simple_matches(t.kinds[x as int], si) == crate::node::has_attr_value(
                    attrs,
                    seq!['i', 'd'],
                    w,
                ));
            }
        }
    }
    let fc = |x: u32| t.valid(x) && simple_matches(t.kinds[x as int], sc);
    let gc = |x: u32| class_list_has(t, x, w);
    assert(fc =~= gc) by {
        assert forall|x: u32| #[trigger] fc(x) == gc(x) by {
            if t.valid(x) && t.kinds[x as int] is Element {
                let attrs = t.kinds[x as int]->Element_attrs;
                assert(sc.classes[0] == w);
                if simple_matches(t.kinds[x as int], sc) {
                    assert(words(class_attr(attrs)).contains(sc.classes[0]));
                }
            }
        }
    }
}


/// The HTML of the whole subtree at `x`.
pub open spec fn html_of(t: DomTree, x: u32) -> Seq<char> {
    node_html(t, x, t.height(x))
}

/// The HTML of the first `i` children of `x`, one after another.
pub open spec fn kids_html_of(t: DomTree, x: u32, i: int) -> Seq<char>
    decreases i,
{
    if i <= 0 {
        Seq::empty()
    } else {
        kids_html_of(t, x, i - 1) + html_of(t, t.kids[x as int][i - 1])
    }
}

proof fn lemma_html_of_fuel(t: DomTree, x: u32, g: nat)
    requires
        t.bounded(x, g),
    ensures
        html_of(t, x) == node_html(t, x, g),
{
    let h = t.height(x);
    assert(t.bounded(x, h));
    if h <= g {
        crate::serialize::lemma_html_fuel_bounded(t, x, h, h, g);
    } else {
        crate::serialize::lemma_html_fuel_bounded(t, x, g, h, g);
    }
}

proof fn lemma_kids_html_of(t: DomTree, x: u32, i: int, g: nat)
    requires
        0 <= i <= t.kids[x as int].len(),
        t.kids_bounded(x, t.kids[x as int].len() as int, g),
    ensures
        kids_html(t, x, i, g) == kids_html_of(t, x, i),
    decreases i,
{
    if i > 0 {
        lemma_kids_html_of(t, x, i - 1, g);
        t.lemma_kids_bounded(x, t.kids[x as int].len() as int, g, i - 1);
        lemma_html_of_fuel(t, t.kids[x as int][i - 1], g);
    }
}

/// Serialization is compositional: the HTML of a node with a finite subtree is made of
/// the HTML of its children, in order, wrapped as its kind asks (a document is its
/// children; an element is its start tag with its attributes, then, unless it is void,
/// its children and its end tag; text is escaped; a comment and a doctype are written
/// with their markers). The inner HTML of a node is the HTML of its children in order.
pub proof fn law_html_compositional(t: DomTree, x: u32)
    requires
        t.finite_below(x),
    ensures
        inner_html(t, x) == kids_html_of(t, x, t.kids[x as int].len() as int),
        html_of(t, x) == match t.kinds[x as int] {
            KindView::Document => kids_html_of(t, x, t.kids[x as int].len() as int),
            KindView::DocumentType { name, .. } => "<!DOCTYPE "@ + name + ">"@,
            KindView::Element { tag, attrs } => "<"@ + tag + attrs_html(attrs) + ">"@ + if is_void_tag(
                tag,
            ) {
                Seq::empty()
            } else {
                kids_html_of(t, x, t.kids[x as int].len() as int) + "</"@ + tag + ">"@
            },
            KindView::Text { data } => escaped_text(data),
            KindView::Comment { data } => "<!--"@ + data + "-->"@,
        },
{
    let h = t.height(x);
    assert(t.bounded(x, h));
    let n = t.kids[x as int].len() as int;
    let g = (h - 1) as nat;
    lemma_kids_html_of(t, x, n, g);
}

/// The attributes of a start tag are written one after another, each as a blank, its
/// name, `="`, its escaped value and `"`.
pub proof fn law_attrs_html(
    a: Seq<(Seq<char>, Seq<char>)>,
    b: Seq<(Seq<char>, Seq<char>)>,
    k: Seq<char>,
    v: Seq<char>,
)
    ensures
        attrs_html(a + b) == attrs_html(a) + attrs_html(b),
        attrs_html(seq![(k, v)]) == seq![' '] + k + seq!['=', '"'] + escaped_attr(v) + seq!['"'],
    decreases b.len(),
{
    if b.len() == 0 {
        assert(a + b =~= a);
        assert(attrs_html(a) + attrs_html(b) =~= attrs_html(a));
    } else {
        assert((a + b).drop_last() =~= a + b.drop_last());
        assert((a + b).last() == b.last());
        law_attrs_html(a, b.drop_last(), k, v);
        assert(attrs_html(a + b) =~= attrs_html(a) + attrs_html(b));
    }
    reveal_strlit(" ");
    reveal_strlit("=\"");
    reveal_strlit("\"");
    assert(seq![(k, v)].drop_last() =~= Seq::<(Seq<char>, Seq<char>)>::empty());
    assert(attrs_html(Seq::<(Seq<char>, Seq<char>)>::empty()) == Seq::<char>::empty());
    assert(attrs_html(seq![(k, v)]) =~= seq![' '] + k + seq!['=', '"'] + escaped_attr(v) + seq![
        '"',
    ]);
}

/// What `serialize` writes for a document is the HTML of the subtree at its root.
pub proof fn law_serialize_is_root_html(t: DomTree, root: u32)
    requires
        t.consistent(),
        t.valid(root),
        t.parents[root as int] is None,
    ensures
        node_html(t, root, t.len()) == html_of(t, root),
        t.finite_below(root),
{
    assert(t.depth_is(root, 0));
    t.lemma_anchored_bounded(root, 0);
    lemma_html_of_fuel(t, root, t.len());
}


/// A run of word characters is read up to the first character that is not one.
proof fn lemma_ident_until(s: Seq<char>, i: int, e: int)
    requires
        0 <= i <= e <= s.len(),
        forall|j: int|
            i <= j < e ==> (#[trigger] is_ascii_letter(s[j]) || is_ascii_digit(s[j]) || s[j] == '-'
                || s[j] == '_'),
        e == s.len() || !is_ident_char(s[e]),
    ensures
        ident_end(s, i) == e,
    decreases e - i,
{
    if i < e {
        assert(is_ascii_letter(s[i]) || is_ascii_digit(s[i]) || s[i] == '-' || s[i] == '_');
        assert(is_ident_char(s[i]));
        lemma_ident_until(s, i + 1, e);
    }
}

/// The tag selector for a word starting with a letter, read from `i` in a longer string
/// up to a blank at `e`.
proof fn lemma_tag_at(s: Seq<char>, i: int, w: Seq<char>)
    requires
        is_ascii_word(w),
        is_ascii_letter(w[0]),
        0 <= i,
        i + w.len() <= s.len(),
        s.subrange(i, i + w.len()) == w,
        i + w.len() == s.len() || s[i + w.len()] == ' ',
    ensures
        simple_selector(s, i) == (Some(only(Some(w), None, Seq::empty())), i + w.len()),
{
    let e = i + w.len();
    assert forall|j: int| i <= j < e implies (#[trigger] is_ascii_letter(s[j]) || is_ascii_digit(
        s[j],
    ) || s[j] == '-' || s[j] == '_') by {
        assert(s[j] == s.subrange(i, e)[j - i]);
        assert(is_ascii_letter(w[j - i]) || is_ascii_digit(w[j - i]) || w[j - i] == '-' || w[j - i] == '_');
    }
    assert(s[i] == w[0]);
    if e < s.len() {
        assert(!is_ident_char(s[e]));
    }
    lemma_ident_until(s, i, e);
    let sel = only(Some(w), None, Seq::empty());
    assert(qualifiers(s, e, sel) == (sel, e));
}

/// The elements of tag `w` whose parent is an element of tag `u`.
pub open spec fn is_tagged_child(t: DomTree, x: u32, u: Seq<char>, w: Seq<char>) -> bool {
    &&& is_tagged(t, x, w)
    &&& t.parents[x as int] is Some
    &&& is_tagged(t, t.parents[x as int]->0, u)
}

/// The elements of tag `w` with an element of tag `u` somewhere above them.
pub open spec fn is_tagged_descendant(t: DomTree, x: u32, u: Seq<char>, w: Seq<char>) -> bool {
    &&& is_tagged(t, x, w)
    &&& exists|k: nat| k >= 1 && (#[trigger] t.up(x, k)) is Some && is_tagged(t, t.up(x, k)->0, u)
}

/// `u > w` selects, among any nodes, exactly the elements of tag `w` whose parent is an
/// element of tag `u`; `u w` exactly those with an element of tag `u` among their
/// ancestors.
pub proof fn law_combinators_select(t: DomTree, u: Seq<char>, w: Seq<char>, s: Seq<u32>)
    requires
        is_ascii_word(u),
        is_ascii_letter(u[0]),
        is_ascii_word(w),
        is_ascii_letter(w[0]),
    ensures
        select(t, selector_group(u + seq![' ', '>', ' '] + w), s) == s.filter(
            |x: u32| is_tagged_child(t, x, u, w),
        ),
        select(t, selector_group(u + seq![' '] + w), s) == s.filter(
            |x: u32| is_tagged_descendant(t, x, u, w),
        ),
{
    let su = only(Some(u), None, Seq::empty());
    let sw = only(Some(w), None, Seq::empty());
    let st0 = seq![StepView { simple: su, combinator: None }];
    let stc = st0.push(StepView { simple: sw, combinator: Some(Combinator::Child) });
    let std = st0.push(StepView { simple: sw, combinator: Some(Combinator::Descendant) });
    lemma_child_group(u, w);
    lemma_descendant_group(u, w);
    lemma_select_two_steps(t, u, w, stc, s, true, |x: u32| is_tagged_child(t, x, u, w));
    lemma_select_two_steps(t, u, w, std, s, false, |x: u32| is_tagged_descendant(t, x, u, w));
}

/// `u > w` is one complex selector: tag `u`, then tag `w` joined by `>`.
proof fn lemma_child_group(u: Seq<char>, w: Seq<char>)
    requires
        is_ascii_word(u),
        is_ascii_letter(u[0]),
        is_ascii_word(w),
        is_ascii_letter(w[0]),
    ensures
        selector_group(u + seq![' ', '>', ' '] + w) == seq![
            seq![StepView { simple: only(Some(u), None, Seq::empty()), combinator: None }].push(
                StepView {
                    simple: only(Some(w), None, Seq::empty()),
                    combinator: Some(Combinator::Child),
                },
            ),
        ],
{
    let su = only(Some(u), None, Seq::empty());
    let sw = only(Some(w), None, Seq::empty());
    let nu = u.len() as int;
    let st0 = seq![StepView { simple: su, combinator: None }];
    let a = u + seq![' ', '>', ' '] + w;
    let n = a.len() as int;
    assert(a.subrange(0, nu) =~= u);
    assert(a.subrange(nu + 3, n) =~= w);
    assert(a[nu] == ' ' && a[nu + 1] == '>' && a[nu + 2] == ' ');
    assert(a[0] == u[0]);
    lemma_tag_at(a, 0, u);
    lemma_tag_at(a, nu + 3, w);
    let stc = st0.push(StepView { simple: sw, combinator: Some(Combinator::Child) });
    assert(skip_ws(a, nu + 3) == nu + 3) by {
        assert(a[nu + 3] == w[0]);
    }
    assert(skip_ws(a, nu + 1) == nu + 1);
    assert(skip_ws(a, nu + 2) == nu + 3);
    assert(skip_ws(a, nu) == nu + 1);
    assert(steps_from(a, n, stc) == (stc, n));
    assert(steps_from(a, nu, st0) == (stc, n));
    assert(skip_ws(a, 0) == 0);
    assert(complex_selector(a, 0) == (Some(stc), n));
    assert(skip_ws(a, n) == n);
    assert(selector_group(a) =~= seq![stc]);
}

/// `u w` is one complex selector: tag `u`, then tag `w` joined by a blank.
proof fn lemma_descendant_group(u: Seq<char>, w: Seq<char>)
    requires
        is_ascii_word(u),
        is_ascii_letter(u[0]),
        is_ascii_word(w),
        is_ascii_letter(w[0]),
    ensures
        selector_group(u + seq![' '] + w) == seq![
            seq![StepView { simple: only(Some(u), None, Seq::empty()), combinator: None }].push(
                StepView {
                    simple: only(Some(w), None, Seq::empty()),
                    combinator: Some(Combinator::Descendant),
                },
            ),
        ],
{
    let su = only(Some(u), None, Seq::empty());
    let sw = only(Some(w), None, Seq::empty());
    let nu = u.len() as int;
    let st0 = seq![StepView { simple: su, combinator: None }];
    let b = u + seq![' '] + w;
    let m = b.len() as int;
    assert(b.subrange(0, nu) =~= u);
    assert(b.subrange(nu + 1, m) =~= w);
    assert(b[nu] == ' ');
    assert(b[0] == u[0]);
    lemma_tag_at(b, 0, u);
    lemma_tag_at(b, nu + 1, w);
    let std = st0.push(StepView { simple: sw, combinator: Some(Combinator::Descendant) });
    assert(skip_ws(b, nu + 1) == nu + 1) by {
        assert(b[nu + 1] == w[0]);
    }
    assert(skip_ws(b, nu) == nu + 1);
    assert(steps_from(b, m, std) == (std, m));
    assert(steps_from(b, nu, st0) == (std, m));
    assert(skip_ws(b, 0) == 0);
    assert(complex_selector(b, 0) == (Some(std), m));
    assert(skip_ws(b, m) == m);
    assert(selector_group(b) =~= seq![std]);
}

/// Selecting with one two-step selector `u > w` (`child`) or `u w` keeps, in order, the
/// nodes that are tagged elements in the required relation.
proof fn lemma_select_two_steps(
    t: DomTree,
    u: Seq<char>,
    w: Seq<char>,
    st: Seq<StepView>,
    s: Seq<u32>,
    child: bool,
    f: spec_fn(u32) -> bool,
)
    requires
        forall|x: u32|
            #[trigger] f(x) == (if child {
                is_tagged_child(t, x, u, w)
            } else {
                is_tagged_descendant(t, x, u, w)
            }),
        st == seq![StepView { simple: only(Some(u), None, Seq::empty()), combinator: None }].push(
            StepView {
                simple: only(Some(w), None, Seq::empty()),
                combinator: Some(
                    if child {
                        Combinator::Child
                    } else {
                        Combinator::Descendant
                    },
                ),
            },
        ),
    ensures
        select(t, seq![st], s) == s.filter(f),
    decreases s.len(),
{
    let g = seq![st];
    let su = only(Some(u), None, Seq::empty());
    let sw = only(Some(w), None, Seq::empty());
    assert forall|y: u32| #[trigger] matches_from(t, y, st, 0) == is_tagged(t, y, u) by {
        if t.valid(y) && t.kinds[y as int] is Element {
            assert(simple_matches(t.kinds[y as int], su) == (t.kinds[y as int]->Element_tag == u));
        }
    }
    assert(st.len() == 2);
    assert(st[0].simple == su);
    assert(st[1].simple == sw);
    assert(st[1].combinator == Some(
        if child {
            Combinator::Child
        } else {
            Combinator::Descendant
        },
    ));
    assert forall|x: u32| #[trigger] selected(t, g, x) == f(x) by {
        assert(g[0] == st);
        assert(group_matches(t, x, g) == matches_from(t, x, st, 1)) by {
            if group_matches(t, x, g) {
                let i = choose|i: int|
                    0 <= i < g.len() && (#[trigger] g[i]).len() > 0 && matches_from(
                        t,
                        x,
                        g[i],
                        g[i].len() - 1,
                    );
                assert(i == 0);
            }
        }
        if t.valid(x) && t.kinds[x as int] is Element {
            assert(simple_matches(t.kinds[x as int], sw) == (t.kinds[x as int]->Element_tag == w));
        }
        if child {
            assert(matches_from(t, x, st, 1) == (t.valid(x) && simple_matches(t.kinds[x as int], sw)
                && match t.parents[x as int] {
                Some(p) => matches_from(t, p, st, 0),
                None => false,
            }));
            if let Some(p) = t.parents[x as int] {
                assert(matches_from(t, p, st, 0) == is_tagged(t, p, u));
            }
        }
        if !child && is_tagged_descendant(t, x, u, w) {
            let k = choose|k: nat|
                k >= 1 && (#[trigger] t.up(x, k)) is Some && is_tagged(t, t.up(x, k)->0, u);
            assert(matches_from(t, t.up(x, k)->0, st, 0));
        }
        if !child && matches_from(t, x, st, 1) {
            let k = choose|k: nat|
                k >= 1 && (#[trigger] t.up(x, k)) is Some && matches_from(
                    t,
                    t.up(x, k)->0,
                    st,
                    0,
                );
            assert(is_tagged(t, t.up(x, k)->0, u));
        }
    }
    if s.len() == 0 {
        assert(s.filter(f) =~= Seq::<u32>::empty()) by {
            reveal_with_fuel(Seq::filter, 1);
        }
    } else {
        lemma_select_two_steps(t, u, w, st, s.drop_last(), child, f);
        assert(s.filter(f) == s.drop_last().filter(f) + (if f(s.last()) {
            seq![s.last()]
        } else {
            Seq::<u32>::empty()
        })) by {
            reveal_with_fuel(Seq::filter, 1);
            if f(s.last()) {
                assert(s.drop_last().filter(f).push(s.last()) =~= s.drop_last().filter(f) + seq![
                    s.last(),
                ]);
            } else {
                assert(s.drop_last().filter(f) + Seq::<u32>::empty() =~= s.drop_last().filter(f));
            }
        }
        assert(selected(t, g, s.last()) == f(s.last()));
    }
}


/// Attribute-name characters are read up to the first one that is not.
proof fn lemma_attr_name_until(s: Seq<char>, i: int, e: int)
    requires
        0 <= i <= e < s.len(),
        forall|j: int|
            i <= j < e ==> (#[trigger] is_ascii_letter(s[j]) || is_ascii_digit(s[j]) || s[j] == '-'
                || s[j] == '_'),
        s[e] == '=' || s[e] == ']',
    ensures
        attr_name_end(s, i) == e,
    decreases e - i,
{
    if i < e {
        assert(is_ascii_letter(s[i]) || is_ascii_digit(s[i]) || s[i] == '-' || s[i] == '_');
        lemma_attr_name_until(s, i + 1, e);
    }
}

/// A quoted value is read up to its closing quote.
proof fn lemma_quote_until(s: Seq<char>, i: int, e: int, q: char)
    requires
        0 <= i <= e < s.len(),
        forall|j: int| i <= j < e ==> #[trigger] s[j] != q,
        s[e] == q,
    ensures
        quote_end(s, i, q) == e,
    decreases e - i,
{
    if i < e {
        lemma_quote_until(s, i + 1, e, q);
    }
}

/// `[name]` asks for an attribute of that name, and `[name="value"]` for an attribute
/// of that name with exactly that value (any value without a double quote): in each
/// case one complex selector of one step, with nothing else asked.
pub proof fn law_attribute_selectors(n: Seq<char>, v: Seq<char>)
    requires
        is_ascii_word(n),
        forall|i: int| 0 <= i < v.len() ==> #[trigger] v[i] != '"',
    ensures
        selector_group(seq!['['] + n + seq![']']) == seq![
            seq![
                StepView {
                    simple: SimpleView {
                        tag: None,
                        id: None,
                        classes: Seq::empty(),
                        attrs: seq![AttrView { name: n, value: None }],
                    },
                    combinator: None,
                },
            ],
        ],
        selector_group(seq!['['] + n + seq!['=', '"'] + v + seq!['"', ']']) == seq![
            seq![
                StepView {
                    simple: SimpleView {
                        tag: None,
                        id: None,
                        classes: Seq::empty(),
                        attrs: seq![AttrView { name: n, value: Some(v) }],
                    },
                    combinator: None,
                },
            ],
        ],
{
    let k = n.len() as int;
    let e0 = only(None, None, Seq::empty());
    // `[name]`
    let a = seq!['['] + n + seq![']'];
    assert(a.len() == k + 2);
    assert forall|j: int| 1 <= j < k + 1 implies (#[trigger] is_ascii_letter(a[j]) || is_ascii_digit(
        a[j],
    ) || a[j] == '-' || a[j] == '_') by {
        assert(a[j] == n[j - 1]);
        assert(is_ascii_letter(n[j - 1]) || is_ascii_digit(n[j - 1]) || n[j - 1] == '-' || n[j - 1] == '_');
    }
    assert(a[k + 1] == ']');
    assert(a[1] == n[0]);
    assert(is_ascii_letter(n[0]) || is_ascii_digit(n[0]) || n[0] == '-' || n[0] == '_');
    lemma_attr_name_until(a, 1, k + 1);
    assert(a.subrange(1, k + 1) =~= n);
    assert(skip_ws(a, 1) == 1);
    assert(skip_ws(a, k + 1) == k + 1);
    let av = AttrView { name: n, value: None };
    assert(attr_qualifier(a, 0) == (Some(av), k + 2));
    let sa = SimpleView { attrs: seq![av], ..e0 };
    assert(Seq::<AttrView>::empty().push(av) =~= seq![av]);
    assert(qualifiers(a, k + 2, sa) == (sa, k + 2));
    assert(qualifiers(a, 0, e0) == (sa, k + 2));
    assert(simple_selector(a, 0) == (Some(sa), k + 2));
    lemma_group_of_one_simple(a, sa);
    // `[name="value"]`
    let m = v.len() as int;
    let b = seq!['['] + n + seq!['=', '"'] + v + seq!['"', ']'];
    assert(b.len() == k + m + 5);
    assert forall|j: int| 1 <= j < k + 1 implies (#[trigger] is_ascii_letter(b[j]) || is_ascii_digit(
        b[j],
    ) || b[j] == '-' || b[j] == '_') by {
        assert(b[j] == n[j - 1]);
        assert(is_ascii_letter(n[j - 1]) || is_ascii_digit(n[j - 1]) || n[j - 1] == '-' || n[j - 1] == '_');
    }
    assert(b[k + 1] == '=');
    assert(b[k + 2] == '"');
    assert(b[k + m + 3] == '"');
    assert(b[k + m + 4] == ']');
    assert(b[1] == n[0]);
    lemma_attr_name_until(b, 1, k + 1);
    assert(b.subrange(1, k + 1) =~= n);
    assert forall|j: int| k + 3 <= j < k + m + 3 implies #[trigger] b[j] != '"' by {
        assert(b[j] == v[j - k - 3]);
    }
    lemma_quote_until(b, k + 3, k + m + 3, '"');
    assert(b.subrange(k + 3, k + m + 3) =~= v);
    assert(skip_ws(b, 1) == 1);
    assert(skip_ws(b, k + 1) == k + 1);
    assert(skip_ws(b, k + 2) == k + 2);
    assert(attr_value(b, k + 2) == (v, k + m + 4));
    assert(skip_ws(b, k + m + 4) == k + m + 4);
    let bv = AttrView { name: n, value: Some(v) };
    assert(attr_qualifier(b, 0) == (Some(bv), k + m + 5));
    let sb = SimpleView { attrs: seq![bv], ..e0 };
    assert(Seq::<AttrView>::empty().push(bv) =~= seq![bv]);
    assert(qualifiers(b, k + m + 5, sb) == (sb, k + m + 5));
    assert(qualifiers(b, 0, e0) == (sb, k + m + 5));
    assert(simple_selector(b, 0) == (Some(sb), k + m + 5));
    lemma_group_of_one_simple(b, sb);
}


/// An element with an attribute of the given name.
pub open spec fn has_named_attr(t: DomTree, x: u32, n: Seq<char>) -> bool {
    &&& t.valid(x)
    &&& t.kinds[x as int] is Element
    &&& exists|i: int|
        0 <= i < t.kinds[x as int]->Element_attrs.len() && (#[trigger] t.kinds[
            x as int]->Element_attrs[i]).0 == n
}

/// An element with an attribute of the given name and value.
pub open spec fn has_attr_pair(t: DomTree, x: u32, n: Seq<char>, v: Seq<char>) -> bool {
    &&& t.valid(x)
    &&& t.kinds[x as int] is Element
    &&& exists|i: int|
        0 <= i < t.kinds[x as int]->Element_attrs.len() && #[trigger] t.kinds[
            x as int]->Element_attrs[i] == (n, v)
}

/// `[name]` selects, among any nodes, exactly the elements with an attribute of that
/// name, and `[name="value"]` exactly those with an attribute of that name and value.
pub proof fn law_attribute_selectors_select(t: DomTree, n: Seq<char>, v: Seq<char>, s: Seq<u32>)
    requires
        is_ascii_word(n),
        forall|i: int| 0 <= i < v.len() ==> #[trigger] v[i] != '"',
    ensures
        select(t, selector_group(seq!['['] + n + seq![']']), s) == s.filter(
            |x: u32| has_named_attr(t, x, n),
        ),
        select(t, selector_group(seq!['['] + n + seq!['=', '"'] + v + seq!['"', ']']), s)
            == s.filter(|x: u32| has_attr_pair(t, x, n, v)),
{
    law_attribute_selectors(n, v);
    let a1 = AttrView { name: n, value: None };
    let a2 = AttrView { name: n, value: Some(v) };
    let s1 = SimpleView { tag: None, id: None, classes: Seq::empty(), attrs: seq![a1] };
    let s2 = SimpleView { tag: None, id: None, classes: Seq::empty(), attrs: seq![a2] };
    lemma_select_one_step(t, s1, s);
    lemma_select_one_step(t, s2, s);
    let f1 = |x: u32| t.valid(x) && simple_matches(t.kinds[x as int], s1);
    let g1 = |x: u32| has_named_attr(t, x, n);
    assert(f1 =~= g1) by {
        assert forall|x: u32| #[trigger] f1(x) == g1(x) by {
            if t.valid(x) && t.kinds[x as int] is Element {
                assert(s1.attrs[0] == a1);
                assert(simple_matches(t.kinds[x as int], s1) == crate::node::has_attr(
                    t.kinds[x as int]->Element_attrs,
                    n,
                ));
            }
        }
    }
    let f2 = |x: u32| t.valid(x) && simple_matches(t.kinds[x as int], s2);
    let g2 = |x: u32| has_attr_pair(t, x, n, v);
    assert(f2 =~= g2) by {
        assert forall|x: u32| #[trigger] f2(x) == g2(x) by {
            if t.valid(x) && t.kinds[x as int] is Element {
                assert(s2.attrs[0] == a2);
                assert(simple_matches(t.kinds[x as int], s2) == crate::node::has_attr_value(
                    t.kinds[x as int]->Element_attrs,
                    n,
                    v,
                ));
            }
        }
    }
}

/// The void elements, written without children or end tag, are exactly the fifteen of
/// HTML: area, base, br, col, embed, hr, img, input, keygen, link, meta, param, source,
/// track and wbr.
pub proof fn law_void_tags(tag: Seq<char>)
    ensures
        is_void_tag(tag) <==> seq![
            "area"@,
            "base"@,
            "br"@,
            "col"@,
            "embed"@,
            "hr"@,
            "img"@,
            "input"@,
            "keygen"@,
            "link"@,
            "meta"@,
            "param"@,
            "source"@,
            "track"@,
            "wbr"@,
        ].contains(tag),
{
    let l = seq![
        "area"@,
        "base"@,
        "br"@,
        "col"@,
        "embed"@,
        "hr"@,
        "img"@,
        "input"@,
        "keygen"@,
        "link"@,
        "meta"@,
        "param"@,
        "source"@,
        "track"@,
        "wbr"@,
    ];
    if l.contains(tag) {
        let i = l.index_of(tag);
        assert(l[i] == tag);
    }
    if is_void_tag(tag) {
        assert(l[0] == "area"@);
        assert(l[1] == "base"@);
        assert(l[2] == "br"@);
        assert(l[3] == "col"@);
        assert(l[4] == "embed"@);
        assert(l[5] == "hr"@);
        assert(l[6] == "img"@);
        assert(l[7] == "input"@);
        assert(l[8] == "keygen"@);
        assert(l[9] == "link"@);
        assert(l[10] == "meta"@);
        assert(l[11] == "param"@);
        assert(l[12] == "source"@);
        assert(l[13] == "track"@);
        assert(l[14] == "wbr"@);
    }
}

} // verus!
