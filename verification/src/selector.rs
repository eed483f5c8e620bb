use vstd::prelude::*;

use crate::arena::{lemma_child_ok, lemma_node_ok, lemma_wf_consistent, Arena};
use crate::tree::parent_of;
use crate::model::DomTree;
use crate::node::{
    attr_lookup, attrs_have, attrs_have_value, attrs_view, find_attr, has_attr, has_attr_value,
    lemma_attr_pos, KindView, NodeKind,
};
use crate::text::{str_chars, words, words_contain};
use crate::text::char_is_alphanumeric;
use crate::text::{char_is_alphabetic, is_ascii_digit, is_ascii_letter};
use crate::text::{is_alphabetic, is_alphanumeric, lemma_subrange_push, push_char};

verus! {

// ── Data structures ──────────────────────────────────────────────────────────

#[derive(Debug, Clone, PartialEq)]
pub struct AttrSelector {
    pub name: String,
    pub value: Option<String>,
}

#[derive(Debug, Clone, PartialEq)]
pub struct SimpleSelector {
    /// `None` means universal (`*`).
    pub tag: Option<String>,
    pub id: Option<String>,
    pub classes: Vec<String>,
    pub attrs: Vec<AttrSelector>,
}

#[derive(Debug, Clone, Copy, PartialEq, Eq, Structural)]
pub enum Combinator {
    /// Whitespace – any ancestor.
    Descendant,
    /// `>` – direct parent only.
    Child,
}

/// One step in a complex selector.
/// `combinator` describes how this step relates to the *previous* step (`None` for leftmost).
#[derive(Debug, Clone)]
pub struct ComplexStep {
    pub simple: SimpleSelector,
    pub combinator: Option<Combinator>,
}

/// A chained sequence of simple selectors joined by combinators.
#[derive(Debug, Clone)]
pub struct ComplexSelector {
    pub steps: Vec<ComplexStep>,
}

/// Comma-separated group of complex selectors.
pub type SelectorGroup = Vec<ComplexSelector>;

// ── Mathematical values ──────────────────────────────────────────────────────

pub struct AttrView {
    pub name: Seq<char>,
    pub value: Option<Seq<char>>,
}

pub struct SimpleView {
    pub tag: Option<Seq<char>>,
    pub id: Option<Seq<char>>,
    pub classes: Seq<Seq<char>>,
    pub attrs: Seq<AttrView>,
}

pub struct StepView {
    pub simple: SimpleView,
    pub combinator: Option<Combinator>,
}

pub open spec fn opt_chars(o: Option<String>) -> Option<Seq<char>> {
    match o {
        Some(s) => Some(s@),
        None => None,
    }
}

impl View for AttrSelector {
    type V = AttrView;

    open spec fn view(&self) -> AttrView {
        AttrView { name: self.name@, value: opt_chars(self.value) }
    }
}

impl View for SimpleSelector {
    type V = SimpleView;

    open spec fn view(&self) -> SimpleView {
        SimpleView {
            tag: opt_chars(self.tag),
            id: opt_chars(self.id),
            classes: self.classes@.map_values(|c: String| c@),
            attrs: self.attrs@.map_values(|a: AttrSelector| a@),
        }
    }
}

impl View for ComplexStep {
    type V = StepView;

    open spec fn view(&self) -> StepView {
        StepView { simple: self.simple@, combinator: self.combinator }
    }
}

impl View for ComplexSelector {
    type V = Seq<StepView>;

    open spec fn view(&self) -> Seq<StepView> {
        self.steps@.map_values(|s: ComplexStep| s@)
    }
}

pub open spec fn group_view(g: Seq<ComplexSelector>) -> Seq<Seq<StepView>> {
    g.map_values(|c: ComplexSelector| c@)
}

// ── Grammar ──────────────────────────────────────────────────────────────────
// Each function reads `s` from position `i` and says where reading stops.

/// The blanks a selector may hold between its parts.
pub open spec fn is_space(c: char) -> bool {
    c == ' ' || c == '\t' || c == '\n' || c == '\r'
}

/// The characters of tag names, ids and class names.
pub open spec fn is_ident_char(c: char) -> bool {
    ||| c == '-'
    ||| c == '_'
    ||| if (c as u32) < 128 {
        is_ascii_letter(c) || is_ascii_digit(c)
    } else {
        char_is_alphanumeric(c)
    }
}

/// The characters a tag name may start with: the alphabetic ones (for ASCII, the letters).
pub open spec fn is_tag_start(c: char) -> bool {
    if (c as u32) < 128 {
        is_ascii_letter(c)
    } else {
        char_is_alphabetic(c)
    }
}

/// The characters of an attribute name in `[name=value]`.
pub open spec fn is_attr_name_char(c: char) -> bool {
    !(c == '=' || c == ']' || c == ' ' || c == '\t')
}

/// The characters of an unquoted attribute value.
pub open spec fn is_bare_value_char(c: char) -> bool {
    !(c == ']' || c == ' ' || c == '\t')
}

/// The first position at or after `i` that does not hold white space.
pub open spec fn skip_ws(s: Seq<char>, i: int) -> int
    decreases s.len() - i,
{
    if 0 <= i < s.len() && is_space(s[i]) {
        skip_ws(s, i + 1)
    } else {
        i
    }
}

/// The end of the run of identifier characters starting at `i`.
pub open spec fn ident_end(s: Seq<char>, i: int) -> int
    decreases s.len() - i,
{
    if 0 <= i < s.len() && is_ident_char(s[i]) {
        ident_end(s, i + 1)
    } else {
        i
    }
}

/// The end of the run of attribute-name characters starting at `i`.
pub open spec fn attr_name_end(s: Seq<char>, i: int) -> int
    decreases s.len() - i,
{
    if 0 <= i < s.len() && is_attr_name_char(s[i]) {
        attr_name_end(s, i + 1)
    } else {
        i
    }
}

/// The end of the run of unquoted attribute-value characters starting at `i`.
pub open spec fn bare_value_end(s: Seq<char>, i: int) -> int
    decreases s.len() - i,
{
    if 0 <= i < s.len() && is_bare_value_char(s[i]) {
        bare_value_end(s, i + 1)
    } else {
        i
    }
}

/// The first position at or after `i` holding the quote `q` (or the end).
pub open spec fn quote_end(s: Seq<char>, i: int, q: char) -> int
    decreases s.len() - i,
{
    if 0 <= i < s.len() && s[i] != q {
        quote_end(s, i + 1, q)
    } else {
        i
    }
}

/// Each scan ends between its start and the end of the input.
pub proof fn lemma_scans(s: Seq<char>, i: int)
    requires
        0 <= i <= s.len(),
    ensures
        i <= skip_ws(s, i) <= s.len(),
        i <= ident_end(s, i) <= s.len(),
        i <= attr_name_end(s, i) <= s.len(),
        i <= bare_value_end(s, i) <= s.len(),
        forall|q: char| i <= #[trigger] quote_end(s, i, q) <= s.len(),
    decreases s.len() - i,
{
    if i < s.len() {
        lemma_scans(s, i + 1);
        assert forall|q: char| i <= #[trigger] quote_end(s, i, q) <= s.len() by {
            if s[i] != q {
                assert(quote_end(s, i, q) == quote_end(s, i + 1, q));
            }
        }
    }
}

/// The value after `[name=`: quoted with `"` or `'` (the closing quote is
/// consumed when present), or bare up to `]` or a blank.
pub open spec fn attr_value(s: Seq<char>, i: int) -> (Seq<char>, int) {
    if 0 <= i < s.len() && (s[i] == '"' || s[i] == '\'') {
        let j = quote_end(s, i + 1, s[i]);
        (s.subrange(i + 1, j), if j < s.len() {
            j + 1
        } else {
            j
        })
    } else {
        let j = bare_value_end(s, i);
        (s.subrange(i, j), j)
    }
}

/// An attribute qualifier whose `[` is at `i`: the selector it adds (if its name
/// is not empty) and where it ends.
pub open spec fn attr_qualifier(s: Seq<char>, i: int) -> (Option<AttrView>, int) {
    let a = skip_ws(s, i + 1);
    let e = attr_name_end(s, a);
    let name = s.subrange(a, e);
    let b = skip_ws(s, e);
    let (value, f) = if b < s.len() && s[b] == '=' {
        let (v, d) = attr_value(s, skip_ws(s, b + 1));
        (Some(v), d)
    } else {
        (None, b)
    };
    let g = skip_ws(s, f);
    let h = if g < s.len() && s[g] == ']' {
        g + 1
    } else {
        g
    };
    (if name.len() > 0 {
        Some(AttrView { name, value })
    } else {
        None
    }, h)
}

pub proof fn lemma_attr_qualifier(s: Seq<char>, i: int)
    requires
        0 <= i < s.len(),
    ensures
        i < attr_qualifier(s, i).1 <= s.len(),
{
    let a = skip_ws(s, i + 1);
    lemma_scans(s, i + 1);
    lemma_scans(s, a);
    let e = attr_name_end(s, a);
    lemma_scans(s, e);
    let b = skip_ws(s, e);
    if b < s.len() && s[b] == '=' {
        lemma_scans(s, b + 1);
        let c = skip_ws(s, b + 1);
        lemma_scans(s, c);
        if c < s.len() && (s[c] == '"' || s[c] == '\'') {
            lemma_scans(s, c + 1);
        }
        let f = attr_value(s, c).1;
        lemma_scans(s, f);
    } else {
        lemma_scans(s, b);
    }
}

/// The qualifiers `#id`, `.class` and `[attr]` from `i` on, added to `sel`.
pub open spec fn qualifiers(s: Seq<char>, i: int, sel: SimpleView) -> (SimpleView, int)
    decreases s.len() - i,
{
    if 0 <= i < s.len() {
        if s[i] == '#' {
            let e = ident_end(s, i + 1);
            proof {
                lemma_scans(s, i + 1);
            }
            let sel2 = if e > i + 1 {
                SimpleView { id: Some(s.subrange(i + 1, e)), ..sel }
            } else {
                sel
            };
            qualifiers(s, e, sel2)
        } else if s[i] == '.' {
            let e = ident_end(s, i + 1);
            proof {
                lemma_scans(s, i + 1);
            }
            let sel2 = if e > i + 1 {
                SimpleView { classes: sel.classes.push(s.subrange(i + 1, e)), ..sel }
            } else {
                sel
            };
            qualifiers(s, e, sel2)
        } else if s[i] == '[' {
            let (attr, h) = attr_qualifier(s, i);
            proof {
                lemma_attr_qualifier(s, i);
            }
            let sel2 = match attr {
                Some(a) => SimpleView { attrs: sel.attrs.push(a), ..sel },
                None => sel,
            };
            qualifiers(s, h, sel2)
        } else {
            (sel, i)
        }
    } else {
        (sel, i)
    }
}

pub open spec fn empty_simple() -> SimpleView {
    SimpleView { tag: None, id: None, classes: Seq::empty(), attrs: Seq::empty() }
}

pub open spec fn simple_is_empty(sel: SimpleView) -> bool {
    sel.tag is None && sel.id is None && sel.classes.len() == 0 && sel.attrs.len() == 0
}

/// A simple selector from `i`: an optional tag name or `*`, then qualifiers.
/// `None` when none of them is there (a bare `*` is the universal selector, with no
/// tag); the end position is reported either way.
pub open spec fn simple_selector(s: Seq<char>, i: int) -> (Option<SimpleView>, int) {
    let (tag, j) = if 0 <= i < s.len() && s[i] == '*' {
        (None, i + 1)
    } else if 0 <= i < s.len() && is_tag_start(s[i]) {
        let e = ident_end(s, i);
        (if e > i {
            Some(s.subrange(i, e))
        } else {
            None
        }, e)
    } else {
        (None, i)
    };
    let (sel, k) = qualifiers(s, j, SimpleView { tag, ..empty_simple() });
    let universal = 0 <= i < s.len() && s[i] == '*';
    (if simple_is_empty(sel) && !universal {
        None
    } else {
        Some(sel)
    }, k)
}


pub proof fn lemma_qualifiers(s: Seq<char>, i: int, sel: SimpleView)
    requires
        0 <= i <= s.len(),
    ensures
        i <= qualifiers(s, i, sel).1 <= s.len(),
    decreases s.len() - i,
{
    if i < s.len() {
        lemma_scans(s, i + 1);
        if s[i] == '#' || s[i] == '.' {
            let e = ident_end(s, i + 1);
            if s[i] == '#' {
                let sel2 = if e > i + 1 {
                    SimpleView { id: Some(s.subrange(i + 1, e)), ..sel }
                } else {
                    sel
                };
                lemma_qualifiers(s, e, sel2);
            } else {
                let sel2 = if e > i + 1 {
                    SimpleView { classes: sel.classes.push(s.subrange(i + 1, e)), ..sel }
                } else {
                    sel
                };
                lemma_qualifiers(s, e, sel2);
            }
        } else if s[i] == '[' {
            let (attr, h) = attr_qualifier(s, i);
            lemma_attr_qualifier(s, i);
            let sel2 = match attr {
                Some(a) => SimpleView { attrs: sel.attrs.push(a), ..sel },
                None => sel,
            };
            lemma_qualifiers(s, h, sel2);
        }
    }
}

pub proof fn lemma_simple_selector(s: Seq<char>, i: int)
    requires
        0 <= i <= s.len(),
    ensures
        i <= simple_selector(s, i).1 <= s.len(),
{
    lemma_scans(s, i);
    let j = if 0 <= i < s.len() && s[i] == '*' {
        i + 1
    } else if 0 <= i < s.len() && is_tag_start(s[i]) {
        ident_end(s, i)
    } else {
        i
    };
    let tag = if 0 <= i < s.len() && s[i] == '*' {
        None
    } else if 0 <= i < s.len() && is_tag_start(s[i]) {
        let e = ident_end(s, i);
        if e > i {
            Some(s.subrange(i, e))
        } else {
            None
        }
    } else {
        None
    };
    lemma_qualifiers(s, j, SimpleView { tag, ..empty_simple() });
}

/// Further steps of a complex selector from `j` on, each joined to the previous one
/// by `>` or by white space; reading stops at the end, at `,`, or where no step follows.
pub open spec fn steps_from(s: Seq<char>, j: int, steps: Seq<StepView>) -> (Seq<StepView>, int)
    decreases s.len() - j,
{
    if j < 0 || j >= s.len() || s[j] == ',' {
        (steps, j)
    } else {
        let had_ws = is_space(s[j]);
        let k = skip_ws(s, j);
        if k >= s.len() || s[k] == ',' {
            (steps, k)
        } else if s[k] == '>' || had_ws {
            let comb = if s[k] == '>' {
                Combinator::Child
            } else {
                Combinator::Descendant
            };
            let m = if s[k] == '>' {
                skip_ws(s, k + 1)
            } else {
                k
            };
            proof {
                lemma_scans(s, j);
                if had_ws {
                    lemma_scans(s, j + 1);
                }
                lemma_scans(s, k);
                if s[k] == '>' {
                    lemma_scans(s, k + 1);
                }
                lemma_simple_selector(s, m);
            }
            let (simple, n) = simple_selector(s, m);
            match simple {
                None => (steps, n),
                Some(sv) => steps_from(
                    s,
                    n,
                    steps.push(StepView { simple: sv, combinator: Some(comb) }),
                ),
            }
        } else {
            (steps, k)
        }
    }
}

pub proof fn lemma_steps_from(s: Seq<char>, j: int, steps: Seq<StepView>)
    requires
        0 <= j <= s.len(),
    ensures
        j <= steps_from(s, j, steps).1 <= s.len(),
        steps_from(s, j, steps).0.len() >= steps.len(),
        forall|x: int| 0 <= x < steps.len() ==> #[trigger] steps_from(s, j, steps).0[x] == steps[x],
        forall|x: int|
            steps.len() <= x < steps_from(s, j, steps).0.len() ==> (#[trigger] steps_from(
                s,
                j,
                steps,
            ).0[x]).combinator is Some,
    decreases s.len() - j,
{
    if j < s.len() && s[j] != ',' {
        let had_ws = is_space(s[j]);
        lemma_scans(s, j);
        if had_ws {
            lemma_scans(s, j + 1);
        }
        let k = skip_ws(s, j);
        lemma_scans(s, k);
        if k < s.len() && s[k] != ',' && (s[k] == '>' || had_ws) {
            if s[k] == '>' {
                lemma_scans(s, k + 1);
            }
            let comb = if s[k] == '>' {
                Combinator::Child
            } else {
                Combinator::Descendant
            };
            let m = if s[k] == '>' {
                skip_ws(s, k + 1)
            } else {
                k
            };
            lemma_simple_selector(s, m);
            let (simple, n) = simple_selector(s, m);
            if let Some(sv) = simple {
                let st2 = steps.push(StepView { simple: sv, combinator: Some(comb) });
                lemma_steps_from(s, n, st2);
                assert forall|x: int| 0 <= x < steps.len() implies #[trigger] steps_from(
                    s,
                    j,
                    steps,
                ).0[x] == steps[x] by {
                    assert(steps_from(s, n, st2).0[x] == st2[x]);
                }
                assert forall|x: int|
                    steps.len() <= x < steps_from(s, j, steps).0.len() implies (#[trigger] steps_from(
                    s,
                    j,
                    steps,
                ).0[x]).combinator is Some by {
                    if x == steps.len() {
                        assert(steps_from(s, n, st2).0[x] == st2[x]);
                    }
                }
            }
        }
    }
}

/// A complex selector from `i`: leading white space, then one or more steps.
pub open spec fn complex_selector(s: Seq<char>, i: int) -> (Option<Seq<StepView>>, int) {
    let a = skip_ws(s, i);
    let (first, b) = simple_selector(s, a);
    match first {
        None => (None, b),
        Some(f) => {
            let (steps, e) = steps_from(s, b, seq![StepView { simple: f, combinator: None }]);
            (Some(steps), e)
        },
    }
}

pub proof fn lemma_complex_selector(s: Seq<char>, i: int)
    requires
        0 <= i <= s.len(),
    ensures
        i <= complex_selector(s, i).1 <= s.len(),
        complex_selector(s, i).0 matches Some(st) ==> st.len() >= 1 && st[0].combinator is None
            && complex_ok(st),
{
    lemma_scans(s, i);
    let a = skip_ws(s, i);
    lemma_simple_selector(s, a);
    let (first, b) = simple_selector(s, a);
    if let Some(f) = first {
        let st = seq![StepView { simple: f, combinator: None }];
        lemma_steps_from(s, b, st);
        assert(steps_from(s, b, st).0[0] == st[0]);
    }
}

/// The complex selectors of a comma-separated group from `j` on, added to `acc`.
pub open spec fn group_from(s: Seq<char>, j: int, acc: Seq<Seq<StepView>>) -> Seq<Seq<StepView>>
    decreases s.len() - j,
{
    let a = skip_ws(s, j);
    if j < 0 || a >= s.len() {
        acc
    } else {
        proof {
            lemma_scans(s, j);
            lemma_complex_selector(s, a);
        }
        let (c, k) = complex_selector(s, a);
        let acc2 = match c {
            Some(x) => acc.push(x),
            None => acc,
        };
        let b = skip_ws(s, k);
        proof {
            lemma_scans(s, k);
        }
        if b < s.len() && s[b] == ',' {
            group_from(s, b + 1, acc2)
        } else {
            acc2
        }
    }
}

/// The complex selectors of a comma-separated selector group.
pub open spec fn selector_group(s: Seq<char>) -> Seq<Seq<StepView>> {
    group_from(s, 0, Seq::empty())
}


// ── Parser ───────────────────────────────────────────────────────────────────

struct Parser {
    chars: Vec<char>,
    pos: usize,
}

impl Parser {
    spec fn text(&self) -> Seq<char> {
        self.chars@
    }

    spec fn at(&self) -> int {
        self.pos as int
    }

    spec fn inv(&self) -> bool {
        self.pos <= self.chars@.len()
    }

    fn new(input: &str) -> (p: Self)
        ensures
            p.text() == input@,
            p.at() == 0,
    {
        Self { chars: str_chars(input), pos: 0 }
    }

    fn peek(&self) -> (r: Option<char>)
        ensures
            r == (if self.at() < self.text().len() {
                Some(self.text()[self.at()])
            } else {
                None
            }),
    {
        if self.pos < self.chars.len() {
            Some(self.chars[self.pos])
        } else {
            None
        }
    }

    fn consume(&mut self) -> (r: Option<char>)
        requires
            old(self).inv(),
        ensures
            final(self).inv(),
            final(self).text() == old(self).text(),
            old(self).at() < old(self).text().len() ==> r == Some(old(self).text()[old(self).at()])
                && final(self).at() == old(self).at() + 1,
            old(self).at() >= old(self).text().len() ==> r is None && final(self).at()
                == old(self).at(),
    {
        if self.pos < self.chars.len() {
            let c = self.chars[self.pos];
            self.pos += 1;
            Some(c)
        } else {
            None
        }
    }

    fn skip_whitespace(&mut self)
        requires
            old(self).inv(),
        ensures
            final(self).inv(),
            final(self).text() == old(self).text(),
            final(self).at() == skip_ws(old(self).text(), old(self).at()),
    {
        loop
            invariant
                self.inv(),
                self.text() == old(self).text(),
                skip_ws(self.text(), self.at()) == skip_ws(old(self).text(), old(self).at()),
            ensures
                self.inv(),
                self.text() == old(self).text(),
                self.at() == skip_ws(old(self).text(), old(self).at()),
            decreases self.text().len() - self.at(),
        {
            match self.peek() {
                Some(c) => {
                    if c == ' ' || c == '\t' || c == '\n' || c == '\r' {
                        self.consume();
                    } else {
                        break ;
                    }
                },
                None => break ,
            }
        }
    }

    fn is_eof(&self) -> (r: bool)
        ensures
            r == (self.at() >= self.text().len()),
    {
        self.pos >= self.chars.len()
    }

    fn parse_ident(&mut self) -> (s: String)
        requires
            old(self).inv(),
        ensures
            final(self).inv(),
            final(self).text() == old(self).text(),
            final(self).at() == ident_end(old(self).text(), old(self).at()),
            s@ == old(self).text().subrange(old(self).at(), final(self).at()),
    {
        let ghost start = self.at();
        let mut s = String::new();
        loop
            invariant
                self.inv(),
                self.text() == old(self).text(),
                start <= self.at(),
                start == old(self).at(),
                ident_end(self.text(), self.at()) == ident_end(self.text(), start),
                s@ == self.text().subrange(start, self.at()),
            ensures
                self.inv(),
                self.text() == old(self).text(),
                self.at() == ident_end(self.text(), start),
                s@ == self.text().subrange(start, self.at()),
            decreases self.text().len() - self.at(),
        {
            match self.peek() {
                Some(c) => {
                    if is_alphanumeric(c) || c == '-' || c == '_' {
                        push_char(&mut s, c);
                        self.consume();
                        proof {
                            assert(s@ =~= self.text().subrange(start, self.at()));
                        }
                    } else {
                        break ;
                    }
                },
                None => break ,
            }
        }
        s
    }

    fn parse_attr_name(&mut self) -> (s: String)
        requires
            old(self).inv(),
        ensures
            final(self).inv(),
            final(self).text() == old(self).text(),
            final(self).at() == attr_name_end(old(self).text(), old(self).at()),
            s@ == old(self).text().subrange(old(self).at(), final(self).at()),
    {
        let ghost start = self.at();
        let mut s = String::new();
        loop
            invariant
                self.inv(),
                self.text() == old(self).text(),
                start <= self.at(),
                start == old(self).at(),
                attr_name_end(self.text(), self.at()) == attr_name_end(self.text(), start),
                s@ == self.text().subrange(start, self.at()),
            ensures
                self.inv(),
                self.text() == old(self).text(),
                self.at() == attr_name_end(self.text(), start),
                s@ == self.text().subrange(start, self.at()),
            decreases self.text().len() - self.at(),
        {
            match self.peek() {
                Some(c) => {
                    if c == '=' || c == ']' || c == ' ' || c == '\t' {
                        break ;
                    }
                    push_char(&mut s, c);
                    self.consume();
                    proof {
                        assert(s@ =~= self.text().subrange(start, self.at()));
                    }
                },
                None => break ,
            }
        }
        s
    }

    fn parse_attr_value(&mut self) -> (s: String)
        requires
            old(self).inv(),
        ensures
            final(self).inv(),
            final(self).text() == old(self).text(),
            (s@, final(self).at()) == attr_value(old(self).text(), old(self).at()),
    {
        let ghost t = self.text();
        let ghost i = self.at();
        match self.peek() {
            Some(q) if q == '"' || q == '\'' => {
                self.consume();
                let ghost start = self.at();
                let mut s = String::new();
                loop
                    invariant_except_break
                        start <= self.at(),
                        quote_end(t, self.at(), q) == quote_end(t, start, q),
                        s@ == t.subrange(start, self.at()),
                    invariant
                        self.inv(),
                        self.text() == t,
                        start == i + 1,
                        0 <= i,
                    ensures
                        self.inv(),
                        self.text() == t,
                        self.at() == (if quote_end(t, start, q) < t.len() {
                            quote_end(t, start, q) + 1
                        } else {
                            quote_end(t, start, q)
                        }),
                        s@ == t.subrange(start, quote_end(t, start, q)),
                    decreases t.len() - self.at(),
                {
                    match self.peek() {
                        Some(c) => {
                            if c == q {
                                self.consume();
                                break ;
                            }
                            let ghost a0 = self.at();
                            push_char(&mut s, c);
                            self.consume();
                            proof {
                                lemma_subrange_push(t, start, a0);
                            }
                        },
                        None => break ,
                    }
                }
                s
            },
            _ => {
                let ghost start = self.at();
                let mut s = String::new();
                loop
                    invariant
                        self.inv(),
                        self.text() == t,
                        start <= self.at(),
                        start == i,
                        0 <= i,
                        bare_value_end(t, self.at()) == bare_value_end(t, start),
                        s@ == t.subrange(start, self.at()),
                    ensures
                        self.inv(),
                        self.text() == t,
                        self.at() == bare_value_end(t, start),
                        s@ == t.subrange(start, self.at()),
                    decreases t.len() - self.at(),
                {
                    match self.peek() {
                        Some(c) => {
                            if c == ']' || c == ' ' || c == '\t' {
                                break ;
                            }
                            let ghost s0 = s@;
                            let ghost a0 = self.at();
                            assert(c == t[a0]);
                            push_char(&mut s, c);
                            self.consume();
                            proof {
                                lemma_subrange_push(t, start, a0);
                            }
                        },
                        None => break ,
                    }
                }
                s
            },
        }
    }

    /// Parse a single simple selector (tag/id/classes/attrs). Returns `None` if
    /// the current position has nothing that looks like a selector.
    fn parse_simple_selector(&mut self) -> (r: Option<SimpleSelector>)
        requires
            old(self).inv(),
        ensures
            final(self).inv(),
            final(self).text() == old(self).text(),
            (opt_simple_view(r), final(self).at()) == simple_selector(
                old(self).text(),
                old(self).at(),
            ),
    {
        let ghost t = self.text();
        let ghost i0 = self.at();
        let mut sel = SimpleSelector { tag: None, id: None, classes: Vec::new(), attrs: Vec::new() };
        let mut universal = false;
        // Optional tag or universal `*`
        match self.peek() {
            Some(c) => {
                if c == '*' {
                    self.consume();
                    universal = true;
                } else if is_alphabetic(c) {
                    let before = self.pos;
                    let name = self.parse_ident();
                    if self.pos > before {
                        sel.tag = Some(name);
                    }
                }
            },
            None => {},
        }
        proof {
            assert(sel@.classes =~= Seq::<Seq<char>>::empty());
            assert(sel@.attrs =~= Seq::<AttrView>::empty());
        }
        let ghost j0 = self.at();
        let ghost sel0 = sel@;
        // Qualifiers: #id .class [attr]
        loop
            invariant
                self.inv(),
                self.text() == t,
                0 <= j0 <= self.at(),
                qualifiers(t, self.at(), sel@) == qualifiers(t, j0, sel0),
            ensures
                self.inv(),
                self.text() == t,
                qualifiers(t, j0, sel0) == (sel@, self.at()),
            decreases t.len() - self.at(),
        {
            let ghost i = self.at();
            let ghost before_sel = sel@;
            assert(0 <= i);
            match self.peek() {
                Some(c) => {
                    if c == '#' {
                        self.consume();
                        let before = self.pos;
                        let name = self.parse_ident();
                        if self.pos > before {
                            sel.id = Some(name);
                        }
                        proof {
                            lemma_scans(t, i + 1);
                            assert(sel@ == (if self.at() > i + 1 {
                                SimpleView { id: Some(t.subrange(i + 1, self.at())), ..before_sel }
                            } else {
                                before_sel
                            }));
                        }
                    } else if c == '.' {
                        self.consume();
                        let before = self.pos;
                        let name = self.parse_ident();
                        proof {
                            lemma_scans(t, i + 1);
                        }
                        if self.pos > before {
                            sel.classes.push(name);
                            proof {
                                assert(sel@.classes =~= before_sel.classes.push(
                                    t.subrange(i + 1, self.at()),
                                ));
                            }
                        }
                    } else if c == '[' {
                        self.consume();
                        self.skip_whitespace();
                        let name_start = self.pos;
                        let name = self.parse_attr_name();
                        let name_end = self.pos;
                        self.skip_whitespace();
                        let ghost b = self.at();
                        let mut value: Option<String> = None;
                        match self.peek() {
                            Some(e) => {
                                if e == '=' {
                                    self.consume();
                                    self.skip_whitespace();
                                    value = Some(self.parse_attr_value());
                                }
                            },
                            None => {},
                        }
                        let ghost f = self.at();
                        self.skip_whitespace();
                        match self.peek() {
                            Some(e) => {
                                if e == ']' {
                                    self.consume();
                                }
                            },
                            None => {},
                        }
                        let ghost av = AttrView { name: name@, value: opt_chars(value) };
                        proof {
                            assert(name_start == skip_ws(t, i + 1));
                            assert(name_end == attr_name_end(t, name_start as int));
                            assert(b == skip_ws(t, name_end as int));
                            if b < t.len() && t[b] == '=' {
                                assert(value is Some);
                                assert((value->0@, f) == attr_value(t, skip_ws(t, b + 1)));
                            } else {
                                assert(value is None);
                                assert(f == b);
                            }
                            assert(attr_qualifier(t, i).1 == self.at());
                            lemma_scans(t, name_start as int);
                            assert(name@.len() > 0 <==> name_end > name_start);
                            if name_end > name_start {
                                assert(attr_qualifier(t, i).0 == Some(av));
                            } else {
                                assert(attr_qualifier(t, i).0 is None);
                            }
                        }
                        if name_end > name_start {
                            let attr = AttrSelector { name, value };
                            sel.attrs.push(attr);
                            proof {
                                assert(sel@.attrs =~= before_sel.attrs.push(attr@));
                            }
                        }
                        proof {
                            lemma_attr_qualifier(t, i);
                        }
                    } else {
                        break ;
                    }
                },
                None => break ,
            }
        }
        if !universal && sel.tag.is_none() && sel.id.is_none() && sel.classes.len() == 0
            && sel.attrs.len() == 0 {
            None
        } else {
            Some(sel)
        }
    }

    /// Parse a complex selector (one or more simple selectors joined by combinators).
    /// Stops at EOF or `,`.
    fn parse_complex_selector(&mut self) -> (r: Option<ComplexSelector>)
        requires
            old(self).inv(),
        ensures
            final(self).inv(),
            final(self).text() == old(self).text(),
            (opt_complex_view(r), final(self).at()) == complex_selector(
                old(self).text(),
                old(self).at(),
            ),
    {
        let ghost t = self.text();
        let mut steps: Vec<ComplexStep> = Vec::new();
        self.skip_whitespace();
        let first = match self.parse_simple_selector() {
            Some(s) => s,
            None => return None,
        };
        let ghost fv = first@;
        steps.push(ComplexStep { simple: first, combinator: None });
        let ghost b = self.at();
        let ghost init = steps_view(steps@);
        proof {
            assert(init =~= seq![StepView { simple: fv, combinator: None }]);
        }
        loop
            invariant_except_break
                0 <= b <= self.at(),
                steps_from(t, self.at(), steps_view(steps@)) == steps_from(t, b, init),
            invariant
                self.inv(),
                self.text() == t,
                steps@.len() >= 1,
            ensures
                self.inv(),
                self.text() == t,
                steps_from(t, b, init) == (steps_view(steps@), self.at()),
                steps@.len() >= 1,
            decreases t.len() - self.at(),
        {
            let ghost j = self.at();
            assert(0 <= j);
            if self.is_eof() || self.peek() == Some(',') {
                break ;
            }
            // Leading whitespace is significant: it may be the descendant combinator.
            let had_whitespace = match self.peek() {
                Some(c) => c == ' ' || c == '\t' || c == '\n' || c == '\r',
                None => false,
            };
            self.skip_whitespace();
            if self.is_eof() || self.peek() == Some(',') {
                break ;
            }
            let ghost k = self.at();
            let combinator = if self.peek() == Some('>') {
                self.consume();
                self.skip_whitespace();
                Combinator::Child
            } else if had_whitespace {
                Combinator::Descendant
            } else {
                break ;  // adjacent tokens without space — shouldn't happen in valid CSS
            };
            proof {
                lemma_scans(t, j);
                if had_whitespace {
                    lemma_scans(t, j + 1);
                }
                if t[k] == '>' {
                    lemma_scans(t, k + 1);
                }
            }
            let ghost m = self.at();
            let simple = match self.parse_simple_selector() {
                Some(s) => s,
                None => break ,
            };
            proof {
                lemma_simple_selector(t, m);
            }
            let ghost sv = simple@;
            let ghost before = steps_view(steps@);
            steps.push(ComplexStep { simple, combinator: Some(combinator) });
            proof {
                assert(steps_view(steps@) =~= before.push(
                    StepView { simple: sv, combinator: Some(combinator) },
                ));
            }
        }
        if steps.len() == 0 {
            None
        } else {
            Some(ComplexSelector { steps })
        }
    }
}

pub open spec fn steps_view(v: Seq<ComplexStep>) -> Seq<StepView> {
    v.map_values(|s: ComplexStep| s@)
}

pub open spec fn opt_complex_view(r: Option<ComplexSelector>) -> Option<Seq<StepView>> {
    match r {
        Some(c) => Some(c@),
        None => None,
    }
}


pub open spec fn opt_simple_view(r: Option<SimpleSelector>) -> Option<SimpleView> {
    match r {
        Some(s) => Some(s@),
        None => None,
    }
}


/// Parse a CSS selector group (comma-separated complex selectors).
pub fn parse_selector_group(input: &str) -> (r: SelectorGroup)
    ensures
        group_view(r@) == selector_group(input@),
{
    let mut parser = Parser::new(input);
    let ghost t = input@;
    let mut result: Vec<ComplexSelector> = Vec::new();
    proof {
        assert(group_view(result@) =~= Seq::<Seq<StepView>>::empty());
    }
    loop
        invariant_except_break
            group_from(t, parser.at(), group_view(result@)) == selector_group(t),
        invariant
            parser.inv(),
            parser.text() == t,
            0 <= parser.at(),
        ensures
            group_view(result@) == selector_group(t),
        decreases t.len() - parser.at(),
    {
        let ghost j = parser.at();
        parser.skip_whitespace();
        if parser.is_eof() {
            break ;
        }
        let ghost a = parser.at();
        let ghost before = group_view(result@);
        match parser.parse_complex_selector() {
            Some(complex) => {
                let ghost cv = complex@;
                result.push(complex);
                proof {
                    assert(group_view(result@) =~= before.push(cv));
                }
            },
            None => {},
        }
        proof {
            lemma_scans(t, j);
            lemma_complex_selector(t, a);
        }
        let ghost k = parser.at();
        parser.skip_whitespace();
        proof {
            lemma_scans(t, k);
        }
        if parser.peek() == Some(',') {
            parser.consume();
        } else {
            break ;
        }
    }
    result
}


// ── Matching ─────────────────────────────────────────────────────────────────

/// The name of the `id` attribute.
pub open spec fn id_key() -> Seq<char> {
    "id"@
}

/// The name of the `class` attribute.
pub open spec fn class_key() -> Seq<char> {
    "class"@
}

/// The value of the `class` attribute, or nothing when there is none.
pub open spec fn class_attr(attrs: Seq<(Seq<char>, Seq<char>)>) -> Seq<char> {
    match attr_lookup(attrs, class_key()) {
        Some(v) => v,
        None => Seq::empty(),
    }
}

/// `[name]` asks for the attribute, `[name=value]` for the attribute with that value.
pub open spec fn attr_sel_holds(attrs: Seq<(Seq<char>, Seq<char>)>, a: AttrView) -> bool {
    match a.value {
        None => has_attr(attrs, a.name),
        Some(v) => has_attr_value(attrs, a.name, v),
    }
}

/// An element matches a simple selector when its tag, id, classes and attributes
/// are all as the selector asks; no other kind of node matches.
pub open spec fn simple_matches(kind: KindView, sel: SimpleView) -> bool {
    match kind {
        KindView::Element { tag, attrs } => {
            &&& (sel.tag matches Some(t) ==> t == tag)
            &&& (sel.id matches Some(i) ==> has_attr_value(attrs, id_key(), i))
            &&& forall|j: int|
                0 <= j < sel.classes.len() ==> words(class_attr(attrs)).contains(
                    #[trigger] sel.classes[j],
                )
            &&& forall|j: int| 0 <= j < sel.attrs.len() ==> attr_sel_holds(attrs, #[trigger] sel.attrs[j])
        },
        _ => false,
    }
}

/// The steps `0..=idx` of a complex selector match, step `idx` at `node`: each
/// earlier step matches at the parent (`>`) or at some proper ancestor (white space).
pub open spec fn matches_from(t: DomTree, node: u32, steps: Seq<StepView>, idx: int) -> bool
    decreases idx,
{
    if idx < 0 || idx >= steps.len() {
        false
    } else {
        &&& t.valid(node)
        &&& simple_matches(t.kinds[node as int], steps[idx].simple)
        &&& (idx == 0 || match steps[idx].combinator {
            Some(Combinator::Child) => match t.parents[node as int] {
                Some(p) => matches_from(t, p, steps, idx - 1),
                None => false,
            },
            Some(Combinator::Descendant) => exists|k: nat|
                k >= 1 && (#[trigger] t.up(node, k)) is Some && matches_from(
                    t,
                    t.up(node, k)->0,
                    steps,
                    idx - 1,
                ),
            None => false,
        })
    }
}

/// A complex selector as the parser makes it: at least one step, each step but the
/// first with a combinator.
pub open spec fn complex_ok(steps: Seq<StepView>) -> bool {
    &&& steps.len() >= 1
    &&& forall|x: int| 1 <= x < steps.len() ==> (#[trigger] steps[x]).combinator is Some
}

pub open spec fn group_ok(g: Seq<Seq<StepView>>) -> bool {
    forall|i: int| 0 <= i < g.len() ==> complex_ok(#[trigger] g[i])
}

/// Some complex selector of the group matches at `node`.
pub open spec fn group_matches(t: DomTree, node: u32, g: Seq<Seq<StepView>>) -> bool {
    exists|i: int|
        0 <= i < g.len() && (#[trigger] g[i]).len() > 0 && matches_from(t, node, g[i], g[i].len() - 1)
}

/// Some step after the first, up to `idx`, is joined to the one before by white space:
/// matching it walks up the whole chain of parents.
pub open spec fn has_descendant(steps: Seq<StepView>, idx: int) -> bool {
    exists|i: int|
        1 <= i <= idx && i < steps.len() && (#[trigger] steps[i]).combinator == Some(
            Combinator::Descendant,
        )
}

/// Some complex selector of the group has a descendant combinator.
pub open spec fn group_has_descendant(g: Seq<Seq<StepView>>) -> bool {
    exists|j: int| 0 <= j < g.len() && #[trigger] has_descendant(g[j], g[j].len() - 1)
}

fn key_id() -> (s: String)
    ensures
        s@ == id_key(),
{
    String::from_str("id")
}

fn key_class() -> (s: String)
    ensures
        s@ == class_key(),
{
    String::from_str("class")
}

fn matches_simple(arena: &Arena, node_id: u32, simple: &SimpleSelector) -> (r: bool)
    ensures
        r == (arena.view().valid(node_id) && simple_matches(
            arena.view().kinds[node_id as int],
            simple@,
        )),
{
    let node = match arena.get(node_id) {
        Some(n) => n,
        None => return false,
    };
    let (tag, attrs) = match &node.kind {
        NodeKind::Element { tag, attrs } => (tag, attrs),
        _ => return false,
    };
    let ghost av = attrs_view(attrs@);
    let ghost sv = simple@;
    proof {
        assert(arena.view().kinds[node_id as int] == KindView::Element { tag: tag@, attrs: av });
    }
    match &simple.tag {
        Some(t) => {
            if !(*t == *tag) {
                return false;
            }
        },
        None => {},
    }
    match &simple.id {
        Some(id) => {
            if !attrs_have_value(attrs, &key_id(), id) {
                proof {
                    assert(sv.id == Some(id@));
                }
                return false;
            }
        },
        None => {},
    }
    proof {
        lemma_attr_pos(av, class_key());
    }
    let class_chars = match find_attr(attrs, &key_class()) {
        Some(k) => str_chars(attrs[k].1.as_str()),
        None => Vec::new(),
    };
    proof {
        lemma_attr_pos(av, class_key());
        assert(class_chars@ == class_attr(av));
    }
    let mut i: usize = 0;
    while i < simple.classes.len()
        invariant
            0 <= i <= simple.classes@.len(),
            sv == simple@,
            class_chars@ == class_attr(av),
            arena.view().valid(node_id),
            arena.view().kinds[node_id as int] == (KindView::Element { tag: tag@, attrs: av }),
            forall|j: int| 0 <= j < i ==> words(class_attr(av)).contains(#[trigger] sv.classes[j]),
        decreases simple.classes@.len() - i,
    {
        let cls = str_chars(simple.classes[i].as_str());
        proof {
            assert(sv.classes[i as int] == cls@);
        }
        if !words_contain(class_chars.as_slice(), cls.as_slice()) {
            return false;
        }
        i = i + 1;
    }
    let mut i: usize = 0;
    while i < simple.attrs.len()
        invariant
            0 <= i <= simple.attrs@.len(),
            sv == simple@,
            forall|j: int| 0 <= j < i ==> attr_sel_holds(av, #[trigger] sv.attrs[j]),
            av == attrs_view(attrs@),
            arena.view().valid(node_id),
            arena.view().kinds[node_id as int] == (KindView::Element { tag: tag@, attrs: av }),
        decreases simple.attrs@.len() - i,
    {
        let attr_sel = &simple.attrs[i];
        proof {
            assert(sv.attrs[i as int] == attr_sel@);
        }
        match &attr_sel.value {
            None => {
                if !attrs_have(attrs, &attr_sel.name) {
                    return false;
                }
            },
            Some(expected) => {
                if !attrs_have_value(attrs, &attr_sel.name, expected) {
                    return false;
                }
            },
        }
        i = i + 1;
    }
    true
}


/// The parser only makes complex selectors whose later steps carry a combinator.
pub proof fn lemma_group_from_ok(s: Seq<char>, j: int, acc: Seq<Seq<StepView>>)
    requires
        group_ok(acc),
    ensures
        group_ok(group_from(s, j, acc)),
    decreases s.len() - j,
{
    let a = skip_ws(s, j);
    if !(j < 0 || a >= s.len()) {
        lemma_scans(s, j);
        lemma_complex_selector(s, a);
        let (c, k) = complex_selector(s, a);
        let acc2 = match c {
            Some(x) => acc.push(x),
            None => acc,
        };
        assert(group_ok(acc2)) by {
            if let Some(x) = c {
                assert forall|i: int| 0 <= i < acc2.len() implies complex_ok(#[trigger] acc2[i]) by {
                    if i < acc.len() {
                        assert(acc2[i] == acc[i]);
                    }
                }
            }
        }
        let b = skip_ws(s, k);
        lemma_scans(s, k);
        if b < s.len() && s[b] == ',' {
            lemma_group_from_ok(s, b + 1, acc2);
        }
    }
}

pub proof fn lemma_selector_group_ok(s: Seq<char>)
    ensures
        group_ok(selector_group(s)),
{
    lemma_group_from_ok(s, 0, Seq::empty());
}


/// Match a node against a complex selector, walking ancestors as needed.
/// `step_idx` is the index of the rightmost step we're currently trying to satisfy.
fn matches_from_right(
    arena: &Arena,
    node_id: u32,
    steps: &[ComplexStep],
    step_idx: usize,
    Ghost(d): Ghost<nat>,
) -> (r: bool)
    requires
        arena.wf(),
        step_idx < steps@.len(),
        forall|x: int|
            1 <= x <= step_idx ==> (#[trigger] steps_view(steps@)[x]).combinator is Some,
        arena.view().valid(node_id) && has_descendant(steps_view(steps@), step_idx as int)
            ==> arena.view().depth_is(node_id, d),
    ensures
        r == matches_from(arena.view(), node_id, steps_view(steps@), step_idx as int),
    decreases step_idx,
{
    let ghost t = arena.view();
    let ghost sv = steps_view(steps@);
    let step = &steps[step_idx];
    proof {
        assert(sv[step_idx as int] == step@);
    }
    if !matches_simple(arena, node_id, &step.simple) {
        return false;
    }
    if step_idx == 0 {
        return true;
    }
    match &step.combinator {
        Some(Combinator::Child) => {
            let parent_id = match parent_of(arena, node_id) {
                Some(p) => p,
                None => return false,
            };
            proof {
                lemma_wf_consistent(arena);
                if has_descendant(sv, step_idx - 1) {
                    let w = choose|w: int|
                        1 <= w <= step_idx - 1 && w < sv.len() && (#[trigger] sv[w]).combinator
                            == Some(Combinator::Descendant);
                    assert(has_descendant(sv, step_idx as int));
                    t.lemma_parent_depth(node_id, d);
                }
            }
            matches_from_right(arena, parent_id, steps, step_idx - 1, Ghost((d - 1) as nat))
        },
        Some(Combinator::Descendant) => {
            proof {
                lemma_wf_consistent(arena);
                assert(sv[step_idx as int].combinator == Some(Combinator::Descendant));
                assert(has_descendant(sv, step_idx as int));
            }
            let mut ancestor = parent_of(arena, node_id);
            let ghost mut k: nat = 1;
            proof {
                t.lemma_up_one(node_id);
            }
            loop
                invariant
                    arena.wf(),
                    t == arena.view(),
                    t.consistent(),
                    sv == steps_view(steps@),
                    forall|x: int| 1 <= x <= step_idx ==> (#[trigger] sv[x]).combinator is Some,
                    1 <= step_idx < steps@.len(),
                    t.valid(node_id),
                    t.depth_is(node_id, d),
                    sv[step_idx as int].combinator == Some(Combinator::Descendant),
                    simple_matches(t.kinds[node_id as int], sv[step_idx as int].simple),
                    k >= 1,
                    ancestor == t.up(node_id, k),
                    forall|j: nat|
                        1 <= j < k ==> !((#[trigger] t.up(node_id, j)) is Some && matches_from(
                            t,
                            t.up(node_id, j)->0,
                            sv,
                            step_idx - 1,
                        )),
                ensures
                    t.up(node_id, k) is None,
                    k >= 1,
                    forall|j: nat|
                        1 <= j < k ==> !((#[trigger] t.up(node_id, j)) is Some && matches_from(
                            t,
                            t.up(node_id, j)->0,
                            sv,
                            step_idx - 1,
                        )),
                decreases d + 1 - k,
            {
                match ancestor {
                    Some(anc_id) => {
                        proof {
                            t.lemma_up_depth(node_id, d, k);
                            t.lemma_up_valid(node_id, k);
                        }
                        if matches_from_right(
                            arena,
                            anc_id,
                            steps,
                            step_idx - 1,
                            Ghost((d - k) as nat),
                        ) {
                            proof {
                                assert(t.up(node_id, k) is Some);
                                assert(sv[step_idx as int].combinator == Some(Combinator::Descendant));
                            }
                            return true;
                        }
                        ancestor = parent_of(arena, anc_id);
                        proof {
                            t.lemma_up_add(node_id, k, 1);
                            t.lemma_up_one(anc_id);
                            k = k + 1;
                        }
                    },
                    None => break ,
                }
            }
            proof {
                assert forall|j: nat| 1 <= j implies !((#[trigger] t.up(node_id, j)) is Some
                    && matches_from(t, t.up(node_id, j)->0, sv, step_idx - 1)) by {
                    if j >= k {
                        t.lemma_up_none_after(node_id, k, j);
                    }
                }
                assert(sv[step_idx as int].combinator == Some(Combinator::Descendant));
            }
            false
        },
        None => false,
    }
}

pub(crate) fn element_matches(
    arena: &Arena,
    node_id: u32,
    group: &SelectorGroup,
    Ghost(d): Ghost<nat>,
) -> (r: bool)
    requires
        arena.wf(),
        group_ok(group_view(group@)),
        arena.view().valid(node_id) && group_has_descendant(group_view(group@))
            ==> arena.view().depth_is(node_id, d),
    ensures
        r == group_matches(arena.view(), node_id, group_view(group@)),
{
    let ghost g = group_view(group@);
    let mut i: usize = 0;
    while i < group.len()
        invariant
            0 <= i <= group@.len(),
            g == group_view(group@),
            group_ok(g),
            arena.wf(),
            arena.view().valid(node_id) && group_has_descendant(g) ==> arena.view().depth_is(
                node_id,
                d,
            ),
            forall|j: int|
                0 <= j < i ==> !((#[trigger] g[j]).len() > 0 && matches_from(
                    arena.view(),
                    node_id,
                    g[j],
                    g[j].len() - 1,
                )),
        decreases group@.len() - i,
    {
        let steps = &group[i].steps;
        proof {
            assert(g[i as int] == steps_view(steps@));
            assert(complex_ok(g[i as int]));
            if has_descendant(g[i as int], g[i as int].len() - 1) {
                assert(group_has_descendant(g));
            }
        }
        if steps.len() != 0 && matches_from_right(
            arena,
            node_id,
            steps.as_slice(),
            steps.len() - 1,
            Ghost(d),
        ) {
            return true;
        }
        i = i + 1;
    }
    false
}


/// The node is an element that the selector group matches.
pub open spec fn selected(t: DomTree, g: Seq<Seq<StepView>>, x: u32) -> bool {
    &&& t.valid(x)
    &&& t.kinds[x as int] is Element
    &&& group_matches(t, x, g)
}

/// The nodes of `s`, in order, that the selector group selects.
pub open spec fn select(t: DomTree, g: Seq<Seq<StepView>>, s: Seq<u32>) -> Seq<u32>
    decreases s.len(),
{
    if s.len() == 0 {
        Seq::empty()
    } else {
        select(t, g, s.drop_last()) + if selected(t, g, s.last()) {
            seq![s.last()]
        } else {
            Seq::empty()
        }
    }
}

pub proof fn lemma_select_add(t: DomTree, g: Seq<Seq<StepView>>, a: Seq<u32>, b: Seq<u32>)
    ensures
        select(t, g, a + b) == select(t, g, a) + select(t, g, b),
    decreases b.len(),
{
    if b.len() == 0 {
        assert(a + b =~= a);
        assert(select(t, g, a) + select(t, g, b) =~= select(t, g, a));
    } else {
        assert((a + b).drop_last() =~= a + b.drop_last());
        lemma_select_add(t, g, a, b.drop_last());
        assert(select(t, g, a + b) =~= select(t, g, a) + select(t, g, b));
    }
}

fn collect_matches(
    arena: &Arena,
    node_id: u32,
    group: &SelectorGroup,
    results: &mut Vec<u32>,
    Ghost(h): Ghost<nat>,
    Ghost(d): Ghost<nat>,
)
    requires
        arena.wf(),
        group_ok(group_view(group@)),
        arena.view().valid(node_id),
        arena.view().bounded(node_id, h),
        group_has_descendant(group_view(group@)) ==> arena.view().depth_is(node_id, d),
    ensures
        final(results)@ == old(results)@ + select(
            arena.view(),
            group_view(group@),
            arena.view().preorder(node_id, h),
        ),
    decreases h,
{
    let ghost t = arena.view();
    let ghost g = group_view(group@);
    proof {
        lemma_wf_consistent(arena);
    }
    let ghost fuel = h;
    let (is_element, first_child) = match arena.get(node_id) {
        Some(node) => (matches!(node.kind, NodeKind::Element { .. }), node.first_child),
        None => return ,
    };
    proof {
        assert(is_element == t.kinds[node_id as int] is Element);
    }
    if is_element && element_matches(arena, node_id, group, Ghost(d)) {
        results.push(node_id);
    }
    proof {
        assert(select(t, g, seq![node_id]) == (if selected(t, g, node_id) {
            seq![node_id]
        } else {
            Seq::empty()
        })) by {
            assert(seq![node_id].drop_last() =~= Seq::<u32>::empty());
            assert(select(t, g, Seq::<u32>::empty()) == Seq::<u32>::empty());
            assert(Seq::<u32>::empty() + seq![node_id] =~= seq![node_id]);
            assert(Seq::<u32>::empty() + Seq::<u32>::empty() =~= Seq::<u32>::empty());
        }
        assert(results@ =~= old(results)@ + select(t, g, seq![node_id]));
    }
    let ghost ns = arena.node_seq();
    let ghost ks = arena.kid_seqs();
    let ghost q = node_id as int;
    proof {
        lemma_node_ok(ns, ks, q);
        if ks[q].len() > 0 {
            lemma_child_ok(ns, ks, q, 0);
        }
    }
    let mut child = first_child;
    let ghost mut i: int = 0;
    while child.is_some()
        invariant
            arena.wf(),
            t == arena.view(),
            t.consistent(),
            g == group_view(group@),
            group_ok(g),
            ns == arena.node_seq(),
            ks == arena.kid_seqs(),
            ks == t.kids,
            0 <= q < ns.len(),
            q == node_id as int,
            t.bounded(node_id, h),
            group_has_descendant(g) ==> t.depth_is(node_id, d),
            fuel == h,
            fuel >= 1,
            0 <= i <= ks[q].len(),
            child == (if i < ks[q].len() {
                Some(ks[q][i])
            } else {
                None
            }),
            results@ == old(results)@ + select(t, g, seq![node_id]) + select(
                t,
                g,
                t.preorder_kids(node_id, i, (fuel - 1) as nat),
            ),
        decreases ks[q].len() - i,
    {
        let child_id = child.unwrap();
        proof {
            lemma_child_ok(ns, ks, q, i);
            t.lemma_kids_bounded(node_id, ks[q].len() as int, (h - 1) as nat, i);
            if group_has_descendant(g) {
                t.lemma_child_depth(node_id, d, child_id);
            }
        }
        let ghost before = results@;
        collect_matches(arena, child_id, group, results, Ghost((h - 1) as nat), Ghost(d + 1));
        proof {
            lemma_select_add(
                t,
                g,
                t.preorder_kids(node_id, i, (fuel - 1) as nat),
                t.preorder(child_id, (fuel - 1) as nat),
            );
            assert(t.preorder_kids(node_id, i + 1, (fuel - 1) as nat) == t.preorder_kids(
                node_id,
                i,
                (fuel - 1) as nat,
            ) + t.preorder(child_id, (fuel - 1) as nat));
        }
        child = arena.get(child_id).unwrap().next_sibling;
        proof {
            i = i + 1;
            if i < ks[q].len() {
                lemma_child_ok(ns, ks, q, i);
            }
        }
    }
    proof {
        lemma_select_add(
            t,
            g,
            seq![node_id],
            t.preorder_kids(node_id, ks[q].len() as int, (fuel - 1) as nat),
        );
        assert(t.preorder(node_id, fuel) == seq![node_id] + t.preorder_kids(
            node_id,
            ks[q].len() as int,
            (fuel - 1) as nat,
        ));
    }
}

/// Walk the tree in document order from `root_id` and return all elements matching `selector_str`.
/// The subtree must be finite; a descendant combinator also walks up from each node, so
/// then the chain of parents of `root_id` must end too.
pub(crate) fn query_all(arena: &Arena, root_id: u32, selector_str: &str) -> (r: Vec<u32>)
    requires
        arena.wf(),
        arena.view().valid(root_id),
        arena.view().finite_below(root_id),
        group_has_descendant(selector_group(selector_str@)) ==> arena.view().anchored(root_id),
    ensures
        r@ == select(
            arena.view(),
            selector_group(selector_str@),
            arena.view().preorder(root_id, arena.view().height(root_id)),
        ),
{
    let group = parse_selector_group(selector_str);
    proof {
        lemma_selector_group_ok(selector_str@);
    }
    let ghost t = arena.view();
    let ghost h = t.height(root_id);
    let ghost d = t.depth(root_id);
    let ghost order = t.preorder(root_id, h);
    if group.len() == 0 {
        proof {
            lemma_select_none(t, group_view(group@), order);
        }
        return Vec::new();
    }
    let mut results = Vec::new();
    proof {
        assert(t.bounded(root_id, h));
        if group_has_descendant(group_view(group@)) {
            assert(t.depth_is(root_id, d));
        }
    }
    collect_matches(arena, root_id, &group, &mut results, Ghost(h), Ghost(d));
    proof {
        assert(results@ =~= select(t, group_view(group@), order));
    }
    results
}

/// Whether the selector has a descendant combinator (two steps joined by white space),
/// so that matching it walks up whole chains of parents.
pub fn selector_has_descendant(selector_str: &str) -> (r: bool)
    ensures
        r == group_has_descendant(selector_group(selector_str@)),
{
    let group = parse_selector_group(selector_str);
    let ghost g = group_view(group@);
    let mut j: usize = 0;
    while j < group.len()
        invariant
            0 <= j <= group@.len(),
            g == group_view(group@),
            g == selector_group(selector_str@),
            forall|k: int| 0 <= k < j ==> !#[trigger] has_descendant(g[k], g[k].len() - 1),
        decreases group@.len() - j,
    {
        let steps = &group[j].steps;
        let ghost sv = steps_view(steps@);
        proof {
            assert(g[j as int] == sv);
        }
        let mut i: usize = 1;
        while i < steps.len()
            invariant
                1 <= i,
                i <= steps@.len() || steps@.len() == 0,
                sv == steps_view(steps@),
                0 <= j < group@.len(),
                g == group_view(group@),
                g == selector_group(selector_str@),
                g[j as int] == sv,
                forall|x: int|
                    1 <= x < i && x < sv.len() ==> (#[trigger] sv[x]).combinator != Some(
                        Combinator::Descendant,
                    ),
            decreases steps@.len() - i,
        {
            proof {
                assert(sv[i as int] == steps[i as int]@);
            }
            match steps[i].combinator {
                Some(Combinator::Descendant) => {
                    proof {
                        assert(has_descendant(sv, sv.len() - 1));
                        assert(group_has_descendant(g)) by {
                            assert(has_descendant(g[j as int], g[j as int].len() - 1));
                        }
                    }
                    return true;
                },
                _ => {},
            }
            i = i + 1;
        }
        proof {
            assert(!has_descendant(sv, sv.len() - 1));
        }
        j = j + 1;
    }
    false
}

/// An empty selector group selects nothing.
pub proof fn lemma_select_none(t: DomTree, g: Seq<Seq<StepView>>, s: Seq<u32>)
    requires
        g.len() == 0,
    ensures
        select(t, g, s) == Seq::<u32>::empty(),
    decreases s.len(),
{
    if s.len() > 0 {
        lemma_select_none(t, g, s.drop_last());
        assert(select(t, g, s) =~= Seq::<u32>::empty());
    }
}

} // verus!
