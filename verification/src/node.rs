use vstd::prelude::*;

verus! {

/// All possible node kinds stored in the arena.
#[derive(Debug)]
pub enum NodeKind {
    Document,
    DocumentType { name: String, public_id: String, system_id: String },
    Element { tag: String, attrs: Vec<(String, String)> },
    Text { data: String },
    Comment { data: String },
}

/// The mathematical value of a node kind: every string taken by its characters.
pub enum KindView {
    Document,
    DocumentType { name: Seq<char>, public_id: Seq<char>, system_id: Seq<char> },
    Element { tag: Seq<char>, attrs: Seq<(Seq<char>, Seq<char>)> },
    Text { data: Seq<char> },
    Comment { data: Seq<char> },
}

/// The characters of each name and value of an attribute list.
pub open spec fn attrs_view(attrs: Seq<(String, String)>) -> Seq<(Seq<char>, Seq<char>)> {
    attrs.map_values(|a: (String, String)| (a.0@, a.1@))
}

impl View for NodeKind {
    type V = KindView;

    open spec fn view(&self) -> KindView {
        match self {
            NodeKind::Document => KindView::Document,
            NodeKind::DocumentType { name, public_id, system_id } => KindView::DocumentType {
                name: name@,
                public_id: public_id@,
                system_id: system_id@,
            },
            NodeKind::Element { tag, attrs } => KindView::Element {
                tag: tag@,
                attrs: attrs_view(attrs@),
            },
            NodeKind::Text { data } => KindView::Text { data: data@ },
            NodeKind::Comment { data } => KindView::Comment { data: data@ },
        }
    }
}

/// A single node in the arena.
#[derive(Debug)]
pub struct Node {
    pub kind: NodeKind,
    pub parent: Option<u32>,
    pub first_child: Option<u32>,
    pub last_child: Option<u32>,
    pub next_sibling: Option<u32>,
    pub prev_sibling: Option<u32>,
}

impl Node {
    /// The detached node of the given kind.
    pub open spec fn new_spec(kind: NodeKind) -> Node {
        Node {
            kind,
            parent: None,
            first_child: None,
            last_child: None,
            next_sibling: None,
            prev_sibling: None,
        }
    }

    /// A detached node of the given kind, with no links to any other node.
    pub fn new(kind: NodeKind) -> (n: Self)
        ensures
            n == Node::new_spec(kind),
    {
        Self {
            kind,
            parent: None,
            first_child: None,
            last_child: None,
            next_sibling: None,
            prev_sibling: None,
        }
    }
}


/// The position of the first attribute named `name` at or after `i`.
pub open spec fn attr_pos_from(attrs: Seq<(Seq<char>, Seq<char>)>, name: Seq<char>, i: int) -> Option<
    int,
>
    decreases attrs.len() - i,
{
    if i < 0 || i >= attrs.len() {
        None
    } else if attrs[i].0 == name {
        Some(i)
    } else {
        attr_pos_from(attrs, name, i + 1)
    }
}

/// The position of the first attribute named `name`.
pub open spec fn attr_pos(attrs: Seq<(Seq<char>, Seq<char>)>, name: Seq<char>) -> Option<int> {
    attr_pos_from(attrs, name, 0)
}

/// The value of the first attribute named `name`.
pub open spec fn attr_lookup(attrs: Seq<(Seq<char>, Seq<char>)>, name: Seq<char>) -> Option<Seq<char>> {
    match attr_pos(attrs, name) {
        Some(i) => Some(attrs[i].1),
        None => None,
    }
}

/// Some attribute is named `name`.
pub open spec fn has_attr(attrs: Seq<(Seq<char>, Seq<char>)>, name: Seq<char>) -> bool {
    exists|i: int| 0 <= i < attrs.len() && (#[trigger] attrs[i]).0 == name
}

/// Some attribute is named `name` and has the value `value`.
pub open spec fn has_attr_value(
    attrs: Seq<(Seq<char>, Seq<char>)>,
    name: Seq<char>,
    value: Seq<char>,
) -> bool {
    exists|i: int| 0 <= i < attrs.len() && (#[trigger] attrs[i]) == (name, value)
}

pub proof fn lemma_attr_pos_from(attrs: Seq<(Seq<char>, Seq<char>)>, name: Seq<char>, i: int)
    requires
        0 <= i <= attrs.len(),
    ensures
        attr_pos_from(attrs, name, i) matches Some(k) ==> i <= k < attrs.len() && attrs[k].0 == name
            && forall|j: int| i <= j < k ==> attrs[j].0 != name,
        attr_pos_from(attrs, name, i) is None ==> forall|j: int|
            i <= j < attrs.len() ==> attrs[j].0 != name,
    decreases attrs.len() - i,
{
    if i < attrs.len() && attrs[i].0 != name {
        lemma_attr_pos_from(attrs, name, i + 1);
    }
}

/// The first attribute named `name` is the first match; none means no attribute has that name.
pub proof fn lemma_attr_pos(attrs: Seq<(Seq<char>, Seq<char>)>, name: Seq<char>)
    ensures
        attr_pos(attrs, name) matches Some(k) ==> 0 <= k < attrs.len() && attrs[k].0 == name
            && forall|j: int| 0 <= j < k ==> attrs[j].0 != name,
        attr_pos(attrs, name) is None <==> !has_attr(attrs, name),
{
    lemma_attr_pos_from(attrs, name, 0);
    if attr_pos(attrs, name) is None {
        if has_attr(attrs, name) {
            let j = choose|j: int| 0 <= j < attrs.len() && (#[trigger] attrs[j]).0 == name;
        }
    }
}

/// Where the first attribute named `name` is.
pub fn find_attr(attrs: &Vec<(String, String)>, name: &String) -> (r: Option<usize>)
    ensures
        r matches Some(k) ==> attr_pos(attrs_view(attrs@), name@) == Some(k as int),
        r is None ==> attr_pos(attrs_view(attrs@), name@) is None,
{
    let ghost av = attrs_view(attrs@);
    let mut i: usize = 0;
    while i < attrs.len()
        invariant
            0 <= i <= attrs@.len(),
            av == attrs_view(attrs@),
            attr_pos(av, name@) == attr_pos_from(av, name@, i as int),
        decreases attrs@.len() - i,
    {
        if attrs[i].0 == *name {
            return Some(i);
        }
        i = i + 1;
    }
    None
}


/// Whether some attribute is named `name`.
pub fn attrs_have(attrs: &Vec<(String, String)>, name: &String) -> (r: bool)
    ensures
        r == has_attr(attrs_view(attrs@), name@),
{
    let ghost av = attrs_view(attrs@);
    let mut i: usize = 0;
    while i < attrs.len()
        invariant
            0 <= i <= attrs@.len(),
            av == attrs_view(attrs@),
            forall|j: int| 0 <= j < i ==> av[j].0 != name@,
        decreases attrs@.len() - i,
    {
        if attrs[i].0 == *name {
            proof {
                assert(av[i as int].0 == name@);
            }
            return true;
        }
        i = i + 1;
    }
    false
}

/// Whether some attribute is named `name` and has the value `value`.
pub fn attrs_have_value(attrs: &Vec<(String, String)>, name: &String, value: &String) -> (r: bool)
    ensures
        r == has_attr_value(attrs_view(attrs@), name@, value@),
{
    let ghost av = attrs_view(attrs@);
    let mut i: usize = 0;
    while i < attrs.len()
        invariant
            0 <= i <= attrs@.len(),
            av == attrs_view(attrs@),
            forall|j: int| 0 <= j < i ==> av[j] != (name@, value@),
        decreases attrs@.len() - i,
    {
        if attrs[i].0 == *name && attrs[i].1 == *value {
            proof {
                assert(av[i as int] == (name@, value@));
            }
            return true;
        }
        i = i + 1;
    }
    false
}

} // verus!
