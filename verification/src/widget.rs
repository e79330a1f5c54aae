//! Widget trees, and the test by which two of their nodes are told apart.

use vstd::prelude::*;
use vstd::std_specs::cmp::PartialEqSpecImpl;

verus! {

/// What a widget is.
#[derive(Clone, Copy, Debug, PartialEq, Eq, Structural)]
pub enum Kind {
    Stack,
    Button,
    Label,
}

/// What a widget shows.
#[derive(Debug)]
pub enum Attribute {
    Text(String),
}

/// The model of an [`Attribute`].
pub enum AttributeView {
    Text(Seq<char>),
}

impl View for Attribute {
    type V = AttributeView;

    open spec fn view(&self) -> AttributeView {
        match self {
            Attribute::Text(text) => AttributeView::Text(text@),
        }
    }
}

impl PartialEq for Attribute {
    fn eq(&self, other: &Attribute) -> (r: bool) {
        match (self, other) {
            (Attribute::Text(a), Attribute::Text(b)) => *a == *b,
        }
    }
}

impl Eq for Attribute {

}

impl PartialEqSpecImpl for Attribute {
    open spec fn obeys_eq_spec() -> bool {
        true
    }

    open spec fn eq_spec(&self, other: &Attribute) -> bool {
        self@ == other@
    }
}

/// The attributes of one widget.
pub type Attributes = Vec<Attribute>;

/// The models of a list of attributes, in order.
pub open spec fn attribute_views(list: Seq<Attribute>) -> Seq<AttributeView> {
    Seq::new(list.len(), |i: int| list[i]@)
}

/// What a node carries: its kind and its attributes.
pub type Value = (Kind, Attributes);

/// A node of a widget tree.
#[derive(Debug)]
pub struct Node {
    pub value: Value,
    pub children: Vec<Node>,
}

/// In what two nodes differ.
#[derive(Clone, Copy, Debug, PartialEq, Eq, Structural)]
pub enum Difference {
    /// They are widgets of different kinds.
    Kind,
    /// They are of one kind and differ in their attributes.
    Value,
}

/// The difference between a node of kind `kind` with the attributes `list`
/// and one of kind `other_kind` with the attributes `other_list`: the kind
/// counts first, then the attributes, compared in order.
pub open spec fn difference(
    kind: Kind,
    list: Seq<AttributeView>,
    other_kind: Kind,
    other_list: Seq<AttributeView>,
) -> Option<Difference> {
    if kind != other_kind {
        Some(Difference::Kind)
    } else if list != other_list {
        Some(Difference::Value)
    } else {
        None
    }
}

/// Whether two lists hold equal attributes in the same order.
pub fn same_attributes(a: &Vec<Attribute>, b: &Vec<Attribute>) -> (same: bool)
    ensures
        same == (attribute_views(a@) == attribute_views(b@)),
{
    if a.len() != b.len() {
        assert(attribute_views(a@).len() != attribute_views(b@).len());
        return false;
    }
    let mut i: usize = 0;
    while i < a.len()
        invariant
            i <= a@.len(),
            a@.len() == b@.len(),
            forall|k: int| 0 <= k < i ==> a@[k]@ == b@[k]@,
        decreases a@.len() - i,
    {
        if a[i] != b[i] {
            assert(attribute_views(a@)[i as int] != attribute_views(b@)[i as int]);
            return false;
        }
        i += 1;
    }
    assert(attribute_views(a@) =~= attribute_views(b@));
    true
}

/// Tells two nodes apart by what they carry; their children play no part.
pub fn comparator(t: &Node, u: &Node) -> (found: Option<Difference>)
    ensures
        found == difference(
            t.value.0,
            attribute_views(t.value.1@),
            u.value.0,
            attribute_views(u.value.1@),
        ),
{
    if t.value.0 != u.value.0 {
        Some(Difference::Kind)
    } else if !same_attributes(&t.value.1, &u.value.1) {
        Some(Difference::Value)
    } else {
        None
    }
}

} // verus!
