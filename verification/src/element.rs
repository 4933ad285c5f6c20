//! The raw schema element tree.
//!
//! A collaborator parses the schema source and hands this crate a generic
//! element tree; the compiler only ever reads an element's kind, its
//! attributes and its child elements.

use vstd::prelude::*;

verus! {

/// One element of the raw schema definition tree.
#[derive(Debug)]
pub struct Element {
    /// The element's kind, e.g. `container`, `leaf`, `list`, `key`.
    pub kind: String,
    /// The element's attributes, in document order.
    pub attrs: Vec<(String, String)>,
    /// The element's child elements, in document order.
    pub children: Vec<Element>,
}

/// The mathematical shape of an [`Element`].
#[verifier::ext_equal]
pub struct ElementV {
    pub kind: Seq<char>,
    pub attrs: Seq<(Seq<char>, Seq<char>)>,
    pub children: Seq<ElementV>,
}

pub open spec fn attrs_view(attrs: Seq<(String, String)>) -> Seq<(Seq<char>, Seq<char>)> {
    Seq::new(attrs.len(), |i: int| (attrs[i].0@, attrs[i].1@))
}

pub open spec fn element_view(e: Element) -> ElementV
    decreases e, 0int,
{
    ElementV {
        kind: e.kind@,
        attrs: attrs_view(e.attrs@),
        children: elements_view(e.children@),
    }
}

pub open spec fn elements_view(es: Seq<Element>) -> Seq<ElementV>
    decreases es, es.len(),
{
    if es.len() == 0 {
        Seq::empty()
    } else {
        seq![element_view(es[0])] + elements_view(es.drop_first())
    }
}

impl View for Element {
    type V = ElementV;

    open spec fn view(&self) -> ElementV {
        element_view(*self)
    }
}

/// `elements_view` is the element-wise view of the elements.
pub proof fn lemma_elements_view(es: Seq<Element>)
    ensures
        elements_view(es).len() == es.len(),
        forall|i: int| 0 <= i < es.len() ==> elements_view(es)[i] == element_view(es[i]),
    decreases es.len(),
{
    if es.len() > 0 {
        lemma_elements_view(es.drop_first());
    }
}

/// The value of the first attribute named `name`, if any.
pub open spec fn lookup_attr(attrs: Seq<(Seq<char>, Seq<char>)>, name: Seq<char>) -> Option<
    Seq<char>,
>
    decreases attrs.len(),
{
    if attrs.len() == 0 {
        None
    } else if attrs[0].0 == name {
        Some(attrs[0].1)
    } else {
        lookup_attr(attrs.drop_first(), name)
    }
}

impl Element {
    /// The value of this element's first attribute with the given name.
    pub fn attribute(&self, name: &str) -> (r: Option<&String>)
        ensures
            match r {
                Some(v) => lookup_attr(self@.attrs, name@) == Some(v@),
                None => lookup_attr(self@.attrs, name@) is None,
            },
    {
        let name_owned: String = name.to_owned();
        let mut i: usize = 0;
        assert(self@.attrs.skip(0) =~= self@.attrs);
        while i < self.attrs.len()
            invariant
                i <= self.attrs.len(),
                name_owned@ == name@,
                lookup_attr(self@.attrs, name@) == lookup_attr(
                    self@.attrs.skip(i as int),
                    name@,
                ),
            decreases self.attrs.len() - i,
        {
            assert(self@.attrs.skip(i as int)[0] == self@.attrs[i as int]);
            if self.attrs[i].0 == name_owned {
                return Some(&self.attrs[i].1);
            }
            assert(self@.attrs.skip(i as int).drop_first() =~= self@.attrs.skip(i + 1));
            i = i + 1;
        }
        None
    }
}

} // verus!
