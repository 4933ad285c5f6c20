//! The generic document value tree.
//!
//! A collaborator parses the configuration document and hands this crate a
//! generic value of object / array / string / number / boolean / null shape.
//! Numbers arrive already rendered as their decimal text, which is the only
//! way the binder ever reads them.

use vstd::prelude::*;

verus! {

/// One value of the configuration document.
#[derive(Debug)]
pub enum DocValue {
    Null,
    Bool(bool),
    /// A number, carried as its decimal rendering.
    Number(String),
    String(String),
    Array(Vec<DocValue>),
    Object(Vec<(String, DocValue)>),
}

/// The mathematical shape of a [`DocValue`].
#[verifier::ext_equal]
pub enum DocV {
    Null,
    Bool(bool),
    Number(Seq<char>),
    Str(Seq<char>),
    Array(Seq<DocV>),
    Object(Seq<(Seq<char>, DocV)>),
}

pub open spec fn doc_view(v: DocValue) -> DocV
    decreases v, 1int,
{
    match v {
        DocValue::Null => DocV::Null,
        DocValue::Bool(b) => DocV::Bool(b),
        DocValue::Number(n) => DocV::Number(n@),
        DocValue::String(s) => DocV::Str(s@),
        DocValue::Array(vs) => DocV::Array(docs_view(vs@)),
        DocValue::Object(ms) => DocV::Object(members_view(ms@)),
    }
}

pub open spec fn docs_view(vs: Seq<DocValue>) -> Seq<DocV>
    decreases vs, 0int,
{
    if vs.len() == 0 {
        Seq::empty()
    } else {
        seq![doc_view(vs[0])] + docs_view(vs.drop_first())
    }
}

pub open spec fn members_view(ms: Seq<(String, DocValue)>) -> Seq<(Seq<char>, DocV)>
    decreases ms, 0int,
{
    if ms.len() == 0 {
        Seq::empty()
    } else {
        seq![(ms[0].0@, doc_view(ms[0].1))] + members_view(ms.drop_first())
    }
}

impl View for DocValue {
    type V = DocV;

    open spec fn view(&self) -> DocV {
        doc_view(*self)
    }
}

/// `docs_view` is the element-wise view of the values.
pub proof fn lemma_docs_view(vs: Seq<DocValue>)
    ensures
        docs_view(vs).len() == vs.len(),
        forall|i: int| 0 <= i < vs.len() ==> docs_view(vs)[i] == doc_view(vs[i]),
    decreases vs.len(),
{
    if vs.len() > 0 {
        lemma_docs_view(vs.drop_first());
    }
}

/// `members_view` is the element-wise view of the members.
pub proof fn lemma_members_view(ms: Seq<(String, DocValue)>)
    ensures
        members_view(ms).len() == ms.len(),
        forall|i: int| 0 <= i < ms.len() ==> members_view(ms)[i] == (ms[i].0@, doc_view(ms[i].1)),
    decreases ms.len(),
{
    if ms.len() > 0 {
        lemma_members_view(ms.drop_first());
    }
}

/// The first member with the given key, if any.
pub open spec fn lookup_member(ms: Seq<(Seq<char>, DocV)>, k: Seq<char>) -> Option<DocV>
    decreases ms.len(),
{
    if ms.len() == 0 {
        None
    } else if ms[0].0 == k {
        Some(ms[0].1)
    } else {
        lookup_member(ms.drop_first(), k)
    }
}

/// Indexing a document value by key: a missing member, or a non-object
/// value, reads as null.
pub open spec fn doc_member(v: DocV, k: Seq<char>) -> DocV {
    match v {
        DocV::Object(ms) => match lookup_member(ms, k) {
            Some(x) => x,
            None => DocV::Null,
        },
        _ => DocV::Null,
    }
}

/// The string a scalar document value coerces to: a string itself, a
/// number's decimal rendering, or a boolean's name. Null, arrays and
/// objects do not coerce.
pub open spec fn coerce_scalar(v: DocV) -> Option<Seq<char>> {
    match v {
        DocV::Str(s) => Some(s),
        DocV::Number(n) => Some(n),
        DocV::Bool(b) => Some(if b { "true"@ } else { "false"@ }),
        _ => None,
    }
}

/// Coerce a scalar document value to its string representation.
pub fn coerce_value(v: &DocValue) -> (r: Option<String>)
    ensures
        match r {
            Some(s) => coerce_scalar(v@) == Some(s@),
            None => coerce_scalar(v@) is None,
        },
{
    match v {
        DocValue::String(s) => Some(s.clone()),
        DocValue::Number(n) => Some(n.clone()),
        DocValue::Bool(b) => if *b {
            let t: &str = "true";
            Some(t.to_owned())
        } else {
            let f: &str = "false";
            Some(f.to_owned())
        },
        _ => None,
    }
}

/// The first member of an object with the given key.
pub fn find_member<'a>(ms: &'a Vec<(String, DocValue)>, name: &String) -> (r: Option<
    &'a DocValue,
>)
    ensures
        match r {
            Some(v) => lookup_member(members_view(ms@), name@) == Some(doc_view(*v)),
            None => lookup_member(members_view(ms@), name@) is None,
        },
{
    let ghost mv = members_view(ms@);
    proof {
        lemma_members_view(ms@);
        assert(mv.skip(0) =~= mv);
    }
    let mut i: usize = 0;
    while i < ms.len()
        invariant
            i <= ms@.len(),
            mv == members_view(ms@),
            mv.len() == ms@.len(),
            forall|t: int| 0 <= t < mv.len() ==> mv[t] == (ms@[t].0@, doc_view(ms@[t].1)),
            lookup_member(mv, name@) == lookup_member(mv.skip(i as int), name@),
        decreases ms@.len() - i,
    {
        assert(mv.skip(i as int)[0] == mv[i as int]);
        if ms[i].0 == *name {
            return Some(&ms[i].1);
        }
        assert(mv.skip(i as int).drop_first() =~= mv.skip(i + 1));
        i = i + 1;
    }
    assert(mv.skip(ms@.len() as int) =~= Seq::<(Seq<char>, DocV)>::empty());
    None
}

/// Index a document value by key, as the binder's lookups do: only an
/// object with that member yields a value.
pub fn index_doc<'a>(v: &'a DocValue, k: &String) -> (r: Option<&'a DocValue>)
    ensures
        match r {
            Some(x) => doc_member(v@, k@) == x@,
            None => doc_member(v@, k@) == DocV::Null,
        },
{
    match v {
        DocValue::Object(ms) => find_member(ms, k),
        _ => None,
    }
}

} // verus!
