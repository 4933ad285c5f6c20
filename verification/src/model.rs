//! The compiled schema model.
//!
//! The compiler turns a raw [`Element`] tree into the closed set of schema
//! node kinds — [`Leaf`], [`LeafList`], [`Container`], [`List`] — resolving
//! choice/case indirection away: a choice's resolved field set is the union
//! of its cases' field sets, merged directly into the enclosing container's
//! or list's children. Field names are normalized to camelCase at compile
//! time.

use vstd::prelude::*;

use crate::element::{Element, ElementV, element_view, elements_view, lemma_elements_view, lookup_attr};
use crate::names::{camel_of, split_spaces, str_eq, strs_view, to_camel_case};
use crate::SchemaError;

verus! {

/// A terminal scalar field.
#[derive(Debug)]
pub struct Leaf {
    pub name: String,
}

/// A terminal ordered sequence of scalars.
#[derive(Debug)]
pub struct LeafList {
    pub name: String,
}

/// A named group of fields, keyed by normalized field name.
#[derive(Debug)]
pub struct Container {
    pub name: String,
    pub children: Vec<(String, Model)>,
}

/// A key-addressed repeated group of fields.
#[derive(Debug)]
pub struct List {
    pub name: String,
    pub children: Vec<(String, Model)>,
    pub keys: Vec<String>,
}

/// One compiled schema node.
#[derive(Debug)]
pub enum Model {
    Leaf(Leaf),
    List(List),
    Container(Container),
    LeafList(LeafList),
}

/// A mutually-exclusive grouping of fields; resolved away at compile time.
#[derive(Debug)]
pub struct Case {
    pub name: String,
    pub children: Vec<(String, Model)>,
}

/// A choice among cases; resolved away at compile time.
#[derive(Debug)]
pub struct Choice {
    pub name: String,
    pub children: Vec<(String, Model)>,
    pub cases: Vec<Case>,
}

/// What compiling a single element yields before it is merged into its
/// enclosing children map.
#[derive(Debug)]
pub enum Child {
    Leaf(Leaf),
    List(List),
    Container(Container),
    LeafList(LeafList),
    Choice(Choice),
}

/// A compiled schema: its root container.
#[derive(Debug)]
pub struct DataModel {
    pub root: Container,
}

// ---------------------------------------------------------------------------
// Mathematical mirrors of the model types.
// ---------------------------------------------------------------------------

#[verifier::ext_equal]
pub struct LeafV {
    pub name: Seq<char>,
}

#[verifier::ext_equal]
pub struct LeafListV {
    pub name: Seq<char>,
}

#[verifier::ext_equal]
pub struct ContainerV {
    pub name: Seq<char>,
    pub children: Seq<(Seq<char>, ModelV)>,
}

#[verifier::ext_equal]
pub struct ListV {
    pub name: Seq<char>,
    pub children: Seq<(Seq<char>, ModelV)>,
    pub keys: Seq<Seq<char>>,
}

#[verifier::ext_equal]
pub enum ModelV {
    Leaf(LeafV),
    List(ListV),
    Container(ContainerV),
    LeafList(LeafListV),
}

#[verifier::ext_equal]
pub struct CaseV {
    pub name: Seq<char>,
    pub children: Seq<(Seq<char>, ModelV)>,
}

#[verifier::ext_equal]
pub struct ChoiceV {
    pub name: Seq<char>,
    pub children: Seq<(Seq<char>, ModelV)>,
    pub cases: Seq<CaseV>,
}

#[verifier::ext_equal]
pub enum ChildV {
    Leaf(LeafV),
    List(ListV),
    Container(ContainerV),
    LeafList(LeafListV),
    Choice(ChoiceV),
}

#[verifier::ext_equal]
pub struct DataModelV {
    pub root: ContainerV,
}

pub open spec fn model_view(m: Model) -> ModelV
    decreases m, 1int,
{
    match m {
        Model::Leaf(l) => ModelV::Leaf(LeafV { name: l.name@ }),
        Model::LeafList(l) => ModelV::LeafList(LeafListV { name: l.name@ }),
        Model::Container(c) => ModelV::Container(container_view(c)),
        Model::List(l) => ModelV::List(list_view(l)),
    }
}

pub open spec fn container_view(c: Container) -> ContainerV
    decreases c, 1int,
{
    ContainerV { name: c.name@, children: children_view(c.children@) }
}

pub open spec fn list_view(l: List) -> ListV
    decreases l, 1int,
{
    ListV { name: l.name@, children: children_view(l.children@), keys: strs_view(l.keys@) }
}

/// The element-wise view of a sequence of cases.
pub open spec fn cases_view(v: Seq<Case>) -> Seq<CaseV> {
    Seq::new(v.len(), |i: int| v[i]@)
}

pub open spec fn children_view(cs: Seq<(String, Model)>) -> Seq<(Seq<char>, ModelV)>
    decreases cs, cs.len(),
{
    if cs.len() == 0 {
        Seq::empty()
    } else {
        seq![(cs[0].0@, model_view(cs[0].1))] + children_view(cs.drop_first())
    }
}

impl View for Model {
    type V = ModelV;

    open spec fn view(&self) -> ModelV {
        model_view(*self)
    }
}

impl View for Leaf {
    type V = LeafV;

    open spec fn view(&self) -> LeafV {
        LeafV { name: self.name@ }
    }
}

impl View for LeafList {
    type V = LeafListV;

    open spec fn view(&self) -> LeafListV {
        LeafListV { name: self.name@ }
    }
}

impl View for Container {
    type V = ContainerV;

    open spec fn view(&self) -> ContainerV {
        container_view(*self)
    }
}

impl View for List {
    type V = ListV;

    open spec fn view(&self) -> ListV {
        list_view(*self)
    }
}

impl View for Case {
    type V = CaseV;

    open spec fn view(&self) -> CaseV {
        CaseV { name: self.name@, children: children_view(self.children@) }
    }
}

impl View for Choice {
    type V = ChoiceV;

    open spec fn view(&self) -> ChoiceV {
        ChoiceV {
            name: self.name@,
            children: children_view(self.children@),
            cases: cases_view(self.cases@),
        }
    }
}

impl View for Child {
    type V = ChildV;

    open spec fn view(&self) -> ChildV {
        match *self {
            Child::Leaf(l) => ChildV::Leaf(l@),
            Child::List(l) => ChildV::List(list_view(l)),
            Child::Container(c) => ChildV::Container(container_view(c)),
            Child::LeafList(l) => ChildV::LeafList(l@),
            Child::Choice(c) => ChildV::Choice(c@),
        }
    }
}

impl View for DataModel {
    type V = DataModelV;

    open spec fn view(&self) -> DataModelV {
        DataModelV { root: container_view(self.root) }
    }
}

// ---------------------------------------------------------------------------
// Children maps: lookup and insertion.
// ---------------------------------------------------------------------------

/// The first entry with the given key, if any.
pub open spec fn lookup_model(cs: Seq<(Seq<char>, ModelV)>, k: Seq<char>) -> Option<ModelV>
    decreases cs.len(),
{
    if cs.len() == 0 {
        None
    } else if cs[0].0 == k {
        Some(cs[0].1)
    } else {
        lookup_model(cs.drop_first(), k)
    }
}

/// Field-name resolution policy: the exact key first, then its normalized
/// (camelCase) form.
pub open spec fn resolve_child(cs: Seq<(Seq<char>, ModelV)>, k: Seq<char>) -> Option<ModelV> {
    if lookup_model(cs, k) is Some {
        lookup_model(cs, k)
    } else {
        lookup_model(cs, camel_of(k))
    }
}

/// Map insertion: replaces the first entry with an equal key, else appends.
pub open spec fn insert_pair(
    cs: Seq<(Seq<char>, ModelV)>,
    k: Seq<char>,
    v: ModelV,
) -> Seq<(Seq<char>, ModelV)>
    decreases cs.len(),
{
    if cs.len() == 0 {
        seq![(k, v)]
    } else if cs[0].0 == k {
        seq![(k, v)] + cs.drop_first()
    } else {
        seq![cs[0]] + insert_pair(cs.drop_first(), k, v)
    }
}

/// Insert every pair in order.
pub open spec fn insert_all(
    cs: Seq<(Seq<char>, ModelV)>,
    ps: Seq<(Seq<char>, ModelV)>,
) -> Seq<(Seq<char>, ModelV)>
    decreases ps.len(),
{
    if ps.len() == 0 {
        cs
    } else {
        insert_all(insert_pair(cs, ps[0].0, ps[0].1), ps.drop_first())
    }
}

proof fn lemma_insert_pair_shape(cs: Seq<(Seq<char>, ModelV)>, k: Seq<char>, v: ModelV)
    ensures
        (forall|i: int| 0 <= i < cs.len() ==> cs[i].0 != k) ==> insert_pair(cs, k, v) == cs.push(
            (k, v),
        ),
        forall|j: int|
            0 <= j < cs.len() && cs[j].0 == k && (forall|i: int| 0 <= i < j ==> cs[i].0 != k)
                ==> insert_pair(cs, k, v) == cs.update(j, (k, v)),
    decreases cs.len(),
{
    if cs.len() == 0 {
        assert(insert_pair(cs, k, v) =~= cs.push((k, v)));
    } else {
        lemma_insert_pair_shape(cs.drop_first(), k, v);
        if cs[0].0 == k {
            assert(insert_pair(cs, k, v) =~= cs.update(0, (k, v)));
        } else {
            if forall|i: int| 0 <= i < cs.len() ==> cs[i].0 != k {
                assert(forall|i: int|
                    0 <= i < cs.drop_first().len() ==> cs.drop_first()[i].0 != k);
                assert(insert_pair(cs, k, v) =~= cs.push((k, v)));
            }
            assert forall|j: int|
                0 <= j < cs.len() && cs[j].0 == k && (forall|i: int| 0 <= i < j ==> cs[i].0 != k)
                implies insert_pair(cs, k, v) == cs.update(j, (k, v)) by {
                assert(j != 0);
                assert(cs.drop_first()[j - 1].0 == k);
                assert(forall|i: int| 0 <= i < j - 1 ==> cs.drop_first()[i].0 != k);
                assert(insert_pair(cs.drop_first(), k, v) == cs.drop_first().update(j - 1, (k, v)));
                assert(insert_pair(cs, k, v) =~= cs.update(j, (k, v)));
            }
        }
    }
}

/// The height of a model node: nesting depth of its children maps. Binding
/// recurses along this measure.
pub open spec fn mheight(m: ModelV) -> nat
    decreases m, 0int,
{
    match m {
        ModelV::Leaf(_) => 1,
        ModelV::LeafList(_) => 1,
        ModelV::Container(c) => 1 + cheight(c.children),
        ModelV::List(l) => 1 + cheight(l.children),
    }
}

pub open spec fn cheight(cs: Seq<(Seq<char>, ModelV)>) -> nat
    decreases cs, cs.len(),
{
    if cs.len() == 0 {
        0
    } else {
        let h0 = mheight(cs[0].1);
        let hr = cheight(cs.drop_first());
        if h0 > hr {
            h0
        } else {
            hr
        }
    }
}

pub proof fn lemma_lookup_height(cs: Seq<(Seq<char>, ModelV)>, k: Seq<char>)
    ensures
        match lookup_model(cs, k) {
            Some(mv) => mheight(mv) <= cheight(cs),
            None => true,
        },
    decreases cs.len(),
{
    if cs.len() > 0 {
        lemma_lookup_height(cs.drop_first(), k);
    }
}

pub proof fn lemma_resolve_height(cs: Seq<(Seq<char>, ModelV)>, k: Seq<char>)
    ensures
        match resolve_child(cs, k) {
            Some(mv) => mheight(mv) <= cheight(cs),
            None => true,
        },
{
    lemma_lookup_height(cs, k);
    lemma_lookup_height(cs, camel_of(k));
}

/// Resolve a field name in a children map: the exact key first, then its
/// normalized form.
pub(crate) fn resolve_model<'a>(cs: &'a Vec<(String, Model)>, name: &String) -> (r: Option<
    &'a Model,
>)
    ensures
        match r {
            Some(m) => resolve_child(children_view(cs@), name@) == Some(model_view(*m)),
            None => resolve_child(children_view(cs@), name@) is None,
        },
{
    match find_model(cs, name) {
        Some(m) => Some(m),
        None => {
            let normalized = to_camel_case(name.as_str());
            find_model(cs, &normalized)
        },
    }
}

// ---------------------------------------------------------------------------
// The compilation function, mathematically.
// ---------------------------------------------------------------------------

/// The normalized name an element declares, if any.
pub open spec fn name_of(e: ElementV) -> Option<Seq<char>> {
    match lookup_attr(e.attrs, "name"@) {
        Some(s) => Some(camel_of(s)),
        None => None,
    }
}

pub open spec fn compile_leaf(e: ElementV) -> Result<LeafV, SchemaError> {
    match name_of(e) {
        Some(n) => Ok(LeafV { name: n }),
        None => Err(SchemaError::MissingName),
    }
}

pub open spec fn compile_leaf_list(e: ElementV) -> Result<LeafListV, SchemaError> {
    match name_of(e) {
        Some(n) => Ok(LeafListV { name: n }),
        None => Err(SchemaError::MissingName),
    }
}

/// Merge one compiled child into an enclosing children map: a plain node is
/// inserted under its name; a choice contributes all of its resolved fields;
/// an ignored element contributes nothing.
pub open spec fn merge_child(
    acc: Seq<(Seq<char>, ModelV)>,
    copt: Option<ChildV>,
) -> Seq<(Seq<char>, ModelV)> {
    match copt {
        None => acc,
        Some(ChildV::Leaf(l)) => insert_pair(acc, l.name, ModelV::Leaf(l)),
        Some(ChildV::LeafList(l)) => insert_pair(acc, l.name, ModelV::LeafList(l)),
        Some(ChildV::Container(c)) => insert_pair(acc, c.name, ModelV::Container(c)),
        Some(ChildV::List(l)) => insert_pair(acc, l.name, ModelV::List(l)),
        Some(ChildV::Choice(ch)) => insert_all(acc, ch.children),
    }
}

pub open spec fn compile_children_acc(
    es: Seq<ElementV>,
    acc: Seq<(Seq<char>, ModelV)>,
) -> Result<Seq<(Seq<char>, ModelV)>, SchemaError>
    decreases es, 0int,
{
    if es.len() == 0 {
        Ok(acc)
    } else {
        match compile_child(es[0]) {
            Err(err) => Err(err),
            Ok(copt) => compile_children_acc(es.drop_first(), merge_child(acc, copt)),
        }
    }
}

/// The children map compiled from a sequence of elements, left to right.
pub open spec fn compile_children(es: Seq<ElementV>) -> Result<
    Seq<(Seq<char>, ModelV)>,
    SchemaError,
>
    decreases es, 1int,
{
    compile_children_acc(es, Seq::empty())
}

pub open spec fn compile_container(e: ElementV) -> Result<ContainerV, SchemaError>
    decreases e, 4int,
{
    match name_of(e) {
        None => Err(SchemaError::MissingName),
        Some(n) => match compile_children(e.children) {
            Err(err) => Err(err),
            Ok(cs) => Ok(ContainerV { name: n, children: cs }),
        },
    }
}

pub open spec fn compile_list(e: ElementV) -> Result<ListV, SchemaError>
    decreases e, 4int,
{
    match name_of(e) {
        None => Err(SchemaError::MissingName),
        Some(n) => match compile_children(e.children) {
            Err(err) => Err(err),
            Ok(cs) => match compile_keys(e) {
                Err(err) => Err(err),
                Ok(ks) => Ok(ListV { name: n, children: cs, keys: ks }),
            },
        },
    }
}

/// The first `key` child element, if any.
pub open spec fn find_key_el(es: Seq<ElementV>) -> Option<ElementV>
    decreases es.len(),
{
    if es.len() == 0 {
        None
    } else if es[0].kind == "key"@ {
        Some(es[0])
    } else {
        find_key_el(es.drop_first())
    }
}

pub open spec fn camel_keys(ts: Seq<Seq<char>>) -> Seq<Seq<char>> {
    Seq::new(ts.len(), |i: int| camel_of(ts[i]))
}

/// A list's declared key fields: the space-separated, normalized tokens of
/// the `value` attribute of its `key` child.
pub open spec fn compile_keys(e: ElementV) -> Result<Seq<Seq<char>>, SchemaError> {
    match find_key_el(e.children) {
        None => Err(SchemaError::MissingKeyDeclaration),
        Some(kel) => match lookup_attr(kel.attrs, "value"@) {
            None => Err(SchemaError::MissingKeyDeclaration),
            Some(v) => Ok(camel_keys(crate::names::split_spaces(v))),
        },
    }
}

/// Whether an element directly under a choice forms a case: an explicit
/// `case`, or a node kind treated as a single implicit case.
pub open spec fn is_case_kind(k: Seq<char>) -> bool {
    k == "case"@ || k == "leaf"@ || k == "container"@ || k == "list"@ || k == "leaf-list"@
}

pub open spec fn compile_case(e: ElementV) -> Result<CaseV, SchemaError>
    decreases e, 6int,
{
    match name_of(e) {
        None => Err(SchemaError::MissingName),
        Some(n) => if e.kind == "case"@ {
            match compile_children(e.children) {
                Err(err) => Err(err),
                Ok(cs) => Ok(CaseV { name: n, children: cs }),
            }
        } else {
            match compile_child(e) {
                Err(err) => Err(err),
                Ok(copt) => Ok(CaseV { name: n, children: merge_child(Seq::empty(), copt) }),
            }
        },
    }
}

pub open spec fn compile_cases(es: Seq<ElementV>) -> Result<Seq<CaseV>, SchemaError>
    decreases es, 0int,
{
    if es.len() == 0 {
        Ok(Seq::empty())
    } else if is_case_kind(es[0].kind) {
        match compile_case(es[0]) {
            Err(err) => Err(err),
            Ok(cv) => match compile_cases(es.drop_first()) {
                Err(err) => Err(err),
                Ok(rest) => Ok(seq![cv] + rest),
            },
        }
    } else {
        compile_cases(es.drop_first())
    }
}

/// The union of the cases' resolved field sets, merged left to right.
pub open spec fn union_acc(
    cvs: Seq<CaseV>,
    acc: Seq<(Seq<char>, ModelV)>,
) -> Seq<(Seq<char>, ModelV)>
    decreases cvs.len(),
{
    if cvs.len() == 0 {
        acc
    } else {
        union_acc(cvs.drop_first(), insert_all(acc, cvs[0].children))
    }
}

pub open spec fn union_cases(cvs: Seq<CaseV>) -> Seq<(Seq<char>, ModelV)> {
    union_acc(cvs, Seq::empty())
}

pub open spec fn compile_choice(e: ElementV) -> Result<ChoiceV, SchemaError>
    decreases e, 4int,
{
    match compile_cases(e.children) {
        Err(err) => Err(err),
        Ok(cvs) => match name_of(e) {
            None => Err(SchemaError::MissingName),
            Some(n) => Ok(ChoiceV { name: n, children: union_cases(cvs), cases: cvs }),
        },
    }
}

/// Compile one element: a schema node, a choice to be merged, or nothing for
/// an ignored element kind.
pub open spec fn compile_child(e: ElementV) -> Result<Option<ChildV>, SchemaError>
    decreases e, 5int,
{
    if e.kind == "leaf"@ {
        match compile_leaf(e) {
            Err(err) => Err(err),
            Ok(l) => Ok(Some(ChildV::Leaf(l))),
        }
    } else if e.kind == "container"@ {
        match compile_container(e) {
            Err(err) => Err(err),
            Ok(c) => Ok(Some(ChildV::Container(c))),
        }
    } else if e.kind == "list"@ {
        match compile_list(e) {
            Err(err) => Err(err),
            Ok(l) => Ok(Some(ChildV::List(l))),
        }
    } else if e.kind == "leaf-list"@ {
        match compile_leaf_list(e) {
            Err(err) => Err(err),
            Ok(l) => Ok(Some(ChildV::LeafList(l))),
        }
    } else if e.kind == "choice"@ {
        match compile_choice(e) {
            Err(err) => Err(err),
            Ok(c) => Ok(Some(ChildV::Choice(c))),
        }
    } else {
        Ok(None)
    }
}

/// `children_view` is the element-wise view of the pairs.
pub proof fn lemma_children_view(cs: Seq<(String, Model)>)
    ensures
        children_view(cs).len() == cs.len(),
        forall|i: int|
            0 <= i < cs.len() ==> children_view(cs)[i] == (cs[i].0@, model_view(cs[i].1)),
    decreases cs.len(),
{
    if cs.len() > 0 {
        lemma_children_view(cs.drop_first());
    }
}

/// The last entry with the given key, if any: the entry that survives when
/// a sequence of pairs is inserted left to right.
pub open spec fn lookup_last(cs: Seq<(Seq<char>, ModelV)>, k: Seq<char>) -> Option<ModelV>
    decreases cs.len(),
{
    if cs.len() == 0 {
        None
    } else {
        match lookup_last(cs.drop_first(), k) {
            Some(v) => Some(v),
            None => if cs[0].0 == k {
                Some(cs[0].1)
            } else {
                None
            },
        }
    }
}

proof fn lemma_insert_pair_lookup(cs: Seq<(Seq<char>, ModelV)>, k: Seq<char>, v: ModelV, k2: Seq<char>)
    ensures
        lookup_model(insert_pair(cs, k, v), k2) == if k2 == k {
            Some(v)
        } else {
            lookup_model(cs, k2)
        },
    decreases cs.len(),
{
    if cs.len() == 0 {
        assert(seq![(k, v)][0] == (k, v));
        assert(seq![(k, v)].drop_first() =~= Seq::<(Seq<char>, ModelV)>::empty());
        assert(lookup_model(Seq::<(Seq<char>, ModelV)>::empty(), k2) is None);
    } else if cs[0].0 == k {
        assert((seq![(k, v)] + cs.drop_first())[0] == (k, v));
        assert((seq![(k, v)] + cs.drop_first()).drop_first() =~= cs.drop_first());
    } else {
        lemma_insert_pair_lookup(cs.drop_first(), k, v, k2);
        assert((seq![cs[0]] + insert_pair(cs.drop_first(), k, v))[0] == cs[0]);
        assert((seq![cs[0]] + insert_pair(cs.drop_first(), k, v)).drop_first() =~= insert_pair(
            cs.drop_first(),
            k,
            v,
        ));
    }
}

proof fn lemma_insert_all_lookup(
    cs: Seq<(Seq<char>, ModelV)>,
    ps: Seq<(Seq<char>, ModelV)>,
    k2: Seq<char>,
)
    ensures
        lookup_model(insert_all(cs, ps), k2) == match lookup_last(ps, k2) {
            Some(v) => Some(v),
            None => lookup_model(cs, k2),
        },
    decreases ps.len(),
{
    if ps.len() > 0 {
        lemma_insert_all_lookup(insert_pair(cs, ps[0].0, ps[0].1), ps.drop_first(), k2);
        lemma_insert_pair_lookup(cs, ps[0].0, ps[0].1, k2);
    }
}

/// Choice flattening: merging a compiled choice into an enclosing children
/// map puts exactly the choice's resolved fields directly into that map —
/// the latest declaration of a name wins — and adds no entry of any other
/// name; in particular no node named after the choice itself appears.
pub proof fn lemma_choice_flattening(
    acc: Seq<(Seq<char>, ModelV)>,
    cv: ChoiceV,
    k: Seq<char>,
)
    ensures
        lookup_model(merge_child(acc, Some(ChildV::Choice(cv))), k) == match lookup_last(
            cv.children,
            k,
        ) {
            Some(m) => Some(m),
            None => lookup_model(acc, k),
        },
{
    lemma_insert_all_lookup(acc, cv.children, k);
}

// ---------------------------------------------------------------------------
// The executable compiler.
// ---------------------------------------------------------------------------

pub open spec fn opt_child_view(c: Option<Child>) -> Option<ChildV> {
    match c {
        None => None,
        Some(x) => Some(x@),
    }
}

/// The element's normalized `name` attribute.
pub fn get_name(el: &Element) -> (r: Result<String, SchemaError>)
    ensures
        match name_of(el@) {
            Some(n) => r is Ok && r->Ok_0@ == n,
            None => r is Err && r->Err_0 == SchemaError::MissingName,
        },
{
    match el.attribute("name") {
        Some(v) => Ok(to_camel_case(v.as_str())),
        None => Err(SchemaError::MissingName),
    }
}

fn clone_model(m: &Model) -> (r: Model)
    ensures
        model_view(r) == model_view(*m),
    decreases *m, 1int,
{
    match m {
        Model::Leaf(l) => Model::Leaf(Leaf { name: l.name.clone() }),
        Model::LeafList(l) => Model::LeafList(LeafList { name: l.name.clone() }),
        Model::Container(c) => Model::Container(
            Container { name: c.name.clone(), children: clone_children(&c.children) },
        ),
        Model::List(l) => Model::List(
            List {
                name: l.name.clone(),
                children: clone_children(&l.children),
                keys: clone_strings(&l.keys),
            },
        ),
    }
}

fn clone_children(cs: &Vec<(String, Model)>) -> (r: Vec<(String, Model)>)
    ensures
        children_view(r@) == children_view(cs@),
    decreases cs@, 0int,
{
    let mut out: Vec<(String, Model)> = Vec::new();
    let mut i: usize = 0;
    while i < cs.len()
        invariant
            i <= cs@.len(),
            out@.len() == i,
            forall|t: int|
                0 <= t < i ==> (out@[t].0@ == cs@[t].0@ && model_view(out@[t].1) == model_view(
                    cs@[t].1,
                )),
        decreases cs@.len() - i,
    {
        let name = cs[i].0.clone();
        let m2 = clone_model(&cs[i].1);
        out.push((name, m2));
        i = i + 1;
    }
    proof {
        lemma_children_view(out@);
        lemma_children_view(cs@);
        assert(children_view(out@) =~= children_view(cs@));
    }
    out
}

fn clone_strings(v: &Vec<String>) -> (r: Vec<String>)
    ensures
        strs_view(r@) == strs_view(v@),
{
    let mut out: Vec<String> = Vec::new();
    let mut i: usize = 0;
    while i < v.len()
        invariant
            i <= v@.len(),
            out@.len() == i,
            forall|t: int| 0 <= t < i ==> out@[t]@ == v@[t]@,
        decreases v@.len() - i,
    {
        out.push(v[i].clone());
        i = i + 1;
    }
    assert(strs_view(out@) =~= strs_view(v@));
    out
}

/// Insert a compiled node into a children map, replacing the entry with the
/// same name if one exists, appending otherwise.
fn insert_child(children: &mut Vec<(String, Model)>, name: String, m: Model)
    ensures
        children_view(final(children)@) == insert_pair(
            children_view(old(children)@),
            name@,
            model_view(m),
        ),
{
    let ghost ov = children@;
    let ghost cv = children_view(children@);
    proof {
        lemma_children_view(ov);
        lemma_insert_pair_shape(cv, name@, model_view(m));
    }
    let mut idx: Option<usize> = None;
    let mut j: usize = 0;
    while j < children.len()
        invariant
            j <= ov.len(),
            children@ == ov,
            idx is None ==> forall|t: int| 0 <= t < j ==> ov[t].0@ != name@,
            match idx {
                Some(jj) => jj < ov.len() && ov[jj as int].0@ == name@ && (forall|t: int|
                    0 <= t < jj ==> ov[t].0@ != name@),
                None => true,
            },
        decreases ov.len() - j,
    {
        if idx.is_none() {
            if children[j].0 == name {
                idx = Some(j);
            }
        }
        j = j + 1;
    }
    match idx {
        None => {
            children.push((name, m));
            proof {
                lemma_children_view(children@);
                assert(children_view(children@) =~= cv.push((name@, model_view(m))));
            }
        },
        Some(jj) => {
            children.remove(jj);
            children.insert(jj, (name, m));
            proof {
                assert(children@ =~= ov.update(jj as int, (name, m)));
                lemma_children_view(children@);
                assert(children_view(children@) =~= cv.update(jj as int, (name@, model_view(m))));
            }
        },
    }
}

/// Insert every pair, in order.
fn extend_children(children: &mut Vec<(String, Model)>, pairs: Vec<(String, Model)>)
    ensures
        children_view(final(children)@) == insert_all(
            children_view(old(children)@),
            children_view(pairs@),
        ),
{
    let ghost pv = children_view(pairs@);
    let ghost cv0 = children_view(old(children)@);
    proof {
        lemma_children_view(pairs@);
        assert(pv.skip(0) =~= pv);
    }
    let mut i: usize = 0;
    while i < pairs.len()
        invariant
            i <= pairs@.len(),
            pv == children_view(pairs@),
            pv.len() == pairs@.len(),
            forall|t: int| 0 <= t < pairs@.len() ==> pv[t] == (pairs@[t].0@, model_view(
                pairs@[t].1,
            )),
            insert_all(children_view(children@), pv.skip(i as int)) == insert_all(cv0, pv),
        decreases pairs@.len() - i,
    {
        assert(pv.skip(i as int)[0] == pv[i as int]);
        let name = pairs[i].0.clone();
        let m2 = clone_model(&pairs[i].1);
        insert_child(children, name, m2);
        assert(pv.skip(i as int).drop_first() =~= pv.skip(i + 1));
        i = i + 1;
    }
    assert(pv.skip(pairs@.len() as int) =~= Seq::<(Seq<char>, ModelV)>::empty());
}

/// Merge one parsed child into a children map.
fn push_child(children: &mut Vec<(String, Model)>, c: Child)
    ensures
        children_view(final(children)@) == merge_child(children_view(old(children)@), Some(c@)),
{
    match c {
        Child::Leaf(l) => {
            let name = l.name.clone();
            insert_child(children, name, Model::Leaf(l));
        },
        Child::LeafList(l) => {
            let name = l.name.clone();
            insert_child(children, name, Model::LeafList(l));
        },
        Child::Container(cc) => {
            let name = cc.name.clone();
            insert_child(children, name, Model::Container(cc));
        },
        Child::List(l) => {
            let name = l.name.clone();
            insert_child(children, name, Model::List(l));
        },
        Child::Choice(ch) => {
            extend_children(children, ch.children);
        },
    }
}

/// Compile every child element of `el` into a children map, resolving
/// choices away.
pub fn parse_children(el: &Element) -> (r: Result<Vec<(String, Model)>, SchemaError>)
    ensures
        match compile_children(el@.children) {
            Ok(cs) => r is Ok && children_view(r->Ok_0@) == cs,
            Err(e) => r is Err && r->Err_0 == e,
        },
    decreases *el, 3int,
{
    let ghost ev = el@.children;
    proof {
        lemma_elements_view(el.children@);
        assert(ev.skip(0) =~= ev);
    }
    let mut children: Vec<(String, Model)> = Vec::new();
    let mut i: usize = 0;
    while i < el.children.len()
        invariant
            i <= el.children@.len(),
            ev == el@.children,
            ev.len() == el.children@.len(),
            forall|j: int| 0 <= j < ev.len() ==> ev[j] == element_view(el.children@[j]),
            compile_children_acc(ev.skip(i as int), children_view(children@)) == compile_children(
                ev,
            ),
        decreases el.children@.len() - i,
    {
        assert(ev.skip(i as int)[0] == ev[i as int]);
        match parse_child(&el.children[i]) {
            Err(e) => {
                return Err(e);
            },
            Ok(copt) => {
                if let Some(c) = copt {
                    push_child(&mut children, c);
                }
                assert(ev.skip(i as int).drop_first() =~= ev.skip(i + 1));
            },
        }
        i = i + 1;
    }
    assert(ev.skip(el.children.len() as int) =~= Seq::<ElementV>::empty());
    Ok(children)
}

/// Compile one element; ignored kinds yield nothing.
pub fn parse_child(el: &Element) -> (r: Result<Option<Child>, SchemaError>)
    ensures
        match compile_child(el@) {
            Ok(copt) => r is Ok && opt_child_view(r->Ok_0) == copt,
            Err(e) => r is Err && r->Err_0 == e,
        },
    decreases *el, 5int,
{
    if str_eq(el.kind.as_str(), "leaf") {
        match Leaf::new(el) {
            Ok(l) => Ok(Some(Child::Leaf(l))),
            Err(e) => Err(e),
        }
    } else if str_eq(el.kind.as_str(), "container") {
        match Container::new(el) {
            Ok(c) => Ok(Some(Child::Container(c))),
            Err(e) => Err(e),
        }
    } else if str_eq(el.kind.as_str(), "list") {
        match List::new(el) {
            Ok(l) => Ok(Some(Child::List(l))),
            Err(e) => Err(e),
        }
    } else if str_eq(el.kind.as_str(), "leaf-list") {
        match LeafList::new(el) {
            Ok(l) => Ok(Some(Child::LeafList(l))),
            Err(e) => Err(e),
        }
    } else if str_eq(el.kind.as_str(), "choice") {
        match Choice::new(el) {
            Ok(c) => Ok(Some(Child::Choice(c))),
            Err(e) => Err(e),
        }
    } else {
        Ok(None)
    }
}

/// The ordered, normalized key fields a list element declares.
pub(crate) fn parse_keys(el: &Element) -> (r: Result<Vec<String>, SchemaError>)
    ensures
        match compile_keys(el@) {
            Ok(ks) => r is Ok && strs_view(r->Ok_0@) == ks,
            Err(e) => r is Err && r->Err_0 == e,
        },
{
    let ghost ev = el@.children;
    proof {
        lemma_elements_view(el.children@);
        assert(ev.skip(0) =~= ev);
    }
    let mut i: usize = 0;
    while i < el.children.len()
        invariant
            i <= el.children@.len(),
            ev == el@.children,
            ev.len() == el.children@.len(),
            forall|j: int| 0 <= j < ev.len() ==> ev[j] == element_view(el.children@[j]),
            find_key_el(ev) == find_key_el(ev.skip(i as int)),
        decreases el.children@.len() - i,
    {
        assert(ev.skip(i as int)[0] == ev[i as int]);
        let child = &el.children[i];
        if str_eq(child.kind.as_str(), "key") {
            assert(find_key_el(ev) == Some(ev[i as int]));
            match child.attribute("value") {
                None => {
                    return Err(SchemaError::MissingKeyDeclaration);
                },
                Some(v) => {
                    let toks = crate::names::split_spaces_exec(v.as_str());
                    let mut keys: Vec<String> = Vec::new();
                    let mut t: usize = 0;
                    while t < toks.len()
                        invariant
                            t <= toks@.len(),
                            keys@.len() == t,
                            forall|q: int| 0 <= q < t ==> keys@[q]@ == camel_of(toks@[q]@),
                        decreases toks@.len() - t,
                    {
                        keys.push(to_camel_case(toks[t].as_str()));
                        t = t + 1;
                    }
                    assert(strs_view(keys@) =~= camel_keys(strs_view(toks@)));
                    return Ok(keys);
                },
            }
        }
        assert(ev.skip(i as int).drop_first() =~= ev.skip(i + 1));
        i = i + 1;
    }
    assert(ev.skip(el.children@.len() as int) =~= Seq::<ElementV>::empty());
    Err(SchemaError::MissingKeyDeclaration)
}

/// The case elements directly under a choice.
pub(crate) fn parse_cases(el: &Element) -> (r: Result<Vec<Case>, SchemaError>)
    ensures
        match compile_cases(el@.children) {
            Ok(cvs) => r is Ok && cases_view(r->Ok_0@) == cvs,
            Err(e) => r is Err && r->Err_0 == e,
        },
    decreases *el, 3int,
{
    let ghost ev = el@.children;
    proof {
        lemma_elements_view(el.children@);
        assert(ev.skip(0) =~= ev);
        assert(cases_view(Seq::<Case>::empty()) =~= Seq::<CaseV>::empty());
    }
    let mut cases: Vec<Case> = Vec::new();
    let mut i: usize = 0;
    while i < el.children.len()
        invariant
            i <= el.children@.len(),
            ev == el@.children,
            ev.len() == el.children@.len(),
            forall|j: int| 0 <= j < ev.len() ==> ev[j] == element_view(el.children@[j]),
            match compile_cases(ev.skip(i as int)) {
                Ok(rest) => compile_cases(ev) == Ok::<Seq<CaseV>, SchemaError>(
                    cases_view(cases@) + rest,
                ),
                Err(e) => compile_cases(ev) == Err::<Seq<CaseV>, SchemaError>(e),
            },
        decreases el.children@.len() - i,
    {
        assert(ev.skip(i as int)[0] == ev[i as int]);
        let child = &el.children[i];
        let k = child.kind.as_str();
        let is_case = str_eq(k, "case") || str_eq(k, "leaf") || str_eq(k, "container") || str_eq(
            k,
            "list",
        ) || str_eq(k, "leaf-list");
        assert(is_case == is_case_kind(ev[i as int].kind));
        if is_case {
            match Case::new(child) {
                Err(e) => {
                    return Err(e);
                },
                Ok(c) => {
                    let ghost before = cases_view(cases@);
                    cases.push(c);
                    proof {
                        assert(cases_view(cases@) =~= before.push(c@));
                        assert(ev.skip(i as int).drop_first() =~= ev.skip(i + 1));
                        if compile_cases(ev.skip(i + 1)) is Ok {
                            let rest2 = compile_cases(ev.skip(i + 1))->Ok_0;
                            assert(compile_cases(ev.skip(i as int)) == Ok::<
                                Seq<CaseV>,
                                SchemaError,
                            >(seq![c@] + rest2));
                            assert(before + (seq![c@] + rest2) =~= cases_view(cases@) + rest2);
                        }
                    }
                },
            }
        } else {
            proof {
                assert(ev.skip(i as int).drop_first() =~= ev.skip(i + 1));
                assert(compile_cases(ev.skip(i as int)) == compile_cases(ev.skip(i + 1)));
            }
        }
        i = i + 1;
    }
    assert(ev.skip(el.children@.len() as int) =~= Seq::<ElementV>::empty());
    assert(cases_view(cases@) + Seq::<CaseV>::empty() =~= cases_view(cases@));
    Ok(cases)
}

impl Leaf {
    /// Compile a `leaf` element.
    pub fn new(el: &Element) -> (r: Result<Leaf, SchemaError>)
        ensures
            match compile_leaf(el@) {
                Ok(lv) => r is Ok && r->Ok_0@ == lv,
                Err(e) => r is Err && r->Err_0 == e,
            },
    {
        match get_name(el) {
            Ok(name) => Ok(Leaf { name }),
            Err(e) => Err(e),
        }
    }
}

impl LeafList {
    /// Compile a `leaf-list` element.
    pub fn new(el: &Element) -> (r: Result<LeafList, SchemaError>)
        ensures
            match compile_leaf_list(el@) {
                Ok(lv) => r is Ok && r->Ok_0@ == lv,
                Err(e) => r is Err && r->Err_0 == e,
            },
    {
        match get_name(el) {
            Ok(name) => Ok(LeafList { name }),
            Err(e) => Err(e),
        }
    }
}

impl Container {
    /// Compile a `container` element.
    pub fn new(el: &Element) -> (r: Result<Container, SchemaError>)
        ensures
            match compile_container(el@) {
                Ok(cv) => r is Ok && r->Ok_0@ == cv,
                Err(e) => r is Err && r->Err_0 == e,
            },
        decreases *el, 4int,
    {
        let name = match get_name(el) {
            Ok(n) => n,
            Err(e) => {
                return Err(e);
            },
        };
        let children = match parse_children(el) {
            Ok(c) => c,
            Err(e) => {
                return Err(e);
            },
        };
        Ok(Container { name, children })
    }
}

impl List {
    /// Compile a `list` element; it must declare at least one key field.
    pub fn new(el: &Element) -> (r: Result<List, SchemaError>)
        ensures
            match compile_list(el@) {
                Ok(lv) => r is Ok && r->Ok_0@ == lv,
                Err(e) => r is Err && r->Err_0 == e,
            },
        decreases *el, 4int,
    {
        let name = match get_name(el) {
            Ok(n) => n,
            Err(e) => {
                return Err(e);
            },
        };
        let children = match parse_children(el) {
            Ok(c) => c,
            Err(e) => {
                return Err(e);
            },
        };
        let keys = match parse_keys(el) {
            Ok(k) => k,
            Err(e) => {
                return Err(e);
            },
        };
        Ok(List { name, children, keys })
    }
}

impl Case {
    /// Compile a case: an explicit `case` element groups its children; any
    /// other node kind forms a single implicit case.
    pub fn new(el: &Element) -> (r: Result<Case, SchemaError>)
        ensures
            match compile_case(el@) {
                Ok(cv) => r is Ok && r->Ok_0@ == cv,
                Err(e) => r is Err && r->Err_0 == e,
            },
        decreases *el, 6int,
    {
        let name = match get_name(el) {
            Ok(n) => n,
            Err(e) => {
                return Err(e);
            },
        };
        if str_eq(el.kind.as_str(), "case") {
            match parse_children(el) {
                Ok(children) => Ok(Case { name, children }),
                Err(e) => Err(e),
            }
        } else {
            match parse_child(el) {
                Err(e) => Err(e),
                Ok(copt) => {
                    let mut children: Vec<(String, Model)> = Vec::new();
                    if let Some(c) = copt {
                        push_child(&mut children, c);
                    }
                    Ok(Case { name, children })
                },
            }
        }
    }
}

impl Choice {
    /// Compile a `choice` element: its resolved field set is the union of
    /// its cases' fields.
    pub fn new(el: &Element) -> (r: Result<Choice, SchemaError>)
        ensures
            match compile_choice(el@) {
                Ok(cv) => r is Ok && r->Ok_0@ == cv,
                Err(e) => r is Err && r->Err_0 == e,
            },
        decreases *el, 4int,
    {
        let cases = match parse_cases(el) {
            Ok(c) => c,
            Err(e) => {
                return Err(e);
            },
        };
        let ghost cvs = cases_view(cases@);
        let mut children: Vec<(String, Model)> = Vec::new();
        proof {
            assert(cvs.skip(0) =~= cvs);
        }
        let mut i: usize = 0;
        while i < cases.len()
            invariant
                i <= cases@.len(),
                cvs == cases_view(cases@),
                cvs.len() == cases@.len(),
                union_acc(cvs.skip(i as int), children_view(children@)) == union_cases(cvs),
            decreases cases@.len() - i,
        {
            assert(cvs.skip(i as int)[0] == cvs[i as int]);
            let pairs = clone_children(&cases[i].children);
            extend_children(&mut children, pairs);
            assert(cvs.skip(i as int).drop_first() =~= cvs.skip(i + 1));
            i = i + 1;
        }
        assert(cvs.skip(cases@.len() as int) =~= Seq::<CaseV>::empty());
        let name = match get_name(el) {
            Ok(n) => n,
            Err(e) => {
                return Err(e);
            },
        };
        Ok(Choice { name, children, cases })
    }
}

pub open spec fn compile_data_model(e: ElementV) -> Result<DataModelV, SchemaError> {
    match compile_container(e) {
        Ok(c) => Ok(DataModelV { root: c }),
        Err(err) => Err(err),
    }
}

impl DataModel {
    /// Compile a whole schema from its root element.
    pub fn new(root_el: &Element) -> (r: Result<DataModel, SchemaError>)
        ensures
            match compile_data_model(root_el@) {
                Ok(dv) => r is Ok && r->Ok_0@ == dv,
                Err(e) => r is Err && r->Err_0 == e,
            },
    {
        match Container::new(root_el) {
            Ok(root) => Ok(DataModel { root }),
            Err(e) => Err(e),
        }
    }
}

// ---------------------------------------------------------------------------
// Field-name resolution against a compiled children map.
// ---------------------------------------------------------------------------

/// The first entry of `cs` whose key equals `name`.
fn find_model<'a>(cs: &'a Vec<(String, Model)>, name: &String) -> (r: Option<&'a Model>)
    ensures
        match r {
            Some(m) => lookup_model(children_view(cs@), name@) == Some(model_view(*m)),
            None => lookup_model(children_view(cs@), name@) is None,
        },
{
    let ghost cv = children_view(cs@);
    proof {
        lemma_children_view(cs@);
        assert(cv.skip(0) =~= cv);
    }
    let mut i: usize = 0;
    while i < cs.len()
        invariant
            i <= cs@.len(),
            cv == children_view(cs@),
            cv.len() == cs@.len(),
            forall|t: int| 0 <= t < cv.len() ==> cv[t] == (cs@[t].0@, model_view(cs@[t].1)),
            lookup_model(cv, name@) == lookup_model(cv.skip(i as int), name@),
        decreases cs@.len() - i,
    {
        assert(cv.skip(i as int)[0] == cv[i as int]);
        if cs[i].0 == *name {
            return Some(&cs[i].1);
        }
        assert(cv.skip(i as int).drop_first() =~= cv.skip(i + 1));
        i = i + 1;
    }
    assert(cv.skip(cs@.len() as int) =~= Seq::<(Seq<char>, ModelV)>::empty());
    None
}

/// A schema node that holds a compiled children map.
pub trait WithChildren {
    spec fn children_spec(&self) -> Seq<(Seq<char>, ModelV)>;

    fn get_children(&self) -> (r: &Vec<(String, Model)>)
        ensures
            children_view(r@) == self.children_spec(),
    ;

    /// Resolve a document field name: the exact key first, then its
    /// normalized form.
    fn get_child<'a>(&'a self, name: &str) -> (r: Option<&'a Model>)
        ensures
            match r {
                Some(m) => resolve_child(self.children_spec(), name@) == Some(model_view(*m)),
                None => resolve_child(self.children_spec(), name@) is None,
            },
    {
        let children = self.get_children();
        let exact: String = name.to_owned();
        match find_model(children, &exact) {
            Some(m) => Some(m),
            None => {
                let normalized = to_camel_case(name);
                find_model(children, &normalized)
            },
        }
    }
}

impl WithChildren for Container {
    open spec fn children_spec(&self) -> Seq<(Seq<char>, ModelV)> {
        children_view(self.children@)
    }

    fn get_children(&self) -> (r: &Vec<(String, Model)>) {
        &self.children
    }
}

impl WithChildren for List {
    open spec fn children_spec(&self) -> Seq<(Seq<char>, ModelV)> {
        children_view(self.children@)
    }

    fn get_children(&self) -> (r: &Vec<(String, Model)>) {
        &self.children
    }
}

} // verus!
