//! The bound instance tree.
//!
//! Binding walks a document value against a compiled schema and produces a
//! fully-typed instance tree. The tree lives in an arena: every node sits in
//! one vector, a child holds its parent's index, and a parent is always
//! allocated before its children — the shell is constructed first, then its
//! children are appended with the shell's index as their back-reference.
//! Upward queries (paths, the generated flag) walk parent indices, which
//! strictly decrease, so they terminate and never cycle.

use vstd::prelude::*;

use crate::doc::{
    coerce_scalar, doc_member, doc_view, docs_view, lemma_docs_view, lemma_members_view,
    members_view, DocV, DocValue,
};
use crate::model::{
    cheight, children_view, container_view, lemma_resolve_height, list_view, mheight, model_view,
    resolve_child, Container, ContainerV, DataModel, DataModelV, List, Model, ModelV,
};
use crate::names::{kebab_of, strs_view};

verus! {

/// Why a document failed to bind against the schema.
#[derive(Debug, Clone, Copy, PartialEq, Eq)]
pub enum BindErrorKind {
    /// The schema expects a scalar (string, number or boolean) here.
    ExpectedScalar,
    /// The schema expects an array here.
    ExpectedArray,
    /// The schema expects an object here.
    ExpectedObject,
    /// Strict mode only: a document key has no corresponding schema field.
    UnknownField,
    /// A list element lacks one of the declared key fields.
    MissingKeyField,
    /// A list element's key field is not a scalar.
    NonScalarKeyField,
    /// Two list elements produce the same composite key.
    DuplicateKey,
}

/// A binding failure, carrying the partial path accumulated up to the point
/// of failure.
#[derive(Debug)]
pub struct BindError {
    pub kind: BindErrorKind,
    pub path: String,
}

/// The mathematical shape of a [`BindError`].
#[verifier::ext_equal]
pub struct BindErrorV {
    pub kind: BindErrorKind,
    pub path: Seq<char>,
}

impl View for BindError {
    type V = BindErrorV;

    open spec fn view(&self) -> BindErrorV {
        BindErrorV { kind: self.kind, path: self.path@ }
    }
}

/// The payload of one instance node.
#[derive(Debug)]
pub enum InstanceData {
    /// A bound scalar field.
    Leaf { name: String, value: String },
    /// A bound ordered sequence of scalars.
    LeafList { name: String, values: Vec<String> },
    /// A bound named group; `children` are arena indices.
    Container { name: String, children: Vec<usize> },
    /// A bound repeated group; `children` are arena indices of its entries.
    List { name: String, children: Vec<usize> },
    /// One entry of a list, addressed by its composite key.
    ListChild { key_value: String, children: Vec<usize> },
}

/// One node of the instance arena.
#[derive(Debug)]
pub struct InstanceNode {
    /// The arena index of the structural parent; `None` only at the root.
    pub parent: Option<usize>,
    pub data: InstanceData,
}

/// A bound instance tree: the arena, with the root at index `0`.
#[derive(Debug)]
pub struct DataModelInstance {
    pub nodes: Vec<InstanceNode>,
}

/// The child indices a node's payload holds.
pub open spec fn children_of(d: InstanceData) -> Seq<usize> {
    match d {
        InstanceData::Leaf { .. } => Seq::empty(),
        InstanceData::LeafList { .. } => Seq::empty(),
        InstanceData::Container { children, .. } => children@,
        InstanceData::List { children, .. } => children@,
        InstanceData::ListChild { children, .. } => children@,
    }
}

/// Arena well-formedness: the root is node `0` and has no parent; every
/// other node's parent precedes it; every child link points forward and the
/// child's back-reference agrees with it.
pub open spec fn wf_nodes(nodes: Seq<InstanceNode>) -> bool {
    &&& 0 < nodes.len()
    &&& nodes[0].parent is None
    &&& (forall|j: int|
        0 < j < nodes.len() ==> (#[trigger] nodes[j].parent) is Some && 0 <= (
        nodes[j].parent->0 as int) < j)
    &&& (forall|j: int, k: int|
        0 <= j < nodes.len() && 0 <= k < children_of(nodes[j].data).len() ==> j < (
        #[trigger] children_of(nodes[j].data)[k] as int) < nodes.len() && nodes[children_of(
            nodes[j].data,
        )[k] as int].parent == Some(j as usize))
}

impl DataModelInstance {
    /// Arena well-formedness, for use in contracts.
    pub open spec fn wf(&self) -> bool {
        wf_nodes(self.nodes@)
    }
}

// ---------------------------------------------------------------------------
// Binding, mathematically.
// ---------------------------------------------------------------------------

/// The mathematical shape of a bound instance node.
#[verifier::ext_equal]
pub enum InstV {
    Leaf { name: Seq<char>, value: Seq<char> },
    LeafList { name: Seq<char>, values: Seq<Seq<char>> },
    Container { name: Seq<char>, children: Seq<InstV> },
    List { name: Seq<char>, children: Seq<InstV> },
    ListChild { key: Seq<char>, children: Seq<InstV> },
}

/// The path a named child contributes under its parent.
pub open spec fn child_path(p: Seq<char>, name: Seq<char>) -> Seq<char> {
    p + "/"@ + name
}

/// The path a list entry contributes under its owning list.
pub open spec fn entry_path(p: Seq<char>, key: Seq<char>) -> Seq<char> {
    p + "="@ + key
}

/// Coerce every element of a document array to its string form; `None` if
/// any element is not a scalar.
pub open spec fn coerce_items(items: Seq<DocV>) -> Option<Seq<Seq<char>>>
    decreases items.len(),
{
    if items.len() == 0 {
        Some(Seq::empty())
    } else {
        match coerce_scalar(items[0]) {
            None => None,
            Some(s) => match coerce_items(items.drop_first()) {
                None => None,
                Some(rest) => Some(seq![s] + rest),
            },
        }
    }
}

/// The document value a declared key field reads: the exact field name
/// first; where that is absent or null, its kebab-case form.
pub open spec fn key_field_of(v: DocV, k: Seq<char>) -> DocV {
    if doc_member(v, k) == DocV::Null {
        doc_member(v, kebab_of(k))
    } else {
        doc_member(v, k)
    }
}

/// The coerced values of every declared key field, in declaration order.
pub open spec fn key_parts(keys: Seq<Seq<char>>, v: DocV) -> Result<Seq<Seq<char>>, BindErrorKind>
    decreases keys.len(),
{
    if keys.len() == 0 {
        Ok(Seq::empty())
    } else {
        let kv = key_field_of(v, keys[0]);
        if kv == DocV::Null {
            Err(BindErrorKind::MissingKeyField)
        } else {
            match coerce_scalar(kv) {
                None => Err(BindErrorKind::NonScalarKeyField),
                Some(s) => match key_parts(keys.drop_first(), v) {
                    Err(e) => Err(e),
                    Ok(rest) => Ok(seq![s] + rest),
                },
            }
        }
    }
}

pub open spec fn join_commas(parts: Seq<Seq<char>>) -> Seq<char>
    decreases parts.len(),
{
    if parts.len() == 0 {
        Seq::empty()
    } else if parts.len() == 1 {
        parts[0]
    } else {
        parts[0] + ","@ + join_commas(parts.drop_first())
    }
}

/// The composite key of one list element: its declared key fields' values,
/// joined in order with `,`.
pub open spec fn key_of(keys: Seq<Seq<char>>, v: DocV) -> Result<Seq<char>, BindErrorKind> {
    match key_parts(keys, v) {
        Err(e) => Err(e),
        Ok(parts) => Ok(join_commas(parts)),
    }
}

/// The composite keys of the list entries bound so far.
pub open spec fn inst_keys(done: Seq<InstV>) -> Seq<Seq<char>> {
    Seq::new(
        done.len(),
        |j: int|
            match done[j] {
                InstV::ListChild { key, .. } => key,
                _ => Seq::empty(),
            },
    )
}

/// Bind one schema node against one document value. `p` is the parent's
/// path; errors carry the path accumulated up to the point of failure.
pub open spec fn bind_model(m: ModelV, v: DocV, strict: bool, p: Seq<char>) -> Result<
    InstV,
    BindErrorV,
>
    decreases mheight(m), 2int, 0int, 0int,
{
    match m {
        ModelV::Leaf(l) => match coerce_scalar(v) {
            Some(s) => Ok(InstV::Leaf { name: l.name, value: s }),
            None => Err(BindErrorV { kind: BindErrorKind::ExpectedScalar, path: child_path(p, l.name) }),
        },
        ModelV::LeafList(l) => match v {
            DocV::Array(items) => match coerce_items(items) {
                Some(vs) => Ok(InstV::LeafList { name: l.name, values: vs }),
                None => Err(
                    BindErrorV {
                        kind: BindErrorKind::ExpectedScalar,
                        path: child_path(p, l.name),
                    },
                ),
            },
            _ => Err(
                BindErrorV { kind: BindErrorKind::ExpectedArray, path: child_path(p, l.name) },
            ),
        },
        ModelV::Container(c) => match v {
            DocV::Object(ms) => match bind_members(c.children, ms, strict, child_path(p, c.name)) {
                Ok(children) => Ok(InstV::Container { name: c.name, children }),
                Err(e) => Err(e),
            },
            _ => Err(
                BindErrorV { kind: BindErrorKind::ExpectedObject, path: child_path(p, c.name) },
            ),
        },
        ModelV::List(l) => match v {
            DocV::Array(items) => match bind_list_elems(
                l,
                items,
                strict,
                child_path(p, l.name),
                Seq::empty(),
            ) {
                Ok(children) => Ok(InstV::List { name: l.name, children }),
                Err(e) => Err(e),
            },
            _ => Err(
                BindErrorV { kind: BindErrorKind::ExpectedArray, path: child_path(p, l.name) },
            ),
        },
    }
}

/// Bind an object's members against a children map, in document order. An
/// unresolved key fails in strict mode and is skipped otherwise.
pub open spec fn bind_members(
    models: Seq<(Seq<char>, ModelV)>,
    ms: Seq<(Seq<char>, DocV)>,
    strict: bool,
    p: Seq<char>,
) -> Result<Seq<InstV>, BindErrorV>
    decreases cheight(models) + 1, 0int, ms.len(), 0int,
{
    if ms.len() == 0 {
        Ok(Seq::empty())
    } else {
        match resolve_child(models, ms[0].0) {
            None => if strict {
                Err(BindErrorV { kind: BindErrorKind::UnknownField, path: p })
            } else {
                bind_members(models, ms.drop_first(), strict, p)
            },
            Some(mv) => {
                proof {
                    lemma_resolve_height(models, ms[0].0);
                }
                match bind_model(mv, ms[0].1, strict, p) {
                    Err(e) => Err(e),
                    Ok(child) => match bind_members(models, ms.drop_first(), strict, p) {
                        Err(e) => Err(e),
                        Ok(rest) => Ok(seq![child] + rest),
                    },
                }
            },
        }
    }
}

/// Bind a list's elements in order, accumulating the entries bound so far;
/// a composite key already present fails with a duplicate-key error rather
/// than merging or dropping an entry.
pub open spec fn bind_list_elems(
    l: crate::model::ListV,
    items: Seq<DocV>,
    strict: bool,
    p: Seq<char>,
    done: Seq<InstV>,
) -> Result<Seq<InstV>, BindErrorV>
    decreases cheight(l.children) + 1, 1int, items.len(), 0int,
{
    if items.len() == 0 {
        Ok(done)
    } else {
        match items[0] {
            DocV::Object(ms) => match key_of(l.keys, items[0]) {
                Err(kind) => Err(BindErrorV { kind, path: p }),
                Ok(key) => if inst_keys(done).contains(key) {
                    Err(BindErrorV { kind: BindErrorKind::DuplicateKey, path: entry_path(p, key) })
                } else {
                    match bind_members(l.children, ms, strict, entry_path(p, key)) {
                        Err(e) => Err(e),
                        Ok(children) => bind_list_elems(
                            l,
                            items.drop_first(),
                            strict,
                            p,
                            done.push(InstV::ListChild { key, children }),
                        ),
                    }
                },
            },
            _ => Err(BindErrorV { kind: BindErrorKind::ExpectedObject, path: p }),
        }
    }
}

/// Bind a whole document against a compiled schema: the member named after
/// the root container is bound as that container, rooted at the empty path.
pub open spec fn bind_root(dm: DataModelV, v: DocV, strict: bool) -> Result<InstV, BindErrorV> {
    bind_model(ModelV::Container(dm.root), doc_member(v, dm.root.name), strict, Seq::empty())
}

/// An object's members; any other value has none.
pub open spec fn obj_members(v: DocV) -> Seq<(Seq<char>, DocV)> {
    match v {
        DocV::Object(ms) => ms,
        _ => Seq::empty(),
    }
}

/// Pairwise-distinct key strings.
pub open spec fn distinct_keys(ks: Seq<Seq<char>>) -> bool {
    forall|i: int, j: int| 0 <= i < j < ks.len() ==> ks[i] != ks[j]
}

/// A list bound against an array of N elements has exactly N entries beyond
/// those already accumulated: no element is ever dropped or merged away.
pub proof fn lemma_bind_list_count(
    l: crate::model::ListV,
    items: Seq<DocV>,
    strict: bool,
    p: Seq<char>,
    done: Seq<InstV>,
)
    ensures
        match bind_list_elems(l, items, strict, p, done) {
            Ok(children) => children.len() == done.len() + items.len(),
            Err(_) => true,
        },
    decreases items.len(),
{
    if items.len() > 0 {
        match items[0] {
            DocV::Object(ms) => match key_of(l.keys, items[0]) {
                Err(_) => {},
                Ok(key) => {
                    if !inst_keys(done).contains(key) {
                        match bind_members(l.children, ms, strict, entry_path(p, key)) {
                            Err(_) => {},
                            Ok(children) => {
                                lemma_bind_list_count(
                                    l,
                                    items.drop_first(),
                                    strict,
                                    p,
                                    done.push(InstV::ListChild { key, children }),
                                );
                            },
                        }
                    }
                },
            },
            _ => {},
        }
    }
}

/// A successfully bound list never holds two entries with the same
/// composite key.
pub proof fn lemma_bind_list_distinct(
    l: crate::model::ListV,
    items: Seq<DocV>,
    strict: bool,
    p: Seq<char>,
    done: Seq<InstV>,
)
    requires
        distinct_keys(inst_keys(done)),
    ensures
        match bind_list_elems(l, items, strict, p, done) {
            Ok(children) => distinct_keys(inst_keys(children)),
            Err(_) => true,
        },
    decreases items.len(),
{
    if items.len() > 0 {
        match items[0] {
            DocV::Object(ms) => match key_of(l.keys, items[0]) {
                Err(_) => {},
                Ok(key) => {
                    if !inst_keys(done).contains(key) {
                        match bind_members(l.children, ms, strict, entry_path(p, key)) {
                            Err(_) => {},
                            Ok(children) => {
                                let done2 = done.push(InstV::ListChild { key, children });
                                assert(inst_keys(done2) =~= inst_keys(done).push(key));
                                assert(distinct_keys(inst_keys(done2))) by {
                                    assert(forall|i: int|
                                        0 <= i < inst_keys(done).len() ==> inst_keys(done)[i]
                                            != key);
                                }
                                lemma_bind_list_distinct(l, items.drop_first(), strict, p, done2);
                            },
                        }
                    }
                },
            },
            _ => {},
        }
    }
}

/// Where every element is an object whose composite key extracts and whose
/// fields bind, pairwise-distinct composite keys — also distinct from every
/// entry already accumulated — make the whole bind succeed; with
/// [`lemma_bind_list_count`], the list then holds exactly one entry per
/// element.
pub proof fn lemma_bind_list_complete(
    l: crate::model::ListV,
    items: Seq<DocV>,
    strict: bool,
    p: Seq<char>,
    done: Seq<InstV>,
)
    requires
        forall|t: int| 0 <= t < items.len() ==> (#[trigger] items[t]) is Object,
        forall|t: int| 0 <= t < items.len() ==> (#[trigger] key_of(l.keys, items[t])) is Ok,
        forall|t: int|
            0 <= t < items.len() ==> bind_members(
                l.children,
                obj_members(#[trigger] items[t]),
                strict,
                entry_path(p, key_of(l.keys, items[t])->Ok_0),
            ) is Ok,
        forall|i: int, j: int|
            0 <= i < j < items.len() ==> key_of(l.keys, items[i])->Ok_0 != key_of(
                l.keys,
                items[j],
            )->Ok_0,
        forall|t: int|
            0 <= t < items.len() ==> !inst_keys(done).contains(
                key_of(l.keys, #[trigger] items[t])->Ok_0,
            ),
    ensures
        bind_list_elems(l, items, strict, p, done) is Ok,
    decreases items.len(),
{
    if items.len() > 0 {
        let key = key_of(l.keys, items[0])->Ok_0;
        let ms = obj_members(items[0]);
        let children = bind_members(l.children, ms, strict, entry_path(p, key))->Ok_0;
        let done2 = done.push(InstV::ListChild { key, children });
        assert(inst_keys(done2) =~= inst_keys(done).push(key));
        let rest = items.drop_first();
        assert(forall|t: int| 0 <= t < rest.len() ==> rest[t] == items[t + 1]);
        assert forall|t: int|
            0 <= t < rest.len() implies !inst_keys(done2).contains(
            key_of(l.keys, #[trigger] rest[t])->Ok_0,
        ) by {
            let kt = key_of(l.keys, rest[t])->Ok_0;
            assert(kt == key_of(l.keys, items[t + 1])->Ok_0);
            assert(kt != key);
            if inst_keys(done2).contains(kt) {
                let w = choose|w: int|
                    0 <= w < inst_keys(done2).len() && inst_keys(done2)[w] == kt;
                assert(w < inst_keys(done).len());
                assert(inst_keys(done)[w] == kt);
                assert(inst_keys(done).contains(kt));
            }
        }
        lemma_bind_list_complete(l, rest, strict, p, done2);
    }
}

/// Where every element is an object whose composite key extracts and whose
/// fields bind, a duplicate composite key — among the elements, or against
/// an entry already accumulated — fails the whole bind with `DuplicateKey`:
/// it is never silently merged or dropped.
pub proof fn lemma_bind_list_duplicate(
    l: crate::model::ListV,
    items: Seq<DocV>,
    strict: bool,
    p: Seq<char>,
    done: Seq<InstV>,
)
    requires
        forall|t: int| 0 <= t < items.len() ==> (#[trigger] items[t]) is Object,
        forall|t: int| 0 <= t < items.len() ==> (#[trigger] key_of(l.keys, items[t])) is Ok,
        forall|t: int|
            0 <= t < items.len() ==> bind_members(
                l.children,
                obj_members(#[trigger] items[t]),
                strict,
                entry_path(p, key_of(l.keys, items[t])->Ok_0),
            ) is Ok,
        (exists|i: int, j: int|
            0 <= i < j < items.len() && key_of(l.keys, items[i])->Ok_0 == key_of(
                l.keys,
                items[j],
            )->Ok_0) || (exists|t: int|
            0 <= t < items.len() && inst_keys(done).contains(key_of(l.keys, items[t])->Ok_0)),
    ensures
        bind_list_elems(l, items, strict, p, done) matches Err(e) && e.kind
            == BindErrorKind::DuplicateKey,
    decreases items.len(),
{
    let key = key_of(l.keys, items[0])->Ok_0;
    if inst_keys(done).contains(key) {
    } else {
        let ms = obj_members(items[0]);
        let children = bind_members(l.children, ms, strict, entry_path(p, key))->Ok_0;
        let done2 = done.push(InstV::ListChild { key, children });
        assert(inst_keys(done2) =~= inst_keys(done).push(key));
        let rest = items.drop_first();
        assert(forall|t: int| 0 <= t < rest.len() ==> rest[t] == items[t + 1]);
        if exists|i: int, j: int|
            0 <= i < j < items.len() && key_of(l.keys, items[i])->Ok_0 == key_of(
                l.keys,
                items[j],
            )->Ok_0 {
            let (i, j) = choose|i: int, j: int|
                0 <= i < j < items.len() && key_of(l.keys, items[i])->Ok_0 == key_of(
                    l.keys,
                    items[j],
                )->Ok_0;
            if i == 0 {
                assert(inst_keys(done2)[inst_keys(done2).len() - 1] == key);
                assert(inst_keys(done2).contains(key_of(l.keys, rest[j - 1])->Ok_0));
            } else {
                assert(key_of(l.keys, rest[i - 1])->Ok_0 == key_of(l.keys, rest[j - 1])->Ok_0);
            }
        } else {
            let t = choose|t: int|
                0 <= t < items.len() && inst_keys(done).contains(key_of(l.keys, items[t])->Ok_0);
            assert(t != 0);
            assert(inst_keys(done2).contains(key_of(l.keys, rest[t - 1])->Ok_0)) by {
                let w = choose|w: int|
                    0 <= w < inst_keys(done).len() && inst_keys(done)[w] == key_of(
                        l.keys,
                        items[t],
                    )->Ok_0;
                assert(inst_keys(done2)[w] == inst_keys(done)[w]);
            }
        }
        lemma_bind_list_duplicate(l, rest, strict, p, done2);
    }
}

// ---------------------------------------------------------------------------
// How an arena represents a bound tree.
// ---------------------------------------------------------------------------

/// Node `i` of the arena represents the bound tree `iv`.
pub open spec fn repr(nodes: Seq<InstanceNode>, i: int, iv: InstV) -> bool
    decreases iv, 0int,
{
    &&& 0 <= i < nodes.len()
    &&& match iv {
        InstV::Leaf { name, value } => nodes[i].data matches InstanceData::Leaf {
            name: n2,
            value: v2,
        } && n2@ == name && v2@ == value,
        InstV::LeafList { name, values } => nodes[i].data matches InstanceData::LeafList {
            name: n2,
            values: vs,
        } && n2@ == name && strs_view(vs@) == values,
        InstV::Container { name, children } => nodes[i].data matches InstanceData::Container {
            name: n2,
            children: cs,
        } && n2@ == name && repr_children(nodes, cs@, children, i),
        InstV::List { name, children } => nodes[i].data matches InstanceData::List {
            name: n2,
            children: cs,
        } && n2@ == name && repr_children(nodes, cs@, children, i),
        InstV::ListChild { key, children } => nodes[i].data matches InstanceData::ListChild {
            key_value: k2,
            children: cs,
        } && k2@ == key && repr_children(nodes, cs@, children, i),
    }
}

/// The arena indices `cs` represent the bound children `ivs`, each a
/// forward link whose back-reference returns to `parent`.
pub open spec fn repr_children(
    nodes: Seq<InstanceNode>,
    cs: Seq<usize>,
    ivs: Seq<InstV>,
    parent: int,
) -> bool
    decreases ivs, ivs.len(),
{
    &&& cs.len() == ivs.len()
    &&& if ivs.len() == 0 {
        true
    } else {
        &&& parent < (cs[0] as int) < nodes.len()
        &&& nodes[cs[0] as int].parent == Some(parent as usize)
        &&& repr(nodes, cs[0] as int, ivs[0])
        &&& repr_children(nodes, cs.drop_first(), ivs.drop_first(), parent)
    }
}

/// Representation only reads the arena from the node's index on, so it
/// survives both appending new nodes and rewriting nodes before it.
pub proof fn lemma_repr_stable(
    nodes1: Seq<InstanceNode>,
    nodes2: Seq<InstanceNode>,
    i: int,
    iv: InstV,
)
    requires
        repr(nodes1, i, iv),
        nodes1.len() <= nodes2.len(),
        forall|j: int| i <= j < nodes1.len() ==> nodes2[j] == nodes1[j],
    ensures
        repr(nodes2, i, iv),
    decreases iv, 0int,
{
    match iv {
        InstV::Container { children, .. } => {
            let cs = children_of(nodes1[i].data);
            lemma_repr_children_stable(nodes1, nodes2, cs, children, i);
        },
        InstV::List { children, .. } => {
            let cs = children_of(nodes1[i].data);
            lemma_repr_children_stable(nodes1, nodes2, cs, children, i);
        },
        InstV::ListChild { children, .. } => {
            let cs = children_of(nodes1[i].data);
            lemma_repr_children_stable(nodes1, nodes2, cs, children, i);
        },
        _ => {},
    }
}

pub proof fn lemma_repr_children_stable(
    nodes1: Seq<InstanceNode>,
    nodes2: Seq<InstanceNode>,
    cs: Seq<usize>,
    ivs: Seq<InstV>,
    parent: int,
)
    requires
        repr_children(nodes1, cs, ivs, parent),
        nodes1.len() <= nodes2.len(),
        forall|j: int| parent < j < nodes1.len() ==> nodes2[j] == nodes1[j],
    ensures
        repr_children(nodes2, cs, ivs, parent),
    decreases ivs, ivs.len(),
{
    if ivs.len() > 0 {
        lemma_repr_stable(nodes1, nodes2, cs[0] as int, ivs[0]);
        lemma_repr_children_stable(nodes1, nodes2, cs.drop_first(), ivs.drop_first(), parent);
    }
}

/// Appending one more represented child keeps the children represented.
pub proof fn lemma_repr_children_push(
    nodes: Seq<InstanceNode>,
    cs: Seq<usize>,
    ivs: Seq<InstV>,
    parent: int,
    c: usize,
    iv: InstV,
)
    requires
        repr_children(nodes, cs, ivs, parent),
        parent < (c as int) < nodes.len(),
        nodes[c as int].parent == Some(parent as usize),
        repr(nodes, c as int, iv),
    ensures
        repr_children(nodes, cs.push(c), ivs.push(iv), parent),
    decreases ivs.len(),
{
    if ivs.len() == 0 {
        assert(cs.push(c)[0] == c);
        assert(ivs.push(iv)[0] == iv);
        assert(cs.push(c).drop_first() =~= Seq::<usize>::empty());
        assert(ivs.push(iv).drop_first() =~= Seq::<InstV>::empty());
        assert(repr_children(nodes, Seq::<usize>::empty(), Seq::<InstV>::empty(), parent));
    } else {
        lemma_repr_children_push(nodes, cs.drop_first(), ivs.drop_first(), parent, c, iv);
        assert(cs.push(c)[0] == cs[0]);
        assert(ivs.push(iv)[0] == ivs[0]);
        assert(cs.push(c).drop_first() =~= cs.drop_first().push(c));
        assert(ivs.push(iv).drop_first() =~= ivs.drop_first().push(iv));
    }
}

/// All child links in `[lo, hi)` point forward within `[lo, hi)`, and each
/// child's back-reference returns to its parent.
pub open spec fn links_ok(nodes: Seq<InstanceNode>, lo: int, hi: int) -> bool {
    forall|j: int, k: int|
        lo <= j < hi && 0 <= k < children_of(nodes[j].data).len() ==> j < (
        #[trigger] children_of(nodes[j].data)[k] as int) < hi && nodes[children_of(
            nodes[j].data,
        )[k] as int].parent == Some(j as usize)
}

/// Every element of `cs` is a represented child: in range, linked back to
/// `parent`, and representing its bound tree.
pub proof fn lemma_repr_children_facts(
    nodes: Seq<InstanceNode>,
    cs: Seq<usize>,
    ivs: Seq<InstV>,
    parent: int,
)
    requires
        repr_children(nodes, cs, ivs, parent),
    ensures
        cs.len() == ivs.len(),
        forall|t: int|
            0 <= t < cs.len() ==> parent < (#[trigger] cs[t] as int) < nodes.len() && nodes[cs[t] as int].parent
                == Some(parent as usize) && repr(nodes, cs[t] as int, ivs[t]),
    decreases ivs.len(),
{
    if ivs.len() > 0 {
        lemma_repr_children_facts(nodes, cs.drop_first(), ivs.drop_first(), parent);
        assert forall|t: int| 0 <= t < cs.len() implies parent < (#[trigger] cs[t] as int)
            < nodes.len() && nodes[cs[t] as int].parent == Some(parent as usize) && repr(
            nodes,
            cs[t] as int,
            ivs[t],
        ) by {
            if t > 0 {
                assert(cs.drop_first()[t - 1] == cs[t]);
                assert(ivs.drop_first()[t - 1] == ivs[t]);
            }
        }
    }
}

/// All parents in `[lo, hi)` are set and point backward, no farther back
/// than `pmin`.
pub open spec fn parents_in(nodes: Seq<InstanceNode>, lo: int, hi: int, pmin: int) -> bool {
    forall|j: int|
        lo <= j < hi ==> (#[trigger] nodes[j].parent) is Some && pmin <= (
        nodes[j].parent->0 as int) < j
}

/// One arena is an extension of another.
pub open spec fn arena_extends(a: Seq<InstanceNode>, b: Seq<InstanceNode>) -> bool {
    &&& a.len() <= b.len()
    &&& b.subrange(0, a.len() as int) == a
}

pub proof fn lemma_arena_extends_index(a: Seq<InstanceNode>, b: Seq<InstanceNode>)
    requires
        arena_extends(a, b),
    ensures
        forall|j: int| 0 <= j < a.len() ==> b[j] == a[j],
{
    assert forall|j: int| 0 <= j < a.len() implies b[j] == a[j] by {
        assert(b.subrange(0, a.len() as int)[j] == b[j]);
    }
}

pub proof fn lemma_arena_extends_trans(
    a: Seq<InstanceNode>,
    b: Seq<InstanceNode>,
    c: Seq<InstanceNode>,
)
    requires
        arena_extends(a, b),
        arena_extends(b, c),
    ensures
        arena_extends(a, c),
{
    lemma_arena_extends_index(a, b);
    lemma_arena_extends_index(b, c);
    assert(c.subrange(0, a.len() as int) =~= a);
}

// ---------------------------------------------------------------------------
// Paths.
// ---------------------------------------------------------------------------

/// The address of node `i`: each ancestor contributes `/<name>`, except a
/// list entry, which contributes `=<key>` after its owning list.
pub open spec fn path_of(nodes: Seq<InstanceNode>, i: int) -> Seq<char>
    decreases i,
{
    if 0 <= i < nodes.len() {
        let parent_path = match nodes[i].parent {
            Some(p) => if 0 <= (p as int) < i {
                path_of(nodes, p as int)
            } else {
                Seq::empty()
            },
            None => Seq::empty(),
        };
        match nodes[i].data {
            InstanceData::Leaf { name, .. } => parent_path + "/"@ + name@,
            InstanceData::LeafList { name, .. } => parent_path + "/"@ + name@,
            InstanceData::Container { name, .. } => parent_path + "/"@ + name@,
            InstanceData::List { name, .. } => parent_path + "/"@ + name@,
            InstanceData::ListChild { key_value, .. } => parent_path + "="@ + key_value@,
        }
    } else {
        Seq::empty()
    }
}

impl DataModelInstance {
    /// The address of node `i`. Pure: the result is a function of the tree
    /// and the index alone, so repeated calls return the identical string.
    pub fn get_path(&self, i: usize) -> (r: String)
        requires
            self.wf(),
            i < self.nodes@.len(),
        ensures
            r@ == path_of(self.nodes@, i as int),
        decreases i,
    {
        let parent_path: String = match self.nodes[i].parent {
            Some(p) => self.get_path(p),
            None => String::new(),
        };
        match &self.nodes[i].data {
            InstanceData::Leaf { name, .. } => parent_path.concat("/").concat(name.as_str()),
            InstanceData::LeafList { name, .. } => parent_path.concat("/").concat(name.as_str()),
            InstanceData::Container { name, .. } => parent_path.concat("/").concat(name.as_str()),
            InstanceData::List { name, .. } => parent_path.concat("/").concat(name.as_str()),
            InstanceData::ListChild { key_value, .. } => parent_path.concat("=").concat(
                key_value.as_str(),
            ),
        }
    }
}

// ---------------------------------------------------------------------------
// The leaf visitor.
// ---------------------------------------------------------------------------

/// The arena indices of the terminal (leaf / leaf-list) nodes under `i`,
/// depth first. Interior nodes contribute nothing of their own.
pub open spec fn leaves_of(nodes: Seq<InstanceNode>, i: int) -> Seq<usize>
    decreases nodes.len() - i, 1int, 0int,
{
    if 0 <= i < nodes.len() {
        match nodes[i].data {
            InstanceData::Leaf { .. } => seq![i as usize],
            InstanceData::LeafList { .. } => seq![i as usize],
            _ => leaves_of_children(nodes, children_of(nodes[i].data), i),
        }
    } else {
        Seq::empty()
    }
}

pub open spec fn leaves_of_children(nodes: Seq<InstanceNode>, cs: Seq<usize>, floor: int) -> Seq<
    usize,
>
    decreases nodes.len() - floor, 0int, cs.len(),
{
    if cs.len() == 0 {
        Seq::empty()
    } else {
        let head = if floor < (cs[0] as int) < nodes.len() {
            leaves_of(nodes, cs[0] as int)
        } else {
            Seq::empty()
        };
        head + leaves_of_children(nodes, cs.drop_first(), floor)
    }
}

fn visit_from(nodes: &Vec<InstanceNode>, i: usize, out: &mut Vec<usize>)
    requires
        wf_nodes(nodes@),
        i < nodes@.len(),
    ensures
        final(out)@ == old(out)@ + leaves_of(nodes@, i as int),
    decreases nodes@.len() - i,
{
    let ghost entry = out@;
    match &nodes[i].data {
        InstanceData::Leaf { .. } => {
            out.push(i);
            assert(out@ =~= entry + leaves_of(nodes@, i as int));
        },
        InstanceData::LeafList { .. } => {
            out.push(i);
            assert(out@ =~= entry + leaves_of(nodes@, i as int));
        },
        InstanceData::Container { children, .. } => {
            visit_children(nodes, children, i, out);
        },
        InstanceData::List { children, .. } => {
            visit_children(nodes, children, i, out);
        },
        InstanceData::ListChild { children, .. } => {
            visit_children(nodes, children, i, out);
        },
    }
}

fn visit_children(nodes: &Vec<InstanceNode>, children: &Vec<usize>, i: usize, out: &mut Vec<usize>)
    requires
        wf_nodes(nodes@),
        i < nodes@.len(),
        children@ == children_of(nodes@[i as int].data),
    ensures
        final(out)@ == old(out)@ + leaves_of_children(nodes@, children@, i as int),
    decreases nodes@.len() - i, 0int,
{
    let ghost entry = out@;
    let ghost csv = children@;
    proof {
        assert(csv.skip(0) =~= csv);
        assert(entry + Seq::<usize>::empty() =~= entry);
    }
    let mut k: usize = 0;
    while k < children.len()
        invariant
            k <= csv.len(),
            csv == children@,
            csv == children_of(nodes@[i as int].data),
            wf_nodes(nodes@),
            i < nodes@.len(),
            out@ + leaves_of_children(nodes@, csv.skip(k as int), i as int) == entry
                + leaves_of_children(nodes@, csv, i as int),
        decreases csv.len() - k,
    {
        assert(csv.skip(k as int)[0] == csv[k as int]);
        assert((i as int) < (csv[k as int] as int) < nodes@.len());
        let c = children[k];
        let ghost before = out@;
        visit_from(nodes, c, out);
        proof {
            assert(csv.skip(k as int).drop_first() =~= csv.skip(k + 1));
            assert(before + (leaves_of(nodes@, c as int) + leaves_of_children(
                nodes@,
                csv.skip(k + 1),
                i as int,
            )) =~= out@ + leaves_of_children(nodes@, csv.skip(k + 1), i as int));
        }
        k = k + 1;
    }
    assert(csv.skip(csv.len() as int) =~= Seq::<usize>::empty());
    assert(out@ =~= out@ + Seq::<usize>::empty());
}

impl DataModelInstance {
    /// The uniform depth-first traversal: the arena indices of every
    /// terminal (leaf / leaf-list) node, in visiting order. Interior nodes
    /// are never reported. A caller wanting early termination stops reading
    /// the sequence where it pleases.
    pub fn visit(&self) -> (r: Vec<usize>)
        requires
            self.wf(),
        ensures
            r@ == leaves_of(self.nodes@, 0),
    {
        let mut out: Vec<usize> = Vec::new();
        visit_from(&self.nodes, 0, &mut out);
        assert(Seq::<usize>::empty() + leaves_of(self.nodes@, 0) =~= leaves_of(self.nodes@, 0));
        out
    }
}

/// A sequence cut off at `limit` elements.
pub open spec fn take_to(s: Seq<usize>, limit: int) -> Seq<usize> {
    if s.len() <= limit {
        s
    } else {
        s.take(limit)
    }
}

proof fn lemma_take_to_concat(a: Seq<usize>, c: Seq<usize>, limit: int)
    requires
        0 <= limit,
    ensures
        take_to(take_to(a, limit) + c, limit) == take_to(a + c, limit),
{
    if a.len() <= limit {
    } else {
        assert(a.take(limit).len() == limit);
        assert(take_to(a.take(limit) + c, limit) =~= a.take(limit));
        assert(take_to(a + c, limit) =~= a.take(limit));
    }
}

proof fn lemma_leaves_children_push(nodes: Seq<InstanceNode>, cs: Seq<usize>, c: usize, floor: int)
    ensures
        leaves_of_children(nodes, cs.push(c), floor) == leaves_of_children(nodes, cs, floor) + (
        if floor < (c as int) < nodes.len() {
            leaves_of(nodes, c as int)
        } else {
            Seq::<usize>::empty()
        }),
    decreases cs.len(),
{
    let tail = if floor < (c as int) < nodes.len() {
        leaves_of(nodes, c as int)
    } else {
        Seq::<usize>::empty()
    };
    if cs.len() == 0 {
        assert(cs.push(c)[0] == c);
        assert(cs.push(c).drop_first() =~= Seq::<usize>::empty());
        assert(leaves_of_children(nodes, Seq::<usize>::empty(), floor) =~= Seq::<usize>::empty());
        assert(tail + Seq::<usize>::empty() =~= tail);
        assert(Seq::<usize>::empty() + tail =~= tail);
    } else {
        lemma_leaves_children_push(nodes, cs.drop_first(), c, floor);
        assert(cs.push(c)[0] == cs[0]);
        assert(cs.push(c).drop_first() =~= cs.drop_first().push(c));
        let head = if floor < (cs[0] as int) < nodes.len() {
            leaves_of(nodes, cs[0] as int)
        } else {
            Seq::<usize>::empty()
        };
        assert(head + (leaves_of_children(nodes, cs.drop_first(), floor) + tail) =~= (head
            + leaves_of_children(nodes, cs.drop_first(), floor)) + tail);
    }
}

#[verifier::loop_isolation(false)]
fn visit_until_from(nodes: &Vec<InstanceNode>, i: usize, limit: usize, out: &mut Vec<usize>)
    requires
        wf_nodes(nodes@),
        i < nodes@.len(),
        old(out)@.len() <= limit,
    ensures
        final(out)@ == take_to(old(out)@ + leaves_of(nodes@, i as int), limit as int),
        final(out)@.len() <= limit,
    decreases nodes@.len() - i,
{
    let ghost entry = out@;
    if out.len() >= limit {
        proof {
            if entry.len() + leaves_of(nodes@, i as int).len() <= limit {
                assert(leaves_of(nodes@, i as int) =~= Seq::<usize>::empty());
                assert(entry + leaves_of(nodes@, i as int) =~= entry);
            } else {
                assert((entry + leaves_of(nodes@, i as int)).take(limit as int) =~= entry);
            }
        }
        return ;
    }
    match &nodes[i].data {
        InstanceData::Leaf { .. } => {
            out.push(i);
            assert(out@ =~= take_to(entry + leaves_of(nodes@, i as int), limit as int));
        },
        InstanceData::LeafList { .. } => {
            out.push(i);
            assert(out@ =~= take_to(entry + leaves_of(nodes@, i as int), limit as int));
        },
        InstanceData::Container { children, .. } => {
            visit_children_until(nodes, children, i, limit, out);
        },
        InstanceData::List { children, .. } => {
            visit_children_until(nodes, children, i, limit, out);
        },
        InstanceData::ListChild { children, .. } => {
            visit_children_until(nodes, children, i, limit, out);
        },
    }
}

#[verifier::loop_isolation(false)]
fn visit_children_until(
    nodes: &Vec<InstanceNode>,
    children: &Vec<usize>,
    i: usize,
    limit: usize,
    out: &mut Vec<usize>,
)
    requires
        wf_nodes(nodes@),
        i < nodes@.len(),
        children@ == children_of(nodes@[i as int].data),
        old(out)@.len() <= limit,
    ensures
        final(out)@ == take_to(
            old(out)@ + leaves_of_children(nodes@, children@, i as int),
            limit as int,
        ),
        final(out)@.len() <= limit,
    decreases nodes@.len() - i, 0int,
{
    let ghost entry = out@;
    let ghost csv = children@;
    proof {
        assert(csv.take(0) =~= Seq::<usize>::empty());
        assert(leaves_of_children(nodes@, Seq::<usize>::empty(), i as int) =~= Seq::<
            usize,
        >::empty());
        assert(entry + Seq::<usize>::empty() =~= entry);
    }
    let mut k: usize = 0;
    while k < children.len()
        invariant
            k <= csv.len(),
            out@.len() <= limit,
            out@ == take_to(
                entry + leaves_of_children(nodes@, csv.take(k as int), i as int),
                limit as int,
            ),
        decreases csv.len() - k,
    {
        let c = children[k];
        assert((i as int) < (c as int) < nodes@.len());
        let ghost before = out@;
        visit_until_from(nodes, c, limit, out);
        proof {
            lemma_leaves_children_push(nodes@, csv.take(k as int), c, i as int);
            assert(csv.take(k as int).push(c) =~= csv.take(k + 1));
            lemma_take_to_concat(
                entry + leaves_of_children(nodes@, csv.take(k as int), i as int),
                leaves_of(nodes@, c as int),
                limit as int,
            );
            assert((entry + leaves_of_children(nodes@, csv.take(k as int), i as int)) + leaves_of(
                nodes@,
                c as int,
            ) =~= entry + leaves_of_children(nodes@, csv.take(k + 1), i as int));
        }
        k = k + 1;
    }
    assert(csv.take(csv.len() as int) =~= csv);
}

impl DataModelInstance {
    /// The depth-first traversal cut off after `limit` terminal nodes: the
    /// early-termination form of [`DataModelInstance::visit`]. Descent stops
    /// as soon as the budget is exhausted.
    pub fn visit_until(&self, limit: usize) -> (r: Vec<usize>)
        requires
            self.wf(),
        ensures
            r@ == take_to(leaves_of(self.nodes@, 0), limit as int),
            r@.len() <= limit,
    {
        let mut out: Vec<usize> = Vec::new();
        visit_until_from(&self.nodes, 0, limit, &mut out);
        assert(Seq::<usize>::empty() + leaves_of(self.nodes@, 0) =~= leaves_of(self.nodes@, 0));
        out
    }
}

// ---------------------------------------------------------------------------
// The executable binder.
// ---------------------------------------------------------------------------

fn path_child_exec(p: &String, name: &String) -> (r: String)
    ensures
        r@ == child_path(p@, name@),
{
    p.clone().concat("/").concat(name.as_str())
}

fn path_entry_exec(p: &String, key: &String) -> (r: String)
    ensures
        r@ == entry_path(p@, key@),
{
    p.clone().concat("=").concat(key.as_str())
}

fn set_node(nodes: &mut Vec<InstanceNode>, i: usize, n: InstanceNode)
    requires
        i < old(nodes)@.len(),
    ensures
        final(nodes)@ == old(nodes)@.update(i as int, n),
{
    let ghost before = nodes@;
    nodes.remove(i);
    nodes.insert(i, n);
    assert(nodes@ =~= before.update(i as int, n));
}

proof fn lemma_join_push(ps: Seq<Seq<char>>, x: Seq<char>)
    ensures
        join_commas(ps.push(x)) == if ps.len() == 0 {
            x
        } else {
            join_commas(ps) + ","@ + x
        },
    decreases ps.len(),
{
    if ps.len() == 0 {
        assert(ps.push(x)[0] == x);
    } else {
        lemma_join_push(ps.drop_first(), x);
        assert(ps.push(x)[0] == ps[0]);
        assert(ps.push(x).drop_first() =~= ps.drop_first().push(x));
        if ps.len() == 1 {
            assert(ps.drop_first().len() == 0);
        } else {
            assert(ps[0] + ","@ + (join_commas(ps.drop_first()) + ","@ + x) =~= (ps[0] + ","@
                + join_commas(ps.drop_first())) + ","@ + x);
        }
    }
}

fn contains_str(keys: &Vec<String>, k: &String) -> (r: bool)
    ensures
        r == strs_view(keys@).contains(k@),
{
    let mut i: usize = 0;
    while i < keys.len()
        invariant
            i <= keys@.len(),
            forall|t: int| 0 <= t < i ==> strs_view(keys@)[t] != k@,
        decreases keys@.len() - i,
    {
        if keys[i] == *k {
            assert(strs_view(keys@)[i as int] == k@);
            return true;
        }
        i = i + 1;
    }
    false
}

/// The composite key of one list element: each declared key field resolved
/// against the element (exact name first, then its kebab-case form),
/// coerced to its string form, joined in order with `,`.
#[verifier::loop_isolation(false)]
pub fn get_key_value(model: &List, value: &DocValue) -> (r: Result<String, BindErrorKind>)
    ensures
        match key_of(strs_view(model.keys@), value@) {
            Ok(ks) => r is Ok && r->Ok_0@ == ks,
            Err(e) => r is Err && r->Err_0 == e,
        },
{
    let ghost kv = strs_view(model.keys@);
    let mut parts: Vec<String> = Vec::new();
    proof {
        assert(kv.skip(0) =~= kv);
        if key_parts(kv, value@) is Ok {
            assert(strs_view(parts@) + key_parts(kv, value@)->Ok_0 =~= key_parts(
                kv,
                value@,
            )->Ok_0);
        }
    }
    let mut i: usize = 0;
    while i < model.keys.len()
        invariant
            i <= model.keys@.len(),
            kv == strs_view(model.keys@),
            kv.len() == model.keys@.len(),
            match key_parts(kv.skip(i as int), value@) {
                Ok(rest) => key_parts(kv, value@) == Ok::<Seq<Seq<char>>, BindErrorKind>(
                    strs_view(parts@) + rest,
                ),
                Err(e) => key_parts(kv, value@) == Err::<Seq<Seq<char>>, BindErrorKind>(e),
            },
        decreases model.keys@.len() - i,
    {
        assert(kv.skip(i as int)[0] == kv[i as int]);
        let key = &model.keys[i];
        let first = crate::doc::index_doc(value, key);
        let use_first = match first {
            Some(x) => !(matches!(x, DocValue::Null)),
            None => false,
        };
        let chosen: Option<&DocValue> = if use_first {
            first
        } else {
            let kb = crate::names::to_kebab_case(key.as_str());
            crate::doc::index_doc(value, &kb)
        };
        let ghost kf = key_field_of(value@, kv[i as int]);
        proof {
            match chosen {
                Some(x) => {
                    assert(kf == x@);
                },
                None => {
                    assert(kf == DocV::Null);
                },
            }
        }
        match chosen {
            None => {
                return Err(BindErrorKind::MissingKeyField);
            },
            Some(x) => {
                if matches!(x, DocValue::Null) {
                    return Err(BindErrorKind::MissingKeyField);
                }
                match crate::doc::coerce_value(x) {
                    None => {
                        return Err(BindErrorKind::NonScalarKeyField);
                    },
                    Some(s) => {
                        let ghost before = strs_view(parts@);
                        let ghost sv = s@;
                        parts.push(s);
                        proof {
                            assert(strs_view(parts@) =~= before.push(sv));
                            assert(kv.skip(i as int).drop_first() =~= kv.skip(i + 1));
                            if key_parts(kv.skip(i + 1), value@) is Ok {
                                let rest2 = key_parts(kv.skip(i + 1), value@)->Ok_0;
                                assert(key_parts(kv.skip(i as int), value@) == Ok::<
                                    Seq<Seq<char>>,
                                    BindErrorKind,
                                >(seq![sv] + rest2));
                                assert(before + (seq![sv] + rest2) =~= strs_view(parts@) + rest2);
                            }
                        }
                    },
                }
            },
        }
        i = i + 1;
    }
    proof {
        assert(kv.skip(model.keys@.len() as int) =~= Seq::<Seq<char>>::empty());
        if key_parts(kv, value@) is Ok {
            assert(strs_view(parts@) + Seq::<Seq<char>>::empty() =~= strs_view(parts@));
        }
    }
    let ghost pv = strs_view(parts@);
    if parts.len() == 0 {
        return Ok(String::new());
    }
    let mut acc: String = parts[0].clone();
    proof {
        assert(pv.take(1).len() == 1);
        assert(pv.take(1)[0] == pv[0]);
    }
    let mut t: usize = 1;
    while t < parts.len()
        invariant
            1 <= t <= parts@.len(),
            pv == strs_view(parts@),
            pv.len() == parts@.len(),
            acc@ == join_commas(pv.take(t as int)),
        decreases parts@.len() - t,
    {
        let piece = &parts[t];
        acc = acc.concat(",").concat(piece.as_str());
        proof {
            lemma_join_push(pv.take(t as int), pv[t as int]);
            assert(pv.take(t as int).push(pv[t as int]) =~= pv.take(t + 1));
        }
        t = t + 1;
    }
    assert(pv.take(parts@.len() as int) =~= pv);
    Ok(acc)
}

#[verifier::loop_isolation(false)]
fn bind_model_node(
    m: &Model,
    v: &DocValue,
    strict: bool,
    path: &String,
    nodes: &mut Vec<InstanceNode>,
    parent: Option<usize>,
) -> (r: Result<usize, BindError>)
    ensures
        match bind_model(m@, v@, strict, path@) {
            Ok(iv) => {
                &&& r is Ok
                &&& (r->Ok_0 as int) == old(nodes)@.len()
                &&& arena_extends(old(nodes)@, final(nodes)@)
                &&& old(nodes)@.len() < final(nodes)@.len()
                &&& final(nodes)@[r->Ok_0 as int].parent == parent
                &&& parents_in(
                    final(nodes)@,
                    old(nodes)@.len() as int + 1,
                    final(nodes)@.len() as int,
                    old(nodes)@.len() as int,
                )
                &&& links_ok(final(nodes)@, old(nodes)@.len() as int, final(nodes)@.len() as int)
                &&& repr(final(nodes)@, old(nodes)@.len() as int, iv)
            },
            Err(e) => r is Err && r->Err_0@ == e,
        },
    decreases mheight(m@), 2int,
{
    match m {
        Model::Leaf(l) => {
            match crate::doc::coerce_value(v) {
                Some(s) => {
                    let i = nodes.len();
                    nodes.push(
                        InstanceNode {
                            parent,
                            data: InstanceData::Leaf { name: l.name.clone(), value: s },
                        },
                    );
                    assert(nodes@.subrange(0, i as int) =~= old(nodes)@);
                    Ok(i)
                },
                None => Err(
                    BindError {
                        kind: BindErrorKind::ExpectedScalar,
                        path: path_child_exec(path, &l.name),
                    },
                ),
            }
        },
        Model::LeafList(l) => {
            match v {
                DocValue::Array(items) => {
                    let ghost dv = docs_view(items@);
                    proof {
                        lemma_docs_view(items@);
                        assert(dv.skip(0) =~= dv);
                        if coerce_items(dv) is Some {
                            assert(Seq::<Seq<char>>::empty() + coerce_items(dv)->0 =~= coerce_items(
                                dv,
                            )->0);
                        }
                    }
                    let mut vals: Vec<String> = Vec::new();
                    let mut t: usize = 0;
                    while t < items.len()
                        invariant
                            t <= items@.len(),
                            dv == docs_view(items@),
                            dv.len() == items@.len(),
                            forall|q: int| 0 <= q < dv.len() ==> dv[q] == doc_view(items@[q]),
                            match coerce_items(dv.skip(t as int)) {
                                Some(rest) => coerce_items(dv) == Some(strs_view(vals@) + rest),
                                None => coerce_items(dv) is None,
                            },
                        decreases items@.len() - t,
                    {
                        assert(dv.skip(t as int)[0] == dv[t as int]);
                        match crate::doc::coerce_value(&items[t]) {
                            None => {
                                return Err(
                                    BindError {
                                        kind: BindErrorKind::ExpectedScalar,
                                        path: path_child_exec(path, &l.name),
                                    },
                                );
                            },
                            Some(s) => {
                                let ghost before = strs_view(vals@);
                                let ghost sv = s@;
                                vals.push(s);
                                proof {
                                    assert(strs_view(vals@) =~= before.push(sv));
                                    assert(dv.skip(t as int).drop_first() =~= dv.skip(t + 1));
                                    if coerce_items(dv.skip(t + 1)) is Some {
                                        let rest2 = coerce_items(dv.skip(t + 1))->0;
                                        assert(coerce_items(dv.skip(t as int)) == Some(
                                            seq![sv] + rest2,
                                        ));
                                        assert(before + (seq![sv] + rest2) =~= strs_view(vals@)
                                            + rest2);
                                    }
                                }
                            },
                        }
                        t = t + 1;
                    }
                    proof {
                        assert(dv.skip(items@.len() as int) =~= Seq::<DocV>::empty());
                        assert(strs_view(vals@) + Seq::<Seq<char>>::empty() =~= strs_view(vals@));
                    }
                    let i = nodes.len();
                    nodes.push(
                        InstanceNode {
                            parent,
                            data: InstanceData::LeafList { name: l.name.clone(), values: vals },
                        },
                    );
                    assert(nodes@.subrange(0, i as int) =~= old(nodes)@);
                    Ok(i)
                },
                _ => Err(
                    BindError {
                        kind: BindErrorKind::ExpectedArray,
                        path: path_child_exec(path, &l.name),
                    },
                ),
            }
        },
        Model::Container(c) => bind_container_node(c, v, strict, path, nodes, parent),
        Model::List(l) => bind_list_node(l, v, strict, path, nodes, parent),
    }
}

#[verifier::loop_isolation(false)]
fn bind_container_node(
    c: &Container,
    v: &DocValue,
    strict: bool,
    path: &String,
    nodes: &mut Vec<InstanceNode>,
    parent: Option<usize>,
) -> (r: Result<usize, BindError>)
    ensures
        match bind_model(ModelV::Container(container_view(*c)), v@, strict, path@) {
            Ok(iv) => {
                &&& r is Ok
                &&& (r->Ok_0 as int) == old(nodes)@.len()
                &&& arena_extends(old(nodes)@, final(nodes)@)
                &&& old(nodes)@.len() < final(nodes)@.len()
                &&& final(nodes)@[r->Ok_0 as int].parent == parent
                &&& parents_in(
                    final(nodes)@,
                    old(nodes)@.len() as int + 1,
                    final(nodes)@.len() as int,
                    old(nodes)@.len() as int,
                )
                &&& links_ok(final(nodes)@, old(nodes)@.len() as int, final(nodes)@.len() as int)
                &&& repr(final(nodes)@, old(nodes)@.len() as int, iv)
            },
            Err(e) => r is Err && r->Err_0@ == e,
        },
    decreases cheight(children_view(c.children@)) + 1, 1int,
{
    let np = path_child_exec(path, &c.name);
    match v {
        DocValue::Object(ms) => {
            let pc = nodes.len();
            nodes.push(
                InstanceNode {
                    parent,
                    data: InstanceData::Container { name: c.name.clone(), children: Vec::new() },
                },
            );
            let ghost shelled = nodes@;
            assert(shelled.subrange(0, pc as int) =~= old(nodes)@);
            match bind_members_node(&c.children, ms, strict, &np, nodes, pc) {
                Err(e) => Err(e),
                Ok(out) => {
                    let ghost grown = nodes@;
                    let ghost ivs = bind_members(
                        children_view(c.children@),
                        members_view(ms@),
                        strict,
                        np@,
                    )->Ok_0;
                    let node = InstanceNode {
                        parent,
                        data: InstanceData::Container { name: c.name.clone(), children: out },
                    };
                    set_node(nodes, pc, node);
                    proof {
                        lemma_arena_extends_index(shelled, grown);
                        assert(nodes@.subrange(0, pc as int) =~= old(nodes)@);
                        assert(nodes@.len() == grown.len());
                        assert(forall|j: int|
                            0 <= j < grown.len() && j != pc ==> nodes@[j] == grown[j]);
                        lemma_repr_children_stable(
                            grown,
                            nodes@,
                            children_of(node.data),
                            ivs,
                            pc as int,
                        );
                        lemma_repr_children_facts(nodes@, children_of(node.data), ivs, pc as int);
                        assert forall|j: int|
                            pc + 1 <= j < nodes@.len() implies (#[trigger] nodes@[j].parent) is Some
                            && (pc as int) <= (nodes@[j].parent->0 as int) < j by {
                            assert(nodes@[j] == grown[j]);
                        }
                        assert forall|j: int, k: int|
                            (pc as int) <= j < nodes@.len() && 0 <= k < children_of(
                                nodes@[j].data,
                            ).len() implies j < (#[trigger] children_of(nodes@[j].data)[k] as int)
                            < nodes@.len() && nodes@[children_of(nodes@[j].data)[k] as int].parent
                            == Some(j as usize) by {
                            if j == pc {
                                assert(children_of(nodes@[j].data) == children_of(node.data));
                            } else {
                                assert(nodes@[j] == grown[j]);
                                assert((children_of(grown[j].data)[k] as int) > j > pc);
                                assert(nodes@[children_of(grown[j].data)[k] as int] == grown[
                                    children_of(grown[j].data)[k] as int
                                ]);
                            }
                        }
                    }
                    Ok(pc)
                },
            }
        },
        _ => Err(BindError { kind: BindErrorKind::ExpectedObject, path: np }),
    }
}

#[verifier::loop_isolation(false)]
fn bind_members_node(
    models: &Vec<(String, Model)>,
    ms: &Vec<(String, DocValue)>,
    strict: bool,
    path: &String,
    nodes: &mut Vec<InstanceNode>,
    parent: usize,
) -> (r: Result<Vec<usize>, BindError>)
    requires
        (parent as int) < old(nodes)@.len(),
    ensures
        match bind_members(children_view(models@), members_view(ms@), strict, path@) {
            Ok(ivs) => {
                &&& r is Ok
                &&& arena_extends(old(nodes)@, final(nodes)@)
                &&& (forall|t: int|
                    0 <= t < r->Ok_0@.len() ==> old(nodes)@.len() <= (#[trigger] r->Ok_0@[t] as int)
                        < final(nodes)@.len())
                &&& parents_in(
                    final(nodes)@,
                    old(nodes)@.len() as int,
                    final(nodes)@.len() as int,
                    parent as int,
                )
                &&& links_ok(final(nodes)@, old(nodes)@.len() as int, final(nodes)@.len() as int)
                &&& repr_children(final(nodes)@, r->Ok_0@, ivs, parent as int)
            },
            Err(e) => r is Err && r->Err_0@ == e,
        },
    decreases cheight(children_view(models@)) + 1, 0int,
{
    let ghost modelsv = children_view(models@);
    let ghost msv = members_view(ms@);
    let ghost lo = nodes@.len() as int;
    proof {
        lemma_members_view(ms@);
        assert(msv.skip(0) =~= msv);
        if bind_members(modelsv, msv, strict, path@) is Ok {
            assert(Seq::<InstV>::empty() + bind_members(modelsv, msv, strict, path@)->Ok_0
                =~= bind_members(modelsv, msv, strict, path@)->Ok_0);
        }
    }
    let mut out: Vec<usize> = Vec::new();
    let ghost mut built: Seq<InstV> = Seq::empty();
    proof {
        assert(nodes@.subrange(0, nodes@.len() as int) =~= nodes@);
    }
    let mut t: usize = 0;
    while t < ms.len()
        invariant
            t <= ms@.len(),
            msv == members_view(ms@),
            msv.len() == ms@.len(),
            forall|q: int| 0 <= q < msv.len() ==> msv[q] == (ms@[q].0@, doc_view(ms@[q].1)),
            modelsv == children_view(models@),
            (parent as int) < lo,
            lo == old(nodes)@.len() as int,
            arena_extends(old(nodes)@, nodes@),
            parents_in(nodes@, lo, nodes@.len() as int, parent as int),
            links_ok(nodes@, lo, nodes@.len() as int),
            out@.len() == built.len(),
            forall|q: int| 0 <= q < out@.len() ==> lo <= (#[trigger] out@[q] as int) < nodes@.len(),
            repr_children(nodes@, out@, built, parent as int),
            match bind_members(modelsv, msv.skip(t as int), strict, path@) {
                Ok(rest) => bind_members(modelsv, msv, strict, path@) == Ok::<
                    Seq<InstV>,
                    BindErrorV,
                >(built + rest),
                Err(e) => bind_members(modelsv, msv, strict, path@) == Err::<
                    Seq<InstV>,
                    BindErrorV,
                >(e),
            },
        decreases ms@.len() - t,
    {
        assert(msv.skip(t as int)[0] == msv[t as int]);
        let k = &ms[t].0;
        let v = &ms[t].1;
        match crate::model::resolve_model(models, k) {
            None => {
                if strict {
                    return Err(
                        BindError { kind: BindErrorKind::UnknownField, path: path.clone() },
                    );
                }
                assert(msv.skip(t as int).drop_first() =~= msv.skip(t + 1));
            },
            Some(child_m) => {
                proof {
                    lemma_resolve_height(modelsv, k@);
                }
                let ghost pre = nodes@;
                let ghost before_built = built;
                let ghost before_out = out@;
                match bind_model_node(child_m, v, strict, path, nodes, Some(parent)) {
                    Err(e) => {
                        return Err(e);
                    },
                    Ok(ci) => {
                        let ghost iv = bind_model(model_view(*child_m), v@, strict, path@)->Ok_0;
                        out.push(ci);
                        proof {
                            built = built.push(iv);
                            lemma_arena_extends_index(pre, nodes@);
                            lemma_arena_extends_trans(old(nodes)@, pre, nodes@);
                            lemma_repr_children_stable(
                                pre,
                                nodes@,
                                before_out,
                                before_built,
                                parent as int,
                            );
                            lemma_repr_children_push(
                                nodes@,
                                before_out,
                                before_built,
                                parent as int,
                                ci,
                                iv,
                            );
                            assert(out@ =~= before_out.push(ci));
                            assert forall|j: int|
                                lo <= j < nodes@.len() implies (#[trigger] nodes@[j].parent) is Some
                                && (parent as int) <= (nodes@[j].parent->0 as int) < j by {
                                if j < pre.len() {
                                    assert(nodes@[j] == pre[j]);
                                } else if j == ci as int {
                                    assert(nodes@[j].parent == Some(parent));
                                }
                            }
                            assert forall|j: int, k2: int|
                                lo <= j < nodes@.len() && 0 <= k2 < children_of(
                                    nodes@[j].data,
                                ).len() implies j < (#[trigger] children_of(
                                nodes@[j].data,
                            )[k2] as int) < nodes@.len() && nodes@[children_of(
                                nodes@[j].data,
                            )[k2] as int].parent == Some(j as usize) by {
                                if j < pre.len() {
                                    assert(nodes@[j] == pre[j]);
                                    assert((children_of(pre[j].data)[k2] as int) < pre.len());
                                    assert(nodes@[children_of(pre[j].data)[k2] as int] == pre[
                                        children_of(pre[j].data)[k2] as int
                                    ]);
                                }
                            }
                            assert(msv.skip(t as int).drop_first() =~= msv.skip(t + 1));
                            if bind_members(modelsv, msv.skip(t + 1), strict, path@) is Ok {
                                let rest2 = bind_members(
                                    modelsv,
                                    msv.skip(t + 1),
                                    strict,
                                    path@,
                                )->Ok_0;
                                assert(bind_members(modelsv, msv.skip(t as int), strict, path@)
                                    == Ok::<Seq<InstV>, BindErrorV>(seq![iv] + rest2));
                                assert(before_built + (seq![iv] + rest2) =~= built + rest2);
                            }
                        }
                    },
                }
            },
        }
        t = t + 1;
    }
    proof {
        assert(msv.skip(ms@.len() as int) =~= Seq::<(Seq<char>, DocV)>::empty());
        if bind_members(modelsv, msv, strict, path@) is Ok {
            assert(built + Seq::<InstV>::empty() =~= built);
        }
    }
    Ok(out)
}

#[verifier::loop_isolation(false)]
fn bind_list_node(
    l: &List,
    v: &DocValue,
    strict: bool,
    path: &String,
    nodes: &mut Vec<InstanceNode>,
    parent: Option<usize>,
) -> (r: Result<usize, BindError>)
    ensures
        match bind_model(ModelV::List(list_view(*l)), v@, strict, path@) {
            Ok(iv) => {
                &&& r is Ok
                &&& (r->Ok_0 as int) == old(nodes)@.len()
                &&& arena_extends(old(nodes)@, final(nodes)@)
                &&& old(nodes)@.len() < final(nodes)@.len()
                &&& final(nodes)@[r->Ok_0 as int].parent == parent
                &&& parents_in(
                    final(nodes)@,
                    old(nodes)@.len() as int + 1,
                    final(nodes)@.len() as int,
                    old(nodes)@.len() as int,
                )
                &&& links_ok(final(nodes)@, old(nodes)@.len() as int, final(nodes)@.len() as int)
                &&& repr(final(nodes)@, old(nodes)@.len() as int, iv)
            },
            Err(e) => r is Err && r->Err_0@ == e,
        },
    decreases cheight(children_view(l.children@)) + 1, 1int,
{
    let np = path_child_exec(path, &l.name);
    let ghost lv = list_view(*l);
    match v {
        DocValue::Array(items) => {
            let ghost dv = docs_view(items@);
            let pl = nodes.len();
            nodes.push(
                InstanceNode {
                    parent,
                    data: InstanceData::List { name: l.name.clone(), children: Vec::new() },
                },
            );
            let ghost lo = nodes@.len() as int;
            proof {
                lemma_docs_view(items@);
                assert(dv.skip(0) =~= dv);
                assert(nodes@.subrange(0, pl as int) =~= old(nodes)@);
            }
            let mut out: Vec<usize> = Vec::new();
            let mut seen: Vec<String> = Vec::new();
            let ghost mut done: Seq<InstV> = Seq::empty();
            let ghost shelled = nodes@;
            proof {
                assert(shelled.subrange(0, shelled.len() as int) =~= shelled);
            }
            let mut t: usize = 0;
            while t < items.len()
                invariant
                    t <= items@.len(),
                    dv == docs_view(items@),
                    dv.len() == items@.len(),
                    forall|q: int| 0 <= q < dv.len() ==> dv[q] == doc_view(items@[q]),
                    lv == list_view(*l),
                    np@ == child_path(path@, l.name@),
                    (pl as int) == lo - 1,
                    lo <= nodes@.len(),
                    arena_extends(shelled, nodes@),
                    shelled.len() == lo,
                    nodes@[pl as int] == shelled[pl as int],
                    parents_in(nodes@, lo, nodes@.len() as int, pl as int),
                    links_ok(nodes@, lo, nodes@.len() as int),
                    out@.len() == done.len(),
                    forall|q: int| 0 <= q < out@.len() ==> lo <= (#[trigger] out@[q] as int) < nodes@.len(),
                    repr_children(nodes@, out@, done, pl as int),
                    strs_view(seen@) == inst_keys(done),
                    match bind_list_elems(lv, dv.skip(t as int), strict, np@, done) {
                        Ok(total) => bind_list_elems(lv, dv, strict, np@, Seq::empty()) == Ok::<
                            Seq<InstV>,
                            BindErrorV,
                        >(total),
                        Err(e) => bind_list_elems(lv, dv, strict, np@, Seq::empty()) == Err::<
                            Seq<InstV>,
                            BindErrorV,
                        >(e),
                    },
                decreases items@.len() - t,
            {
                assert(dv.skip(t as int)[0] == dv[t as int]);
                let item = &items[t];
                match item {
                    DocValue::Object(ms) => {
                        match get_key_value(l, item) {
                            Err(kind) => {
                                return Err(BindError { kind, path: np.clone() });
                            },
                            Ok(key_str) => {
                                if contains_str(&seen, &key_str) {
                                    return Err(
                                        BindError {
                                            kind: BindErrorKind::DuplicateKey,
                                            path: path_entry_exec(&np, &key_str),
                                        },
                                    );
                                }
                                let ep = path_entry_exec(&np, &key_str);
                                let ghost iter0 = nodes@;
                                let pe = nodes.len();
                                nodes.push(
                                    InstanceNode {
                                        parent: Some(pl),
                                        data: InstanceData::ListChild {
                                            key_value: key_str.clone(),
                                            children: Vec::new(),
                                        },
                                    },
                                );
                                let ghost pre = nodes@;
                                proof {
                                    assert(pre.subrange(0, pe as int) =~= pre.subrange(
                                        0,
                                        pe as int,
                                    ));
                                }
                                match bind_members_node(&l.children, ms, strict, &ep, nodes, pe) {
                                    Err(e) => {
                                        return Err(e);
                                    },
                                    Ok(out_members) => {
                                        let ghost grown = nodes@;
                                        let ghost ivs_m = bind_members(
                                            children_view(l.children@),
                                            members_view(ms@),
                                            strict,
                                            ep@,
                                        )->Ok_0;
                                        let ghost kiv = InstV::ListChild {
                                            key: key_str@,
                                            children: ivs_m,
                                        };
                                        let node = InstanceNode {
                                            parent: Some(pl),
                                            data: InstanceData::ListChild {
                                                key_value: key_str.clone(),
                                                children: out_members,
                                            },
                                        };
                                        set_node(nodes, pe, node);
                                        let ghost before_out = out@;
                                        let ghost before_done = done;
                                        let ghost before_seen = seen@;
                                        out.push(pe);
                                        seen.push(key_str);
                                        proof {
                                            done = done.push(kiv);
                                            lemma_arena_extends_index(pre, grown);
                                            assert(forall|j: int|
                                                0 <= j < grown.len() && j != pe ==> nodes@[j]
                                                    == grown[j]);
                                            lemma_repr_children_stable(
                                                grown,
                                                nodes@,
                                                children_of(node.data),
                                                ivs_m,
                                                pe as int,
                                            );
                                            lemma_repr_children_facts(
                                                nodes@,
                                                children_of(node.data),
                                                ivs_m,
                                                pe as int,
                                            );
                                            assert(repr(nodes@, pe as int, kiv));
                                            assert(forall|j: int|
                                                0 <= j < iter0.len() ==> pre[j] == iter0[j]);
                                            lemma_arena_extends_index(shelled, iter0);
                                            assert(forall|j: int|
                                                0 <= j < iter0.len() ==> nodes@[j] == iter0[j]);
                                            lemma_repr_children_stable(
                                                iter0,
                                                nodes@,
                                                before_out,
                                                before_done,
                                                pl as int,
                                            );
                                            lemma_repr_children_push(
                                                nodes@,
                                                before_out,
                                                before_done,
                                                pl as int,
                                                pe,
                                                kiv,
                                            );
                                            assert(out@ =~= before_out.push(pe));
                                            assert(nodes@.subrange(0, lo) =~= shelled);
                                            assert(arena_extends(shelled, nodes@));
                                            assert(nodes@[pl as int] == shelled[pl as int]);
                                            assert forall|j: int|
                                                lo <= j < nodes@.len() implies (
                                            #[trigger] nodes@[j].parent) is Some && (pl as int) <= (
                                            nodes@[j].parent->0 as int) < j by {
                                                if j < pre.len() && j != pe as int {
                                                    assert(nodes@[j] == pre[j]);
                                                } else if j == pe as int {
                                                    assert(nodes@[j].parent == Some(pl));
                                                } else {
                                                    assert(nodes@[j] == grown[j]);
                                                }
                                            }
                                            assert forall|j: int, k2: int|
                                                lo <= j < nodes@.len() && 0 <= k2 < children_of(
                                                    nodes@[j].data,
                                                ).len() implies j < (#[trigger] children_of(
                                                nodes@[j].data,
                                            )[k2] as int) < nodes@.len() && nodes@[children_of(
                                                nodes@[j].data,
                                            )[k2] as int].parent == Some(j as usize) by {
                                                if j < pre.len() && j != pe as int {
                                                    assert(nodes@[j] == pre[j]);
                                                    assert((children_of(pre[j].data)[k2] as int)
                                                        < pre.len());
                                                    assert((children_of(pre[j].data)[k2] as int)
                                                        != pe as int);
                                                    assert(nodes@[children_of(
                                                        pre[j].data,
                                                    )[k2] as int] == pre[children_of(
                                                        pre[j].data,
                                                    )[k2] as int]);
                                                } else if j == pe as int {
                                                    assert(children_of(nodes@[j].data)
                                                        == children_of(node.data));
                                                } else {
                                                    assert(nodes@[j] == grown[j]);
                                                    assert((children_of(grown[j].data)[k2] as int) > j
                                                        > pe as int);
                                                    assert(nodes@[children_of(
                                                        grown[j].data,
                                                    )[k2] as int] == grown[children_of(
                                                        grown[j].data,
                                                    )[k2] as int]);
                                                }
                                            }
                                            assert(seen@.len() == before_seen.len() + 1);
                                            assert forall|q: int|
                                                0 <= q < seen@.len() implies strs_view(seen@)[q]
                                                == inst_keys(done)[q] by {
                                                if q < before_seen.len() {
                                                    assert(seen@[q] == before_seen[q]);
                                                    assert(done[q] == before_done[q]);
                                                    assert(strs_view(before_seen)[q] == inst_keys(
                                                        before_done,
                                                    )[q]);
                                                } else {
                                                    assert(done[q] == kiv);
                                                    assert(seen@[q]@ == kiv->key);
                                                }
                                            }
                                            assert(strs_view(seen@) =~= inst_keys(done));
                                            assert(dv.skip(t as int).drop_first() =~= dv.skip(
                                                t + 1,
                                            ));
                                        }
                                    },
                                }
                            },
                        }
                    },
                    _ => {
                        return Err(
                            BindError { kind: BindErrorKind::ExpectedObject, path: np.clone() },
                        );
                    },
                }
                t = t + 1;
            }
            proof {
                assert(dv.skip(items@.len() as int) =~= Seq::<DocV>::empty());
            }
            let ghost grown = nodes@;
            let node = InstanceNode {
                parent,
                data: InstanceData::List { name: l.name.clone(), children: out },
            };
            set_node(nodes, pl, node);
            proof {
                assert(forall|j: int| 0 <= j < grown.len() && j != pl as int ==> nodes@[j] == grown[j]);
                assert(nodes@.subrange(0, pl as int) =~= old(nodes)@);
                lemma_repr_children_stable(grown, nodes@, children_of(node.data), done, pl as int);
                lemma_repr_children_facts(nodes@, children_of(node.data), done, pl as int);
                assert forall|j: int|
                    pl + 1 <= j < nodes@.len() implies (#[trigger] nodes@[j].parent) is Some && (
                pl as int) <= (nodes@[j].parent->0 as int) < j by {
                    assert(nodes@[j] == grown[j]);
                }
                assert forall|j: int, k2: int|
                    (pl as int) <= j < nodes@.len() && 0 <= k2 < children_of(nodes@[j].data).len()
                    implies j < (#[trigger] children_of(nodes@[j].data)[k2] as int) < nodes@.len()
                    && nodes@[children_of(nodes@[j].data)[k2] as int].parent == Some(j as usize) by {
                    if j == pl as int {
                        assert(children_of(nodes@[j].data) == children_of(node.data));
                    } else {
                        assert(nodes@[j] == grown[j]);
                        assert((children_of(grown[j].data)[k2] as int) > j > pl as int);
                        assert(nodes@[children_of(grown[j].data)[k2] as int] == grown[children_of(
                            grown[j].data,
                        )[k2] as int]);
                    }
                }
            }
            Ok(pl)
        },
        _ => Err(BindError { kind: BindErrorKind::ExpectedArray, path: np }),
    }
}

impl DataModelInstance {
    /// Bind a whole document against a compiled schema. All-or-nothing: on
    /// any failure no instance tree is produced. In strict mode a document
    /// key with no schema field is an error; in lenient mode it is skipped.
    pub fn new(model: &DataModel, value: &DocValue, strict: bool) -> (r: Result<
        DataModelInstance,
        BindError,
    >)
        ensures
            match bind_root(model@, value@, strict) {
                Ok(iv) => r is Ok && r->Ok_0.wf() && repr(r->Ok_0.nodes@, 0, iv),
                Err(e) => r is Err && r->Err_0@ == e,
            },
    {
        let mut nodes: Vec<InstanceNode> = Vec::new();
        let empty_path = String::new();
        let root_res = match value {
            DocValue::Object(ms) => match crate::doc::find_member(ms, &model.root.name) {
                Some(x) => bind_container_node(
                    &model.root,
                    x,
                    strict,
                    &empty_path,
                    &mut nodes,
                    None,
                ),
                None => {
                    let nullv = DocValue::Null;
                    bind_container_node(&model.root, &nullv, strict, &empty_path, &mut nodes, None)
                },
            },
            _ => {
                let nullv = DocValue::Null;
                bind_container_node(&model.root, &nullv, strict, &empty_path, &mut nodes, None)
            },
        };
        match root_res {
            Err(e) => Err(e),
            Ok(i) => {
                assert(i == 0);
                assert(wf_nodes(nodes@)) by {
                    assert(nodes@[0].parent is None);
                    assert(parents_in(nodes@, 1, nodes@.len() as int, 0));
                    assert(links_ok(nodes@, 0, nodes@.len() as int));
                }
                Ok(DataModelInstance { nodes })
            },
        }
    }
}

/// The number of terminal (leaf / leaf-list) nodes of a bound tree.
pub open spec fn leaf_count(iv: InstV) -> nat
    decreases iv, 0int,
{
    match iv {
        InstV::Leaf { .. } => 1,
        InstV::LeafList { .. } => 1,
        InstV::Container { children, .. } => leaf_count_children(children),
        InstV::List { children, .. } => leaf_count_children(children),
        InstV::ListChild { children, .. } => leaf_count_children(children),
    }
}

pub open spec fn leaf_count_children(ivs: Seq<InstV>) -> nat
    decreases ivs, ivs.len(),
{
    if ivs.len() == 0 {
        0
    } else {
        leaf_count(ivs[0]) + leaf_count_children(ivs.drop_first())
    }
}

/// The traversal visits one node per terminal of the bound tree: an arena
/// representing `iv` yields exactly `leaf_count(iv)` visited leaves.
pub proof fn lemma_visit_count(nodes: Seq<InstanceNode>, i: int, iv: InstV)
    requires
        repr(nodes, i, iv),
    ensures
        leaves_of(nodes, i).len() == leaf_count(iv),
    decreases iv, 0int,
{
    match iv {
        InstV::Container { children, .. } => {
            lemma_visit_count_children(nodes, children_of(nodes[i].data), children, i);
        },
        InstV::List { children, .. } => {
            lemma_visit_count_children(nodes, children_of(nodes[i].data), children, i);
        },
        InstV::ListChild { children, .. } => {
            lemma_visit_count_children(nodes, children_of(nodes[i].data), children, i);
        },
        _ => {},
    }
}

pub proof fn lemma_visit_count_children(
    nodes: Seq<InstanceNode>,
    cs: Seq<usize>,
    ivs: Seq<InstV>,
    parent: int,
)
    requires
        repr_children(nodes, cs, ivs, parent),
    ensures
        leaves_of_children(nodes, cs, parent).len() == leaf_count_children(ivs),
    decreases ivs, ivs.len(),
{
    if ivs.len() > 0 {
        lemma_visit_count(nodes, cs[0] as int, ivs[0]);
        lemma_visit_count_children(nodes, cs.drop_first(), ivs.drop_first(), parent);
    }
}

impl DataModelInstance {
    /// The composite key of a list entry node; `None` for any other node.
    pub fn get_key(&self, i: usize) -> (r: Option<&String>)
        requires
            i < self.nodes@.len(),
        ensures
            match self.nodes@[i as int].data {
                InstanceData::ListChild { key_value, .. } => r matches Some(k) && k@
                    == key_value@,
                _ => r is None,
            },
    {
        match &self.nodes[i].data {
            InstanceData::ListChild { key_value, .. } => Some(key_value),
            _ => None,
        }
    }
}

// ---------------------------------------------------------------------------
// The generated flag.
// ---------------------------------------------------------------------------

/// Whether a list entry's direct children include a leaf named `generated`
/// whose value is `true`.
pub open spec fn generated_child(nodes: Seq<InstanceNode>, cs: Seq<usize>) -> bool {
    exists|k: int|
        0 <= k < cs.len() && 0 <= (#[trigger] cs[k] as int) < nodes.len() && match nodes[cs[k] as int].data {
            InstanceData::Leaf { name, value } => name@ == "generated"@ && value@ == "true"@,
            _ => false,
        }
}

/// Whether node `i` descends from (or is) a system-synthesized list entry:
/// its nearest list-entry ancestor, if any, carries a direct leaf child
/// `generated` with value `true`.
pub open spec fn is_generated_at(nodes: Seq<InstanceNode>, i: int) -> bool
    decreases i,
{
    if 0 <= i < nodes.len() {
        match nodes[i].data {
            InstanceData::ListChild { .. } => generated_child(nodes, children_of(nodes[i].data)),
            _ => match nodes[i].parent {
                Some(p) => if 0 <= (p as int) < i {
                    is_generated_at(nodes, p as int)
                } else {
                    false
                },
                None => false,
            },
        }
    } else {
        false
    }
}

impl DataModelInstance {
    /// Whether node `i` descends from a system-synthesized list entry.
    pub fn is_generated(&self, i: usize) -> (r: bool)
        requires
            self.wf(),
            i < self.nodes@.len(),
        ensures
            r == is_generated_at(self.nodes@, i as int),
        decreases i,
    {
        match &self.nodes[i].data {
            InstanceData::ListChild { children, .. } => {
                let mut k: usize = 0;
                while k < children.len()
                    invariant
                        k <= children@.len(),
                        self.wf(),
                        i < self.nodes@.len(),
                        children@ == children_of(self.nodes@[i as int].data),
                        self.nodes@[i as int].data matches InstanceData::ListChild { .. },
                        forall|t: int|
                            0 <= t < k ==> !match self.nodes@[#[trigger] children@[t] as int].data {
                                InstanceData::Leaf { name, value } => name@ == "generated"@
                                    && value@ == "true"@,
                                _ => false,
                            },
                    decreases children@.len() - k,
                {
                    let c = children[k];
                    assert((i as int) < (c as int) < self.nodes@.len());
                    if let InstanceData::Leaf { name, value } = &self.nodes[c].data {
                        if crate::names::str_eq(name.as_str(), "generated") && crate::names::str_eq(
                            value.as_str(),
                            "true",
                        ) {
                            assert(children@[k as int] == c);
                            assert(generated_child(
                                self.nodes@,
                                children_of(self.nodes@[i as int].data),
                            ));
                            assert(is_generated_at(self.nodes@, i as int));
                            return true;
                        }
                    }
                    k = k + 1;
                }
                false
            },
            _ => match self.nodes[i].parent {
                Some(p) => self.is_generated(p),
                None => false,
            },
        }
    }
}

} // verus!
