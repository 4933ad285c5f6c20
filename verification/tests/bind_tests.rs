use yangbind::doc::DocValue;
use yangbind::element::Element;
use yangbind::instance::{BindErrorKind, DataModelInstance, InstanceData};
use yangbind::model::{DataModel, List, Model};
use yangbind::SchemaError;

fn el(kind: &str, attrs: &[(&str, &str)], children: Vec<Element>) -> Element {
    Element {
        kind: kind.to_string(),
        attrs: attrs
            .iter()
            .map(|(k, v)| (k.to_string(), v.to_string()))
            .collect(),
        children,
    }
}

fn leaf_el(name: &str) -> Element {
    el("leaf", &[("name", name)], vec![])
}

fn leaf_list_el(name: &str) -> Element {
    el("leaf-list", &[("name", name)], vec![])
}

fn s(v: &str) -> DocValue {
    DocValue::String(v.to_string())
}

fn obj(members: Vec<(&str, DocValue)>) -> DocValue {
    DocValue::Object(
        members
            .into_iter()
            .map(|(k, v)| (k.to_string(), v))
            .collect(),
    )
}

fn arr(items: Vec<DocValue>) -> DocValue {
    DocValue::Array(items)
}

/// The scenario schema: container `root` with leaf `foo`; container
/// `a-container` holding a leaf and a leaf-list; list `a-list` keyed by
/// `leaf-in-list`, holding a leaf and a leaf-list.
fn scenario_model() -> DataModel {
    let root_el = el(
        "container",
        &[("name", "root")],
        vec![
            leaf_el("foo"),
            el(
                "container",
                &[("name", "a-container")],
                vec![leaf_el("leaf-in-container"), leaf_list_el("leaf-list-in-container")],
            ),
            el(
                "list",
                &[("name", "a-list")],
                vec![
                    el("key", &[("value", "leaf-in-list")], vec![]),
                    leaf_el("leaf-in-list"),
                    leaf_list_el("leaf-list-in-list"),
                ],
            ),
        ],
    );
    DataModel::new(&root_el).unwrap()
}

fn scenario_doc() -> DocValue {
    obj(vec![(
        "root",
        obj(vec![
            ("foo", s("bar")),
            (
                "a-container",
                obj(vec![
                    ("leaf-in-container", s("fizz")),
                    ("leaf-list-in-container", arr(vec![s("buzz")])),
                ]),
            ),
            (
                "a-list",
                arr(vec![obj(vec![
                    ("leaf-in-list", s("fizz")),
                    ("leaf-list-in-list", arr(vec![s("buzz")])),
                ])]),
            ),
        ]),
    )])
}

fn leaf_model(name: &str) -> DataModel {
    let root_el = el("container", &[("name", "root")], vec![leaf_el(name)]);
    DataModel::new(&root_el).unwrap()
}

fn bind_leaf(value: DocValue) -> Result<String, BindErrorKind> {
    let dm = leaf_model("foo");
    let doc = obj(vec![("root", obj(vec![("foo", value)]))]);
    match DataModelInstance::new(&dm, &doc, true) {
        Err(e) => Err(e.kind),
        Ok(inst) => {
            let leaves = inst.visit();
            assert_eq!(leaves.len(), 1);
            match &inst.nodes[leaves[0]].data {
                InstanceData::Leaf { value, .. } => Ok(value.clone()),
                _ => panic!("expected a leaf"),
            }
        }
    }
}

#[test]
fn coerces_string_number_and_boolean() {
    assert_eq!(bind_leaf(s("bar")).unwrap(), "bar");
    assert_eq!(bind_leaf(DocValue::Number("5".to_string())).unwrap(), "5");
    assert_eq!(bind_leaf(DocValue::Bool(true)).unwrap(), "true");
    assert_eq!(bind_leaf(DocValue::Bool(false)).unwrap(), "false");
}

#[test]
fn rejects_non_scalar_leaf_values() {
    assert_eq!(bind_leaf(DocValue::Null).unwrap_err(), BindErrorKind::ExpectedScalar);
    assert_eq!(bind_leaf(arr(vec![s("x")])).unwrap_err(), BindErrorKind::ExpectedScalar);
    assert_eq!(bind_leaf(obj(vec![])).unwrap_err(), BindErrorKind::ExpectedScalar);
}

#[test]
fn scenario_visits_five_leaves() {
    let dm = scenario_model();
    let inst = DataModelInstance::new(&dm, &scenario_doc(), true).unwrap();
    assert_eq!(inst.visit().len(), 5);
}

#[test]
fn scenario_list_entry_leaf_path() {
    let dm = scenario_model();
    let inst = DataModelInstance::new(&dm, &scenario_doc(), true).unwrap();
    let mut found = false;
    for i in inst.visit() {
        if let InstanceData::Leaf { name, .. } = &inst.nodes[i].data {
            if name == "leafInList" {
                assert_eq!(inst.get_path(i), "/root/aList=fizz/leafInList");
                found = true;
            }
        }
    }
    assert!(found);
}

#[test]
fn get_path_is_stable() {
    let dm = scenario_model();
    let inst = DataModelInstance::new(&dm, &scenario_doc(), true).unwrap();
    for i in inst.visit() {
        let first = inst.get_path(i);
        let second = inst.get_path(i);
        assert_eq!(first, second);
    }
}

#[test]
fn list_binds_one_child_per_element() {
    let dm = scenario_model();
    let doc = obj(vec![(
        "root",
        obj(vec![(
            "a-list",
            arr(vec![
                obj(vec![("leaf-in-list", s("a"))]),
                obj(vec![("leaf-in-list", s("b"))]),
                obj(vec![("leaf-in-list", s("c"))]),
            ]),
        )]),
    )]);
    let inst = DataModelInstance::new(&dm, &doc, true).unwrap();
    let mut list_children = None;
    for (i, n) in inst.nodes.iter().enumerate() {
        if let InstanceData::List { children, .. } = &n.data {
            list_children = Some((i, children.len()));
        }
    }
    let (list_idx, n_children) = list_children.unwrap();
    assert_eq!(n_children, 3);
    let mut keys: Vec<String> = Vec::new();
    if let InstanceData::List { children, .. } = &inst.nodes[list_idx].data {
        for c in children {
            keys.push(inst.get_key(*c).unwrap().clone());
        }
    }
    assert_eq!(keys, vec!["a", "b", "c"]);
}

#[test]
fn duplicate_composite_key_is_an_error() {
    let dm = scenario_model();
    let doc = obj(vec![(
        "root",
        obj(vec![(
            "a-list",
            arr(vec![
                obj(vec![("leaf-in-list", s("same"))]),
                obj(vec![("leaf-in-list", s("same"))]),
            ]),
        )]),
    )]);
    let err = DataModelInstance::new(&dm, &doc, true).unwrap_err();
    assert_eq!(err.kind, BindErrorKind::DuplicateKey);
    assert_eq!(err.path, "/root/aList=same");
}

#[test]
fn choice_fields_flatten_into_container() {
    let root_el = el(
        "container",
        &[("name", "root")],
        vec![el(
            "choice",
            &[("name", "a-choice")],
            vec![
                leaf_el("y"),
                el("case", &[("name", "c1")], vec![leaf_el("x")]),
            ],
        )],
    );
    let dm = DataModel::new(&root_el).unwrap();
    let names: Vec<&str> = dm.root.children.iter().map(|(k, _)| k.as_str()).collect();
    assert!(names.contains(&"x"));
    assert!(names.contains(&"y"));
    assert!(!names.contains(&"aChoice"));
    assert!(!names.contains(&"a-choice"));
    assert!(!names.contains(&"c1"));
}

#[test]
fn generated_flag_reads_the_sibling_leaf() {
    let root_el = el(
        "container",
        &[("name", "root")],
        vec![el(
            "list",
            &[("name", "a-list")],
            vec![
                el("key", &[("value", "name")], vec![]),
                leaf_el("name"),
                leaf_el("generated"),
                leaf_el("other"),
            ],
        )],
    );
    let dm = DataModel::new(&root_el).unwrap();
    let doc = obj(vec![(
        "root",
        obj(vec![(
            "a-list",
            arr(vec![obj(vec![
                ("name", s("n1")),
                ("generated", s("true")),
                ("other", s("v")),
            ])]),
        )]),
    )]);
    let inst = DataModelInstance::new(&dm, &doc, true).unwrap();
    for i in inst.visit() {
        assert!(inst.is_generated(i));
    }
}

#[test]
fn generated_flag_false_without_the_sibling() {
    let dm = scenario_model();
    let inst = DataModelInstance::new(&dm, &scenario_doc(), true).unwrap();
    for i in inst.visit() {
        assert!(!inst.is_generated(i));
    }
}

#[test]
fn strict_mode_rejects_unknown_fields() {
    let dm = leaf_model("foo");
    let doc = obj(vec![("root", obj(vec![("foo", s("x")), ("mystery", s("y"))]))]);
    let err = DataModelInstance::new(&dm, &doc, true).unwrap_err();
    assert_eq!(err.kind, BindErrorKind::UnknownField);
}

#[test]
fn lenient_mode_skips_unknown_fields() {
    let dm = leaf_model("foo");
    let doc = obj(vec![("root", obj(vec![("foo", s("x")), ("mystery", s("y"))]))]);
    let inst = DataModelInstance::new(&dm, &doc, false).unwrap();
    assert_eq!(inst.visit().len(), 1);
}

#[test]
fn shape_mismatches_are_reported() {
    let dm = scenario_model();
    let doc = obj(vec![("root", s("not-an-object"))]);
    let err = DataModelInstance::new(&dm, &doc, true).unwrap_err();
    assert_eq!(err.kind, BindErrorKind::ExpectedObject);
    assert_eq!(err.path, "/root");

    let doc = obj(vec![("root", obj(vec![("a-list", obj(vec![]))]))]);
    let err = DataModelInstance::new(&dm, &doc, true).unwrap_err();
    assert_eq!(err.kind, BindErrorKind::ExpectedArray);
    assert_eq!(err.path, "/root/aList");

    let doc = obj(vec![("root", obj(vec![("a-container", obj(vec![("leaf-list-in-container", s("x"))]))]))]);
    let err = DataModelInstance::new(&dm, &doc, true).unwrap_err();
    assert_eq!(err.kind, BindErrorKind::ExpectedArray);
    assert_eq!(err.path, "/root/aContainer/leafListInContainer");
}

#[test]
fn missing_and_non_scalar_key_fields() {
    let dm = scenario_model();
    let doc = obj(vec![(
        "root",
        obj(vec![("a-list", arr(vec![obj(vec![("leaf-list-in-list", arr(vec![]))])]))]),
    )]);
    let err = DataModelInstance::new(&dm, &doc, true).unwrap_err();
    assert_eq!(err.kind, BindErrorKind::MissingKeyField);

    let doc = obj(vec![(
        "root",
        obj(vec![("a-list", arr(vec![obj(vec![("leaf-in-list", arr(vec![]))])]))]),
    )]);
    let err = DataModelInstance::new(&dm, &doc, true).unwrap_err();
    assert_eq!(err.kind, BindErrorKind::NonScalarKeyField);
}

#[test]
fn composite_keys_join_with_commas() {
    let list_el = el(
        "list",
        &[("name", "pair")],
        vec![
            el("key", &[("value", "first second")], vec![]),
            leaf_el("first"),
            leaf_el("second"),
        ],
    );
    let list = List::new(&list_el).unwrap();
    assert_eq!(list.keys, vec!["first", "second"]);
    let entry = obj(vec![("first", s("a")), ("second", DocValue::Number("2".to_string()))]);
    assert_eq!(yangbind::instance::get_key_value(&list, &entry).unwrap(), "a,2");
}

#[test]
fn key_lookup_falls_back_to_kebab_case() {
    let list_el = el(
        "list",
        &[("name", "pair")],
        vec![el("key", &[("value", "my-key")], vec![]), leaf_el("my-key")],
    );
    let list = List::new(&list_el).unwrap();
    assert_eq!(list.keys, vec!["myKey"]);
    let entry = obj(vec![("my-key", s("k1"))]);
    assert_eq!(yangbind::instance::get_key_value(&list, &entry).unwrap(), "k1");
}

#[test]
fn schema_names_are_normalized() {
    let dm = scenario_model();
    assert_eq!(dm.root.name, "root");
    let names: Vec<&str> = dm.root.children.iter().map(|(k, _)| k.as_str()).collect();
    assert!(names.contains(&"aContainer"));
    assert!(names.contains(&"aList"));
}

#[test]
fn missing_name_fails_compilation() {
    let root_el = el("container", &[], vec![]);
    assert_eq!(DataModel::new(&root_el).unwrap_err(), SchemaError::MissingName);
}

#[test]
fn list_without_keys_fails_compilation() {
    let root_el = el(
        "container",
        &[("name", "root")],
        vec![el("list", &[("name", "a-list")], vec![leaf_el("x")])],
    );
    assert_eq!(
        DataModel::new(&root_el).unwrap_err(),
        SchemaError::MissingKeyDeclaration
    );
}

#[test]
fn document_may_use_native_naming() {
    // The schema compiles `a-container` to `aContainer`; a document using
    // either spelling binds to the same field.
    let dm = scenario_model();
    let doc = obj(vec![(
        "root",
        obj(vec![("aContainer", obj(vec![("leafInContainer", s("v"))]))]),
    )]);
    let inst = DataModelInstance::new(&dm, &doc, true).unwrap();
    assert_eq!(inst.visit().len(), 1);
}

#[test]
fn unknown_element_kinds_are_ignored() {
    let root_el = el(
        "container",
        &[("name", "root")],
        vec![
            leaf_el("foo"),
            el("description", &[("name", "ignored")], vec![]),
        ],
    );
    let dm = DataModel::new(&root_el).unwrap();
    assert_eq!(dm.root.children.len(), 1);
}

#[test]
fn leaf_list_preserves_order() {
    let dm = {
        let root_el = el("container", &[("name", "root")], vec![leaf_list_el("xs")]);
        DataModel::new(&root_el).unwrap()
    };
    let doc = obj(vec![(
        "root",
        obj(vec![("xs", arr(vec![s("one"), DocValue::Number("2".to_string()), DocValue::Bool(true)]))]),
    )]);
    let inst = DataModelInstance::new(&dm, &doc, true).unwrap();
    let leaves = inst.visit();
    assert_eq!(leaves.len(), 1);
    match &inst.nodes[leaves[0]].data {
        InstanceData::LeafList { values, .. } => {
            assert_eq!(values, &vec!["one", "2", "true"]);
        }
        _ => panic!("expected a leaf-list"),
    }
}

#[test]
fn container_paths_cover_every_level() {
    let dm = scenario_model();
    let inst = DataModelInstance::new(&dm, &scenario_doc(), true).unwrap();
    let mut paths: Vec<String> = (0..inst.nodes.len()).map(|i| inst.get_path(i)).collect();
    paths.sort();
    assert!(paths.contains(&"/root".to_string()));
    assert!(paths.contains(&"/root/foo".to_string()));
    assert!(paths.contains(&"/root/aContainer".to_string()));
    assert!(paths.contains(&"/root/aContainer/leafInContainer".to_string()));
    assert!(paths.contains(&"/root/aContainer/leafListInContainer".to_string()));
    assert!(paths.contains(&"/root/aList".to_string()));
    assert!(paths.contains(&"/root/aList=fizz".to_string()));
    assert!(paths.contains(&"/root/aList=fizz/leafInList".to_string()));
    assert!(paths.contains(&"/root/aList=fizz/leafListInList".to_string()));
}

#[test]
fn missing_root_member_fails() {
    let dm = leaf_model("foo");
    let doc = obj(vec![("other", obj(vec![]))]);
    let err = DataModelInstance::new(&dm, &doc, true).unwrap_err();
    assert_eq!(err.kind, BindErrorKind::ExpectedObject);
    assert_eq!(err.path, "/root");
}

#[test]
fn nested_list_inside_list_entry() {
    let root_el = el(
        "container",
        &[("name", "root")],
        vec![el(
            "list",
            &[("name", "outer")],
            vec![
                el("key", &[("value", "k")], vec![]),
                leaf_el("k"),
                el(
                    "list",
                    &[("name", "inner")],
                    vec![el("key", &[("value", "ik")], vec![]), leaf_el("ik")],
                ),
            ],
        )],
    );
    let dm = DataModel::new(&root_el).unwrap();
    let doc = obj(vec![(
        "root",
        obj(vec![(
            "outer",
            arr(vec![obj(vec![
                ("k", s("o1")),
                ("inner", arr(vec![obj(vec![("ik", s("i1"))])])),
            ])]),
        )]),
    )]);
    let inst = DataModelInstance::new(&dm, &doc, true).unwrap();
    let mut paths: Vec<String> = (0..inst.nodes.len()).map(|i| inst.get_path(i)).collect();
    paths.sort();
    assert!(paths.contains(&"/root/outer=o1/inner=i1/ik".to_string()));
}

fn find_model_by_name<'a>(m: &'a DataModel, name: &str) -> &'a Model {
    &m.root
        .children
        .iter()
        .find(|(k, _)| k == name)
        .unwrap()
        .1
}

#[test]
fn visit_until_stops_early() {
    let dm = scenario_model();
    let inst = DataModelInstance::new(&dm, &scenario_doc(), true).unwrap();
    let all = inst.visit();
    assert_eq!(inst.visit_until(0), Vec::<usize>::new());
    assert_eq!(inst.visit_until(2), all[..2].to_vec());
    assert_eq!(inst.visit_until(5), all);
    assert_eq!(inst.visit_until(100), all);
}

#[test]
fn empty_object_and_empty_list_bind() {
    let dm = scenario_model();
    let doc = obj(vec![("root", obj(vec![]))]);
    let inst = DataModelInstance::new(&dm, &doc, true).unwrap();
    assert_eq!(inst.visit().len(), 0);

    let doc = obj(vec![("root", obj(vec![("a-list", arr(vec![]))]))]);
    let inst = DataModelInstance::new(&dm, &doc, true).unwrap();
    assert_eq!(inst.visit().len(), 0);
    assert_eq!(inst.get_path(0), "/root");
}

#[test]
fn compiled_list_keeps_key_order() {
    let root_el = el(
        "container",
        &[("name", "root")],
        vec![el(
            "list",
            &[("name", "l")],
            vec![
                el("key", &[("value", "b a")], vec![]),
                leaf_el("a"),
                leaf_el("b"),
            ],
        )],
    );
    let dm = DataModel::new(&root_el).unwrap();
    match find_model_by_name(&dm, "l") {
        Model::List(l) => assert_eq!(l.keys, vec!["b", "a"]),
        _ => panic!("expected a list"),
    }
}
