use sxd_document::dom;
use sxd_document::parser;
use sxd_document::Package;

use yangbind::doc::DocValue;
use yangbind::element::Element;
use yangbind::instance::DataModelInstance;
use yangbind::model::{Case, Choice, Container, DataModel, Leaf, LeafList, List, Model};

fn get_package(xml: &str) -> Package {
    parser::parse(xml).unwrap()
}

fn element_from_dom(el: dom::Element) -> Element {
    let kind = el.name().local_part().to_string();
    let attrs = el
        .attributes()
        .iter()
        .map(|a| (a.name().local_part().to_string(), a.value().to_string()))
        .collect();
    let children = el
        .children()
        .into_iter()
        .filter_map(|c| match c {
            dom::ChildOfElement::Element(e) => Some(element_from_dom(e)),
            _ => None,
        })
        .collect();
    Element {
        kind,
        attrs,
        children,
    }
}

fn get_root_el(pkg: &Package) -> Element {
    let doc = pkg.as_document();
    let root_el = doc
        .root()
        .children()
        .into_iter()
        .find_map(|c| match c {
            sxd_document::dom::ChildOfRoot::Element(e) => Some(e),
            _ => None,
        })
        .unwrap();
    element_from_dom(root_el)
}

fn doc_from_json(v: &serde_json::Value) -> DocValue {
    match v {
        serde_json::Value::Null => DocValue::Null,
        serde_json::Value::Bool(b) => DocValue::Bool(*b),
        serde_json::Value::Number(n) => DocValue::Number(n.to_string()),
        serde_json::Value::String(s) => DocValue::String(s.clone()),
        serde_json::Value::Array(items) => {
            DocValue::Array(items.iter().map(doc_from_json).collect())
        }
        serde_json::Value::Object(ms) => DocValue::Object(
            ms.iter()
                .map(|(k, v)| (k.clone(), doc_from_json(v)))
                .collect(),
        ),
    }
}

fn get_child<'a>(children: &'a [(String, Model)], name: &str) -> Option<&'a Model> {
    children.iter().find(|(k, _)| k == name).map(|(_, m)| m)
}

const CASE_EXPLICT_MODEL: &str = r#"<?xml version="1.0"?>
    <yin:case name="explicit" xmlns:yin="urn:ietf:params:xml:ns:yang:yin:1">
        <yin:leaf name="bar">
            <yin:type name="string"/>
        </yin:leaf>
    </yin:case>"#;

const CASE_IMPLICIT_MODEL: &str = r#"<?xml version="1.0"?>
    <yin:leaf name="bar" xmlns:yin="urn:ietf:params:xml:ns:yang:yin:1">
        <yin:type name="string"/>
    </yin:leaf>"#;

#[test]
fn it_parses_name_explicit() {
    let pkg = get_package(CASE_EXPLICT_MODEL);
    let model = Case::new(&get_root_el(&pkg)).unwrap();
    assert_eq!(model.name, "explicit");
}

#[test]
fn it_parses_name_implicit() {
    let pkg = get_package(CASE_IMPLICIT_MODEL);
    let model = Case::new(&get_root_el(&pkg)).unwrap();
    assert_eq!(model.name, "bar");
}

#[test]
fn it_parses_children_explicit() {
    let pkg = get_package(CASE_EXPLICT_MODEL);
    let model = Case::new(&get_root_el(&pkg)).unwrap();
    assert!(get_child(&model.children, "bar").is_some());
}

#[test]
fn it_parses_children_implicit() {
    let pkg = get_package(CASE_IMPLICIT_MODEL);
    let model = Case::new(&get_root_el(&pkg)).unwrap();
    assert!(get_child(&model.children, "bar").is_some());
}

const CHOICE_MODEL: &str = r#"<?xml version="1.0"?>
    <yin:choice name="foo" xmlns:yin="urn:ietf:params:xml:ns:yang:yin:1">
        <yin:leaf name="implicit">
            <yin:type name="string"/>
        </yin:leaf>
        <yin:case name="explicit">
            <yin:leaf name="bar">
                <yin:type name="string"/>
            </yin:leaf>>
        </yin:case>
    </yin:choice>"#;

#[test]
fn choice_it_parses_name() {
    let pkg = get_package(CHOICE_MODEL);
    let model = Choice::new(&get_root_el(&pkg)).unwrap();
    assert_eq!(model.name, "foo");
}

#[test]
fn it_parses_implicit_child() {
    let pkg = get_package(CHOICE_MODEL);
    let model = Choice::new(&get_root_el(&pkg)).unwrap();
    assert!(get_child(&model.children, "implicit").is_some());
}

#[test]
fn it_parses_explicit_child() {
    let pkg = get_package(CHOICE_MODEL);
    let model = Choice::new(&get_root_el(&pkg)).unwrap();
    assert!(get_child(&model.children, "bar").is_some());
}

#[test]
fn it_parses_cases() {
    let pkg = get_package(CHOICE_MODEL);
    let model = Choice::new(&get_root_el(&pkg)).unwrap();
    assert_eq!(model.cases.len(), 2);
}

const CONTAINER_MODEL: &str = r#"<?xml version="1.0"?>
    <yin:container name="bfd" xmlns:yin="urn:ietf:params:xml:ns:yang:yin:1">
        <yin:leaf name="state">
            <yin:type name="enumeration">
                <yin:enum name="enabled"/>
                <yin:enum name="disabled"/>
            </yin:type>
            <yin:default value="enabled"/>
        </yin:leaf>
        <yin:leaf name="desired-tx-interval">
            <yin:type name="uint32"/>
        </yin:leaf>
    </yin:container>"#;

#[test]
fn container_it_parses_name() {
    let pkg = get_package(CONTAINER_MODEL);
    let model = Container::new(&get_root_el(&pkg)).unwrap();
    assert_eq!(model.name, "bfd");
}

#[test]
fn container_it_parses_children() {
    let pkg = get_package(CONTAINER_MODEL);
    let model = Container::new(&get_root_el(&pkg)).unwrap();
    assert_eq!(model.children.len(), 2);
}

const DATA_MODEL_MODEL: &str = r#"<?xml version="1.0"?>
    <yin:container name="root" xmlns:yin="urn:ietf:params:xml:ns:yang:yin:1">
        <yin:leaf name="state">
            <yin:type name="enumeration">
                <yin:enum name="enabled"/>
                <yin:enum name="disabled"/>
            </yin:type>
            <yin:default value="enabled"/>
        </yin:leaf>
        <yin:leaf name="desired-tx-interval">
            <yin:type name="uint32"/>
        </yin:leaf>
    </yin:container>"#;

#[test]
fn it_parses() {
    let pkg = get_package(DATA_MODEL_MODEL);
    let model = DataModel::new(&get_root_el(&pkg)).unwrap();
    assert_eq!(model.root.name, "root");
}

const LEAF_MODEL: &str = r#"<?xml version="1.0"?>
    <yin:leaf name="foo" xmlns:yin="urn:ietf:params:xml:ns:yang:yin:1">
        <yin:type name="string"/>
    </yin:leaf>"#;

#[test]
fn leaf_it_parses_name() {
    let pkg = get_package(LEAF_MODEL);
    let model = Leaf::new(&get_root_el(&pkg)).unwrap();
    assert_eq!(model.name, "foo");
}

const LEAF_LIST_MODEL: &str = r#"<?xml version="1.0"?>
    <yin:leaf-list name="foo" xmlns:yin="urn:ietf:params:xml:ns:yang:yin:1">
        <yin:type name="string"/>
    </yin:leaf-list>"#;

#[test]
fn leaflist_it_parses_name() {
    let pkg = get_package(LEAF_LIST_MODEL);
    let model = LeafList::new(&get_root_el(&pkg)).unwrap();
    assert_eq!(model.name, "foo");
}

const LIST_MODEL: &str = r#"<?xml version="1.0"?>
    <yin:list name="peer" xmlns:yin="urn:ietf:params:xml:ns:yang:yin:1">
        <yin:key value="name"/>
        <yin:leaf name="name">
            <yin:type name="string"/>
        </yin:leaf>
    </yin:list>"#;

#[test]
fn list_it_parses_name() {
    let pkg = get_package(LIST_MODEL);
    let model = List::new(&get_root_el(&pkg)).unwrap();
    assert_eq!(model.name, "peer");
}

#[test]
fn it_parses_keys() {
    let pkg = get_package(LIST_MODEL);
    let model = List::new(&get_root_el(&pkg)).unwrap();
    assert_eq!(model.keys, vec!["name"]);
}

#[test]
fn list_it_parses_children() {
    let pkg = get_package(LIST_MODEL);
    let model = List::new(&get_root_el(&pkg)).unwrap();
    assert_eq!(model.children.len(), 1);
}

const VISIT_DATA_MODEL: &str = r#"<?xml version="1.0"?>
    <yin:container name="root" xmlns:yin="urn:ietf:params:xml:ns:yang:yin:1">
        <yin:leaf name="foo">
            <yin:type name="string"/>
        </yin:leaf>
        <yin:container name="a-container">
            <yin:leaf name="leaf-in-container">
                <yin:type name="string"/>
            </yin:leaf>
            <yin:leaf-list name="leaf-list-in-container">
                <yin:type name="string"/>
            </yin:leaf-list>
        </yin:container>
        <yin:list name="a-list">
            <yin:key value="leaf-in-list"/>
            <yin:leaf name="leaf-in-list">
                <yin:type name="string"/>
            </yin:leaf>
            <yin:leaf-list name="leaf-list-in-list">
                <yin:type name="string"/>
            </yin:leaf-list>
        </yin:list>
    </yin:container>"#;

const VISIT_INSTANCE: &str = r#"
    {
        "root": {
            "foo": "bar",
            "a-container": { "leaf-in-container": "fizz", "leaf-list-in-container": ["buzz"] },
            "a-list": [{ "leaf-in-list": "fizz", "leaf-list-in-list": ["buzz"] }]
        }
    }"#;

#[test]
fn it_visits_all_nodes() {
    let pkg = get_package(VISIT_DATA_MODEL);
    let data_model = DataModel::new(&get_root_el(&pkg)).unwrap();
    let v: serde_json::Value = serde_json::from_str(VISIT_INSTANCE).unwrap();
    let doc = doc_from_json(&v);
    let instance = DataModelInstance::new(&data_model, &doc, false).unwrap();

    let count = instance.visit().len();

    assert_eq!(count, 5);
}
