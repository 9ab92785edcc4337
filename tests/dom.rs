use std::collections::HashSet;

use minibrowser::dom::{AttrMap, ElementData};

fn element(pairs: &[(&str, &str)]) -> ElementData {
    let mut attributes = AttrMap::new();
    for (k, v) in pairs {
        attributes.insert(k.to_string(), v.to_string());
    }
    ElementData { tag_name: "div".to_string(), attributes }
}

#[test]
fn id() {
    let elem = element(&[("id", "main"), ("class", "class1 class2")]);
    assert_eq!(elem.id().unwrap(), "main");

    let elem = element(&[("class", "class1 class2")]);
    assert!(elem.id().is_none());
}

#[test]
fn classes() {
    let elem = element(&[("id", "main"), ("class", "class1 class2")]);
    let got: HashSet<String> = elem.classes().into_iter().collect();
    assert_eq!(got, HashSet::from(["class1".to_string(), "class2".to_string()]));

    let elem = element(&[("id", "main")]);
    let got: HashSet<String> = elem.classes().into_iter().collect();
    assert_eq!(got, HashSet::new());
}

#[test]
fn classes_split_at_every_space() {
    let elem = element(&[("class", "a  b")]);
    assert_eq!(
        elem.classes(),
        vec!["a".to_string(), "".to_string(), "b".to_string()]
    );
}

#[test]
fn attribute_insert_replaces() {
    let mut map = AttrMap::new();
    map.insert("id".to_string(), "one".to_string());
    map.insert("class".to_string(), "c".to_string());
    map.insert("id".to_string(), "two".to_string());
    assert_eq!(map.get("id"), Some(&"two".to_string()));
    assert_eq!(map.get("class"), Some(&"c".to_string()));
    assert_eq!(map.get("title"), None);
}

#[test]
fn attribute_maps_compare_regardless_of_order() {
    let mut a = AttrMap::new();
    a.insert("id".to_string(), "main".to_string());
    a.insert("class".to_string(), "x".to_string());
    let mut b = AttrMap::new();
    b.insert("class".to_string(), "x".to_string());
    b.insert("id".to_string(), "main".to_string());
    assert_eq!(a, b);
    b.insert("id".to_string(), "other".to_string());
    assert_ne!(a, b);
    let mut c = AttrMap::new();
    c.insert("id".to_string(), "main".to_string());
    assert_ne!(a, c);
    assert_ne!(c, a);
}
