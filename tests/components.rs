use autocxx_engine::emitter::{build_include_foreign_items, child_segments, remove_nones};
use autocxx_engine::model::{ConvertError, ExternItem, RawField, FieldType, RawItem, RawMod};
use autocxx_engine::bridge_converter::find_items_in_root;
use autocxx_engine::classifier::spot_forward_declaration;
use autocxx_engine::name_trackers::{make_ns_prefix, BridgeNameTracker, RustNameTracker};
use autocxx_engine::names::QualName;
use autocxx_engine::type_database::{ByValueChecker, TypeFacts};

fn qn(ns: &[&str], id: &str) -> QualName {
    QualName { ns: ns.iter().map(|s| s.to_string()).collect(), id: id.to_string() }
}

#[test]
fn remove_nones_keeps_values_in_order() {
    assert_eq!(remove_nones(vec![Some(1), None, Some(3), None]), vec![1, 3]);
    assert_eq!(remove_nones::<u8>(vec![None, None]), Vec::<u8>::new());
}

#[test]
fn includes_without_and_with_glue() {
    let list = vec!["a.h".to_string(), "b.h".to_string()];
    let plain = build_include_foreign_items(&list, false);
    assert_eq!(plain.len(), 2);
    let with = build_include_foreign_items(&list, true);
    assert_eq!(with.len(), 3);
    assert!(matches!(&with[2], ExternItem::Include(h) if h == "autocxxgen.h"));
}

#[test]
fn bridge_names_are_unique() {
    let mut t = BridgeNameTracker::new();
    let root: Vec<String> = vec![];
    let a = vec!["a".to_string(), "b".to_string()];
    assert_eq!(t.get_unique_cxx_bridge_name(&"Foo".to_string(), &root), "Foo");
    assert_eq!(t.get_unique_cxx_bridge_name(&"Foo".to_string(), &a), "a_b_Foo");
    assert_eq!(t.get_unique_cxx_bridge_name(&"Foo".to_string(), &a), "a_b_Foo_");
    assert_eq!(t.get_unique_cxx_bridge_name(&"Foo".to_string(), &root), "Foo_");
    assert_eq!(make_ns_prefix(&a), "a_b_");
}

#[test]
fn host_names_are_unique_per_namespace() {
    let mut t = RustNameTracker::new();
    let a = vec!["a".to_string()];
    let b = vec!["b".to_string()];
    assert!(t.ok_to_use_rust_name(&a, &"X".to_string()));
    assert!(!t.ok_to_use_rust_name(&a, &"X".to_string()));
    assert!(t.ok_to_use_rust_name(&b, &"X".to_string()));
}

#[test]
fn sentinel_field_marks_forward_declaration() {
    let f = |n: &str| RawField { name: n.to_string(), ty: FieldType::OpaqueMarker };
    assert!(spot_forward_declaration(&vec![f("a"), f("_unused")]));
    assert!(!spot_forward_declaration(&vec![f("a"), f("unused")]));
    assert!(!spot_forward_declaration(&vec![]));
}

#[test]
fn classification_follows_fields() {
    let facts = vec![
        TypeFacts { name: qn(&[], "A"), has_destructor: false, field_types: vec![qn(&[], "int")] },
        TypeFacts { name: qn(&[], "B"), has_destructor: true, field_types: vec![] },
        TypeFacts { name: qn(&[], "C"), has_destructor: false, field_types: vec![qn(&[], "A")] },
        TypeFacts { name: qn(&[], "D"), has_destructor: false, field_types: vec![qn(&[], "B")] },
        TypeFacts { name: qn(&[], "F"), has_destructor: false, field_types: vec![qn(&[], "G")] },
        TypeFacts { name: qn(&[], "G"), has_destructor: false, field_types: vec![qn(&[], "D")] },
        TypeFacts { name: qn(&[], "H"), has_destructor: false, field_types: vec![qn(&[], "I")] },
        TypeFacts { name: qn(&[], "I"), has_destructor: false, field_types: vec![qn(&[], "char")] },
    ];
    let c = ByValueChecker::new(facts);
    assert!(c.is_pod(&qn(&[], "A")));
    assert!(!c.is_pod(&qn(&[], "B")));
    assert!(c.is_pod(&qn(&[], "C")));
    assert!(!c.is_pod(&qn(&[], "D")));
    assert!(!c.is_pod(&qn(&[], "E")));
    assert!(!c.is_pod(&qn(&[], "F")));
    assert!(!c.is_pod(&qn(&[], "G")));
    assert!(c.is_pod(&qn(&[], "H")));
}

#[test]
fn root_scope_is_unwrapped() {
    let items = vec![
        RawItem::Mod(RawMod { name: "root".to_string(), content: None }),
        RawItem::Mod(RawMod { name: "root".to_string(), content: Some(vec![RawItem::Enum("E".to_string())]) }),
    ];
    let inner = find_items_in_root(items).unwrap();
    assert_eq!(inner.len(), 1);
    assert!(matches!(find_items_in_root(vec![]), Err(ConvertError::UnexpectedOuterItem)));
    let only_empty = vec![RawItem::Mod(RawMod { name: "root".to_string(), content: None })];
    assert!(matches!(find_items_in_root(only_empty), Err(ConvertError::UnexpectedOuterItem)));
    assert!(matches!(find_items_in_root(vec![RawItem::Other]), Err(ConvertError::UnexpectedOuterItem)));
}

#[test]
fn cpp_name_of_qualified_name() {
    assert_eq!(qn(&["a", "b"], "C").to_cpp_name(), "a::b::C");
    assert_eq!(qn(&[], "C").to_cpp_name(), "C");
}

#[test]
fn child_namespaces_in_order_of_appearance() {
    let v = |s: &[&str]| -> Vec<String> { s.iter().map(|x| x.to_string()).collect() };
    let all = vec![v(&["a", "x"]), v(&["b"]), v(&["a"]), v(&["a", "y", "z"]), v(&["a", "x", "w"])];
    assert_eq!(child_segments(&v(&[]), &all), v(&["a", "b"]));
    assert_eq!(child_segments(&v(&["a"]), &all), v(&["x", "y"]));
    assert_eq!(child_segments(&v(&["c"]), &all), Vec::<String>::new());
}
