use autocxx_engine::bridge_converter::{BridgeConverter, RawModule};
use autocxx_engine::emitter::{BridgeConversionResults, UseItem};
use autocxx_engine::model::{
    AdditionalNeed, AliasTarget, ConvertError, ExternItem, FieldType, ForeignFn, GenericParam,
    GlobalItem, RawAlias, RawBinding, RawConst, RawField, RawForeignItem, RawItem, RawMod,
    RawStruct, TypeKind,
};
use autocxx_engine::names::QualName;
use autocxx_engine::type_database::{EffectiveType, TypeDatabase};

fn qn(ns: &[&str], id: &str) -> QualName {
    QualName { ns: ns.iter().map(|s| s.to_string()).collect(), id: id.to_string() }
}

fn db(allow: Vec<QualName>, block: Vec<QualName>) -> TypeDatabase {
    TypeDatabase { allowlist: allow, blocklist: block, effective_types: vec![], pod_requests: vec![] }
}

fn field(name: &str, ty: QualName) -> RawField {
    RawField { name: name.to_string(), ty: FieldType::Named(ty) }
}

fn strukt(name: &str, fields: Vec<RawField>, has_destructor: bool) -> RawItem {
    RawItem::Struct(RawStruct {
        name: name.to_string(),
        generics: vec![],
        fields,
        has_destructor,
        packed: false,
    })
}

fn ns_mod(name: &str, items: Vec<RawItem>) -> RawItem {
    RawItem::Mod(RawMod { name: name.to_string(), content: Some(items) })
}

fn rooted(items: Vec<RawItem>) -> RawModule {
    RawModule { content: Some(vec![ns_mod("root", items)]) }
}

fn run(items: Vec<RawItem>, db: &TypeDatabase) -> Result<BridgeConversionResults, ConvertError> {
    let includes: Vec<String> = vec!["input.h".to_string()];
    let mut conv = BridgeConverter::new(&includes, db);
    conv.convert(rooted(items), true)
}

fn binding_names(r: &BridgeConversionResults) -> Vec<String> {
    r.bindgen_items
        .iter()
        .map(|b| match &b.item {
            RawBinding::Struct(s) => s.name.clone(),
            RawBinding::Enum(e) => e.clone(),
            RawBinding::TypeAlias(a) => a.name.clone(),
        })
        .collect()
}

fn identity_kind(r: &BridgeConversionResults, cpp: &str) -> Option<TypeKind> {
    r.global_items.iter().find_map(|g| match g {
        GlobalItem::TypeIdentity { cpp_name, kind, .. } if cpp_name == cpp => Some(*kind),
        _ => None,
    })
}

#[test]
fn field_types_are_pulled_in() {
    let items = vec![
        strukt("X", vec![field("a", qn(&[], "u32"))], false),
        strukt("Y", vec![field("b", qn(&[], "u8"))], false),
        strukt("Rect", vec![field("x", qn(&[], "X")), field("y", qn(&[], "Y"))], false),
        strukt("Unrelated", vec![], false),
    ];
    let d = db(vec![qn(&[], "Rect")], vec![]);
    let r = run(items, &d).unwrap();
    assert_eq!(binding_names(&r), vec!["X", "Y", "Rect"]);
    assert_eq!(identity_kind(&r, "Rect"), Some(TypeKind::POD));
    assert_eq!(identity_kind(&r, "X"), Some(TypeKind::POD));
    assert_eq!(r.bridge_items, vec!["X", "Y", "Rect"]);
}

#[test]
fn destructor_makes_type_opaque() {
    let items = vec![
        strukt("Inner", vec![field("a", qn(&[], "u32"))], false),
        RawItem::Struct(RawStruct {
            name: "Owner".to_string(),
            generics: vec![GenericParam::Type("T".to_string()), GenericParam::Lifetime("a".to_string())],
            fields: vec![field("inner", qn(&[], "Inner"))],
            has_destructor: true,
            packed: false,
        }),
    ];
    let d = db(vec![qn(&[], "Owner")], vec![]);
    let r = run(items, &d).unwrap();
    assert_eq!(binding_names(&r), vec!["Owner"]);
    assert_eq!(identity_kind(&r, "Owner"), Some(TypeKind::NonPOD));
    match &r.bindgen_items[0].item {
        RawBinding::Struct(s) => {
            assert!(s.packed);
            assert_eq!(s.fields.len(), 2);
            assert_eq!(s.fields[0].name, "do_not_attempt_to_allocate_nonpod_types");
            assert!(matches!(s.fields[0].ty, FieldType::OpaqueMarker));
            assert_eq!(s.fields[1].name, "_phantom_T");
            assert!(matches!(&s.fields[1].ty, FieldType::Phantom(t) if t == "T"));
        }
        _ => panic!("expected a struct"),
    }
}

#[test]
fn forward_declaration_gets_no_bridge_item() {
    let items = vec![
        strukt("Fwd", vec![field("_unused", qn(&[], "u8"))], false),
        strukt("Holder", vec![field("f", qn(&[], "Fwd"))], false),
    ];
    let d = db(vec![qn(&[], "Fwd"), qn(&[], "Holder")], vec![]);
    let r = run(items, &d).unwrap();
    assert_eq!(binding_names(&r), vec!["Fwd", "Holder"]);
    assert_eq!(identity_kind(&r, "Fwd"), Some(TypeKind::ForwardDeclaration));
    assert_eq!(r.bridge_items, vec!["Holder"]);
}

#[test]
fn denied_type_gets_no_api() {
    let items = vec![
        strukt("Bad", vec![], false),
        strukt("User", vec![field("b", qn(&[], "Bad"))], false),
    ];
    let d = db(vec![qn(&[], "Bad"), qn(&[], "User")], vec![qn(&[], "Bad")]);
    let r = run(items, &d).unwrap();
    assert_eq!(binding_names(&r), vec!["User"]);
    assert_eq!(identity_kind(&r, "Bad"), None);
}

#[test]
fn colliding_names_in_two_namespaces() {
    let items = vec![
        ns_mod("A", vec![strukt("Inner", vec![], false)]),
        ns_mod("B", vec![strukt("Inner", vec![], false)]),
    ];
    let d = db(vec![qn(&["A"], "Inner"), qn(&["B"], "Inner")], vec![]);
    let r = run(items, &d).unwrap();
    assert_eq!(r.reexports.len(), 2);
    assert_eq!(r.reexports[0].id, "Inner");
    assert_eq!(r.reexports[0].alias, None);
    assert_eq!(r.reexports[0].ns, vec!["A".to_string()]);
    assert_eq!(r.reexports[1].id, "B_Inner");
    assert_eq!(r.reexports[1].alias, Some("Inner".to_string()));
    assert_ne!(r.reexports[0].id, r.reexports[1].id);
    assert_eq!(identity_kind(&r, "A::Inner"), Some(TypeKind::POD));
    assert_eq!(identity_kind(&r, "B::Inner"), Some(TypeKind::POD));
}

#[test]
fn unused_namespace_contributes_no_imports() {
    let items = vec![
        ns_mod("A", vec![strukt("Kept", vec![], false), RawItem::Use("use x::y;".to_string())]),
        ns_mod("B", vec![strukt("Dropped", vec![], false)]),
    ];
    let d = db(vec![qn(&["A"], "Kept")], vec![]);
    let r = run(items, &d).unwrap();
    let scopes: Vec<Vec<String>> = r.bindgen_uses.iter().map(|u| u.ns.clone()).collect();
    assert_eq!(scopes, vec![vec!["A".to_string()], vec![]]);
    assert!(matches!(&r.bindgen_uses[0].uses[0], UseItem::Verbatim(t) if t == "use x::y;"));
    assert!(matches!(r.bindgen_uses[0].uses[1], UseItem::BridgeScope(1)));
}

#[test]
fn constants_and_functions() {
    let items = vec![
        strukt("S", vec![], false),
        RawItem::Const(RawConst { name: "LIMIT".to_string(), text: "pub const LIMIT: u32 = 4;".to_string() }),
        RawItem::ForeignMod(vec![RawForeignItem::Fn(ForeignFn {
            name: "take".to_string(),
            this_type: Some("S".to_string()),
            params: vec![qn(&[], "S")],
        })]),
    ];
    let d = db(vec![qn(&[], "LIMIT"), qn(&[], "take")], vec![]);
    let r = run(items, &d).unwrap();
    assert!(r.global_items.iter().any(|g| matches!(g, GlobalItem::Const(c) if c.name == "LIMIT")));
    assert!(r.extern_items.iter().any(|e| matches!(e, ExternItem::Function { bridge_id, .. } if bridge_id == "take")));
    // The function pulls in the type of its parameter.
    assert_eq!(binding_names(&r), vec!["S"]);
    assert!(matches!(r.extern_items.last(), Some(ExternItem::Include(h)) if h == "input.h"));
}

#[test]
fn utilities_need_generated_glue() {
    let includes: Vec<String> = vec!["a.h".to_string()];
    let d = db(vec![qn(&[], "make_string")], vec![]);
    let mut conv = BridgeConverter::new(&includes, &d);
    let r = conv.convert(rooted(vec![]), false).unwrap();
    assert!(r.bindgen_uses.is_empty());
    assert_eq!(r.additional_cpp_needs, vec![AdditionalNeed::MakeStringConstructor]);
    let incs: Vec<String> = r
        .extern_items
        .iter()
        .filter_map(|e| match e {
            ExternItem::Include(h) => Some(h.clone()),
            _ => None,
        })
        .collect();
    assert_eq!(incs, vec!["a.h".to_string(), "autocxxgen.h".to_string()]);
}

#[test]
fn alias_resolves_field_dependency() {
    let items = vec![
        strukt("Target", vec![], false),
        RawItem::TypeAlias(RawAlias { name: "Alias".to_string(), target: AliasTarget::Path(qn(&[], "Target")) }),
        strukt("User", vec![field("t", qn(&[], "Alias"))], false),
    ];
    let d = db(vec![qn(&[], "User")], vec![]);
    let r = run(items, &d).unwrap();
    assert_eq!(binding_names(&r), vec!["Target", "User"]);
}

#[test]
fn effective_type_names_the_native_type() {
    let items = vec![strukt("Local", vec![], false)];
    let mut d = db(vec![qn(&[], "Local")], vec![]);
    d.effective_types = vec![EffectiveType { from: qn(&[], "Local"), to: qn(&["std"], "string") }];
    let r = run(items, &d).unwrap();
    assert_eq!(identity_kind(&r, "std::string"), Some(TypeKind::POD));
}

#[test]
fn error_no_content() {
    let includes: Vec<String> = vec![];
    let d = db(vec![], vec![]);
    let mut conv = BridgeConverter::new(&includes, &d);
    assert!(matches!(conv.convert(RawModule { content: None }, true), Err(ConvertError::NoContent)));
}

#[test]
fn error_unexpected_outer_item() {
    let includes: Vec<String> = vec![];
    let d = db(vec![], vec![]);
    let mut conv = BridgeConverter::new(&includes, &d);
    let m = RawModule { content: Some(vec![RawItem::Enum("E".to_string())]) };
    assert!(matches!(conv.convert(m, true), Err(ConvertError::UnexpectedOuterItem)));
    let m = RawModule { content: Some(vec![ns_mod("other", vec![])]) };
    assert!(matches!(conv.convert(m, true), Err(ConvertError::UnexpectedOuterItem)));
    let m = RawModule { content: Some(vec![]) };
    assert!(matches!(conv.convert(m, true), Err(ConvertError::UnexpectedOuterItem)));
}

#[test]
fn error_unexpected_item_in_mod() {
    let d = db(vec![], vec![]);
    assert!(matches!(run(vec![RawItem::Other], &d), Err(ConvertError::UnexpectedItemInMod)));
}

#[test]
fn error_unexpected_foreign_item() {
    let d = db(vec![], vec![]);
    let items = vec![RawItem::ForeignMod(vec![RawForeignItem::Other])];
    assert!(matches!(run(items, &d), Err(ConvertError::UnexpectedForeignItem)));
}

#[test]
fn error_unsafe_pod_type() {
    let items = vec![ns_mod("ns", vec![strukt("Str", vec![], true)])];
    let mut d = db(vec![], vec![]);
    d.pod_requests = vec![qn(&["ns"], "Str")];
    match run(items, &d) {
        Err(e @ ConvertError::UnsafePODType(_)) => {
            assert!(matches!(&e, ConvertError::UnsafePODType(t) if t == "ns::Str"));
            assert!(e.message().ends_with("hold by value in Rust. ns::Str"));
        }
        _ => panic!("expected UnsafePODType"),
    }
}

#[test]
fn error_complex_typedef_target() {
    let items = vec![
        RawItem::TypeAlias(RawAlias { name: "Fn".to_string(), target: AliasTarget::Complex("fn(u8)".to_string()) }),
        strukt("User", vec![field("f", qn(&[], "Fn"))], false),
    ];
    let d = db(vec![], vec![]);
    match run(items, &d) {
        Err(e @ ConvertError::ComplexTypedefTarget(_)) => {
            assert_eq!(
                e.message(),
                "autocxx was unable to produce a typdef pointing to the complex type fn(u8)."
            );
        }
        _ => panic!("expected ComplexTypedefTarget"),
    }
}

#[test]
fn error_unexpected_this_type() {
    let items = vec![RawItem::ForeignMod(vec![RawForeignItem::Fn(ForeignFn {
        name: "method".to_string(),
        this_type: Some("Missing".to_string()),
        params: vec![],
    })])];
    let d = db(vec![], vec![]);
    assert!(matches!(run(items, &d), Err(ConvertError::UnexpectedThisType)));
}

#[test]
fn dependencies_are_followed_transitively() {
    let items = vec![
        strukt("C", vec![field("n", qn(&[], "u64"))], false),
        ns_mod("inner", vec![strukt("B", vec![field("c", qn(&[], "C"))], false)]),
        strukt("A", vec![field("b", qn(&["inner"], "B"))], false),
        strukt("Alone", vec![], false),
    ];
    let d = db(vec![qn(&[], "A")], vec![]);
    let r = run(items, &d).unwrap();
    assert_eq!(binding_names(&r), vec!["C", "B", "A"]);
    assert_eq!(identity_kind(&r, "inner::B"), Some(TypeKind::POD));
    assert_eq!(identity_kind(&r, "Alone"), None);
}

#[test]
fn classification_is_stable() {
    let make = || {
        vec![
            strukt("P", vec![field("x", qn(&[], "i32"))], false),
            strukt("Q", vec![field("p", qn(&[], "P"))], true),
            strukt("R", vec![field("p", qn(&[], "P"))], false),
        ]
    };
    let d = db(vec![qn(&[], "P"), qn(&[], "Q"), qn(&[], "R")], vec![]);
    let first = run(make(), &d).unwrap();
    let second = run(make(), &d).unwrap();
    for name in ["P", "Q", "R"] {
        assert_eq!(identity_kind(&first, name), identity_kind(&second, name));
    }
    assert_eq!(identity_kind(&first, "Q"), Some(TypeKind::NonPOD));
    assert_eq!(identity_kind(&first, "R"), Some(TypeKind::POD));
}

#[test]
fn function_with_denied_parameter_is_left_out() {
    let items = vec![
        strukt("Bad", vec![], false),
        RawItem::ForeignMod(vec![
            RawForeignItem::Fn(ForeignFn { name: "uses_bad".to_string(), this_type: None, params: vec![qn(&[], "Bad")] }),
            RawForeignItem::Fn(ForeignFn { name: "fine".to_string(), this_type: None, params: vec![qn(&[], "u32")] }),
        ]),
    ];
    let d = db(vec![qn(&[], "uses_bad"), qn(&[], "fine")], vec![qn(&[], "Bad")]);
    let r = run(items, &d).unwrap();
    let fns: Vec<String> = r
        .extern_items
        .iter()
        .filter_map(|e| match e {
            ExternItem::Function { bridge_id, .. } => Some(bridge_id.clone()),
            _ => None,
        })
        .collect();
    assert_eq!(fns, vec!["fine".to_string()]);
}

#[test]
fn duplicate_name_in_one_namespace_is_declared_once() {
    let items = vec![
        ns_mod("n", vec![strukt("Twice", vec![], false), strukt("Twice", vec![field("x", qn(&[], "u8"))], false)]),
    ];
    let d = db(vec![qn(&["n"], "Twice")], vec![]);
    let r = run(items, &d).unwrap();
    assert_eq!(binding_names(&r), vec!["Twice"]);
    assert_eq!(r.bridge_items, vec!["Twice"]);
}

#[test]
fn field_of_a_later_namespace_is_classified_by_its_own_type() {
    let items = vec![
        ns_mod("a", vec![strukt("Outer", vec![field("b", qn(&["b"], "Later"))], false)]),
        ns_mod("b", vec![strukt("Later", vec![field("n", qn(&[], "u16"))], false)]),
        ns_mod("c", vec![
            strukt("Wrap", vec![field("d", qn(&["c"], "Dtor"))], false),
            strukt("Dtor", vec![], true),
        ]),
    ];
    let d = db(vec![qn(&["a"], "Outer"), qn(&["c"], "Wrap")], vec![]);
    let r = run(items, &d).unwrap();
    assert_eq!(identity_kind(&r, "a::Outer"), Some(TypeKind::POD));
    assert_eq!(identity_kind(&r, "b::Later"), Some(TypeKind::POD));
    assert_eq!(identity_kind(&r, "c::Wrap"), Some(TypeKind::NonPOD));
    assert_eq!(identity_kind(&r, "c::Dtor"), None);
}

#[test]
fn unresolved_receiver_in_nested_namespace_is_refused() {
    let items = vec![ns_mod("inner", vec![
        strukt("Here", vec![], false),
        RawItem::ForeignMod(vec![RawForeignItem::Fn(ForeignFn {
            name: "m".to_string(),
            this_type: Some("Elsewhere".to_string()),
            params: vec![],
        })]),
    ])];
    let d = db(vec![], vec![]);
    assert!(matches!(run(items, &d), Err(ConvertError::UnexpectedThisType)));
}

#[test]
fn unused_complex_alias_is_harmless() {
    let items = vec![
        RawItem::TypeAlias(RawAlias { name: "Cb".to_string(), target: AliasTarget::Complex("fn()".to_string()) }),
        strukt("Plain", vec![field("n", qn(&[], "u8"))], false),
    ];
    let d = db(vec![qn(&[], "Plain")], vec![]);
    let r = run(items, &d).unwrap();
    assert_eq!(binding_names(&r), vec!["Plain"]);
}

#[test]
fn namespaced_field_types_are_pulled_in() {
    let items = vec![ns_mod("ns", vec![
        strukt("X", vec![field("a", qn(&[], "i32"))], false),
        strukt("Y", vec![field("b", qn(&[], "i32"))], false),
        strukt("Rect", vec![field("x", qn(&["ns"], "X")), field("y", qn(&["ns"], "Y"))], false),
    ])];
    let d = db(vec![qn(&["ns"], "Rect")], vec![]);
    let r = run(items, &d).unwrap();
    assert_eq!(binding_names(&r), vec!["X", "Y", "Rect"]);
    assert_eq!(identity_kind(&r, "ns::Rect"), Some(TypeKind::POD));
}

#[test]
fn namespaced_forward_declaration_and_dependent() {
    let items = vec![ns_mod("ns", vec![
        strukt("F", vec![field("_unused", qn(&[], "u8"))], false),
        strukt("D", vec![field("f", qn(&["ns"], "F"))], false),
    ])];
    let d = db(vec![qn(&["ns"], "F"), qn(&["ns"], "D")], vec![]);
    let r = run(items, &d).unwrap();
    assert_eq!(identity_kind(&r, "ns::F"), Some(TypeKind::ForwardDeclaration));
    assert_eq!(r.bridge_items, vec!["D"]);
}

#[test]
fn namespaced_denied_type_gets_no_api() {
    let items = vec![ns_mod("ns", vec![
        strukt("T", vec![], false),
        strukt("D", vec![field("t", qn(&["ns"], "T"))], false),
    ])];
    let d = db(vec![qn(&["ns"], "T"), qn(&["ns"], "D")], vec![qn(&["ns"], "T")]);
    let r = run(items, &d).unwrap();
    assert_eq!(identity_kind(&r, "ns::T"), None);
    assert_eq!(identity_kind(&r, "ns::D"), Some(TypeKind::POD));
}
