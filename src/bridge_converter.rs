use vstd::prelude::*;
use vstd::string::*;

use crate::classifier::{
    facts_of_tree, identify_byvalue_safe_types, refused_request, requests_safe,
    spot_forward_declaration, views,
};
use crate::emitter::{
    includes_of, ns_within,
    bindings_of, bridge_items_of, build_include_foreign_items, externs_of, globals_of, needs_of,
    reexport_view, reexports_of, select_uses, split_apis, BridgeConversionResults, NsBinding,
    NsUses, Reexport, UseItem,
};
use crate::gc::{allowlist_name, api_name, filter_apis_by_following_edges_from_allowlist, is_retained_set};
use crate::model::{
    AdditionalNeed, AliasTarget, Api, ConvertError, ExternItem, FieldType, ForeignFn, GenericParam, GlobalItem,
    RawAlias, RawBinding, RawConst, RawField, RawForeignItem, RawItem, RawStruct, TypeKind, Use,
    binding_id_of, bridge_id_of,
};
use crate::name_trackers::{string_contains, strings_contain, BridgeNameTracker, RustNameTracker};
use crate::names::{clone_ns, contains_name, cpp_name, names_contain, ns_push, ns_view, NameView, QualName};
use crate::type_converter::{complex_free, field_deps, lemma_field_deps_ok, TypeConverter, Typedef};
use crate::type_database::{fact_views, ByValueChecker, TypeDatabase};

verus! {

/// The state of one conversion.
pub struct BridgeConversion {
    pub type_converter: TypeConverter,
    pub byvalue_checker: ByValueChecker,
    pub apis: Vec<Api>,
    pub bridge_name_tracker: BridgeNameTracker,
    pub rust_name_tracker: RustNameTracker,
    pub use_stmts_by_mod: Vec<NsUses>,
    pub incomplete_types: Vec<QualName>,
}

/// No two APIs carry the same bridge-visible identifier.
pub open spec fn bridge_ids_unique(apis: Seq<Api>) -> bool {
    forall|i: int, j: int|
        0 <= i < apis.len() && 0 <= j < apis.len() && i != j && #[trigger] bridge_id_of(apis[i])
            is Some ==> bridge_id_of(apis[i]) != #[trigger] bridge_id_of(apis[j])
}

/// No two APIs of one namespace carry the same raw-binding identifier.
pub open spec fn binding_ids_unique(apis: Seq<Api>) -> bool {
    forall|i: int, j: int|
        0 <= i < apis.len() && 0 <= j < apis.len() && i != j && #[trigger] binding_id_of(apis[i])
            is Some && ns_view(apis[i].ns@) == ns_view(apis[j].ns@) ==> binding_id_of(apis[i])
            != #[trigger] binding_id_of(apis[j])
}

/// The opaque layout of a struct with the given generic parameters: the
/// names of the type parameters, in order.
pub open spec fn type_params(g: Seq<GenericParam>) -> Seq<Seq<char>>
    decreases g.len(),
{
    if g.len() == 0 {
        Seq::empty()
    } else {
        let p = type_params(g.drop_last());
        match g.last() {
            GenericParam::Type(t) => p.push(t@),
            _ => p,
        }
    }
}

/// `fields` is the opaque layout for the generic parameters `g`: one
/// non-constructible marker, then one phantom per type parameter.
pub open spec fn is_opaque_layout(fields: Seq<RawField>, g: Seq<GenericParam>) -> bool {
    let tp = type_params(g);
    &&& fields.len() == tp.len() + 1
    &&& fields[0].ty is OpaqueMarker
    &&& fields[0].name@ == "do_not_attempt_to_allocate_nonpod_types"@
    &&& forall|k: int|
        0 <= k < tp.len() ==> (#[trigger] fields[k + 1].ty matches FieldType::Phantom(t) && t@
            == tp[k]) && fields[k + 1].name@ == "_phantom_"@ + tp[k]
}

/// Replaces a struct's layout by the opaque one, which cannot be built,
/// copied or dereferenced on the host side and keeps each type parameter in
/// use.
pub fn make_non_pod(s: &mut RawStruct)
    ensures
        is_opaque_layout(final(s).fields@, old(s).generics@),
        final(s).packed,
        final(s).name == old(s).name,
        final(s).generics == old(s).generics,
        final(s).has_destructor == old(s).has_destructor,
{
    let mut fields: Vec<RawField> = Vec::new();
    fields.push(
        RawField {
            name: String::from_str("do_not_attempt_to_allocate_nonpod_types"),
            ty: FieldType::OpaqueMarker,
        },
    );
    let g = &s.generics;
    let mut i: usize = 0;
    assert(g@.subrange(0, 0) =~= Seq::<GenericParam>::empty());
    while i < g.len()
        invariant
            i <= g.len(),
            is_opaque_layout(fields@, g@.subrange(0, i as int)),
        decreases g.len() - i,
    {
        assert(g@.subrange(0, i + 1).drop_last() =~= g@.subrange(0, i as int));
        assert(g@.subrange(0, i + 1).last() == g@[i as int]);
        if let GenericParam::Type(t) = &g[i] {
            let mut name = String::from_str("_phantom_");
            name.append(t.as_str());
            fields.push(RawField { name, ty: FieldType::Phantom(t.clone()) });
        }
        i = i + 1;
    }
    assert(g@.subrange(0, g@.len() as int) =~= g@);
    s.fields = fields;
    s.packed = true;
}

proof fn lemma_strings_contain_push(names: Seq<String>, x: String, s: Seq<char>)
    requires
        strings_contain(names, s),
    ensures
        strings_contain(names.push(x), s),
{
    let i = choose|i: int| 0 <= i < names.len() && #[trigger] names[i]@ == s;
    assert(names.push(x)[i]@ == s);
}

proof fn lemma_names_contain_push(names: Seq<QualName>, x: QualName, n: NameView)
    requires
        names_contain(names, n),
    ensures
        names_contain(names.push(x), n),
{
    let i = choose|i: int| 0 <= i < names.len() && #[trigger] names[i]@ == n;
    assert(names.push(x)[i]@ == n);
}

/// The identifiers of the types that an API's name is kept apart from.
pub open spec fn fresh_for(apis: Seq<Api>, bt: Seq<String>, rt: Seq<QualName>, a: Api) -> bool {
    &&& (bridge_id_of(a) matches Some(b) ==> strings_contain(bt, b) && forall|i: int|
        0 <= i < apis.len() ==> #[trigger] bridge_id_of(apis[i]) != Some(b))
    &&& (binding_id_of(a) matches Some(b) ==> names_contain(rt, (ns_view(a.ns@), b)) && forall|
        i: int,
    |
        0 <= i < apis.len() && ns_view(apis[i].ns@) == ns_view(a.ns@) ==> #[trigger] binding_id_of(
            apis[i],
        ) != Some(b))
}

impl BridgeConversion {
    /// The invariant of a conversion in progress.
    pub open spec fn wf(&self) -> bool {
        &&& self.byvalue_checker.wf()
        &&& bridge_ids_unique(self.apis@)
        &&& binding_ids_unique(self.apis@)
        &&& forall|i: int|
            0 <= i < self.apis@.len() ==> (#[trigger] bridge_id_of(self.apis@[i]) matches Some(b)
                ==> strings_contain(self.bridge_name_tracker.used@, b))
        &&& forall|i: int|
            0 <= i < self.apis@.len() ==> (#[trigger] binding_id_of(self.apis@[i]) matches Some(b)
                ==> names_contain(self.rust_name_tracker.used@, (ns_view(self.apis@[i].ns@), b)))
    }

    /// Whether `tn` was spotted as declared but not defined.
    pub open spec fn incomplete(&self, tn: NameView) -> bool {
        names_contain(self.incomplete_types@, tn)
    }

    pub fn new(byvalue_checker: ByValueChecker) -> (r: BridgeConversion)
        requires
            byvalue_checker.wf(),
        ensures
            r.wf(),
            r.apis@.len() == 0,
            r.byvalue_checker == byvalue_checker,
            r.type_converter.typedefs@.len() == 0,
            r.rust_name_tracker.used@.len() == 0,
    {
        BridgeConversion {
            type_converter: TypeConverter::new(),
            byvalue_checker,
            apis: Vec::new(),
            bridge_name_tracker: BridgeNameTracker::new(),
            rust_name_tracker: RustNameTracker::new(),
            use_stmts_by_mod: Vec::new(),
            incomplete_types: Vec::new(),
        }
    }

    /// Adds an API whose identifiers are not taken yet.
    pub fn add_api(&mut self, api: Api)
        requires
            old(self).wf(),
            fresh_for(
                old(self).apis@,
                old(self).bridge_name_tracker.used@,
                old(self).rust_name_tracker.used@,
                api,
            ),
        ensures
            final(self).wf(),
            final(self).apis@ == old(self).apis@.push(api),
            final(self).byvalue_checker == old(self).byvalue_checker,
            final(self).bridge_name_tracker == old(self).bridge_name_tracker,
            final(self).rust_name_tracker == old(self).rust_name_tracker,
            final(self).type_converter == old(self).type_converter,
            final(self).incomplete_types == old(self).incomplete_types,
            final(self).use_stmts_by_mod == old(self).use_stmts_by_mod,
    {
        self.apis.push(api);
        assert(self.apis@[self.apis@.len() - 1] == api);
    }

    /// Takes a bridge-visible name that no API carries yet.
    fn fresh_bridge_name(&mut self, name: &String, ns: &Vec<String>) -> (r: String)
        requires
            old(self).wf(),
        ensures
            final(self).wf(),
            strings_contain(final(self).bridge_name_tracker.used@, r@),
            forall|i: int| 0 <= i < final(self).apis@.len() ==> #[trigger] bridge_id_of(final(self).apis@[i]) != Some(r@),
            !strings_contain(old(self).bridge_name_tracker.used@, name@) ==> r@ == name@,
            final(self).apis == old(self).apis,
            final(self).byvalue_checker == old(self).byvalue_checker,
            final(self).rust_name_tracker == old(self).rust_name_tracker,
            final(self).type_converter == old(self).type_converter,
            final(self).incomplete_types == old(self).incomplete_types,
            final(self).use_stmts_by_mod == old(self).use_stmts_by_mod,
    {
        let ghost used = self.bridge_name_tracker.used@;
        let r = self.bridge_name_tracker.get_unique_cxx_bridge_name(name, ns);
        proof {
            let nu = self.bridge_name_tracker.used@;
            assert(nu[nu.len() - 1]@ == r@);
            assert forall|i: int| 0 <= i < self.apis@.len() implies (#[trigger] bridge_id_of(self.apis@[i]) matches Some(b)
                ==> strings_contain(nu, b)) by {
                if let Some(b) = bridge_id_of(self.apis@[i]) {
                    lemma_strings_contain_push(used, r, b);
                }
            }
        }
        r
    }

    /// Accepts a host-visible name once per namespace.
    fn claim_host_name(&mut self, ns: &Vec<String>, name: &String) -> (r: bool)
        requires
            old(self).wf(),
        ensures
            final(self).wf(),
            r == !names_contain(old(self).rust_name_tracker.used@, (ns_view(ns@), name@)),
            r ==> names_contain(final(self).rust_name_tracker.used@, (ns_view(ns@), name@)),
            claims_at_most(old(self).rust_name_tracker.used@, final(self).rust_name_tracker.used@, (ns_view(ns@), name@)),
            r ==> forall|i: int| 0 <= i < final(self).apis@.len() && ns_view(final(self).apis@[i].ns@) == ns_view(ns@)
                ==> #[trigger] binding_id_of(final(self).apis@[i]) != Some(name@),
            final(self).apis == old(self).apis,
            final(self).byvalue_checker == old(self).byvalue_checker,
            final(self).bridge_name_tracker == old(self).bridge_name_tracker,
            final(self).type_converter == old(self).type_converter,
            final(self).incomplete_types == old(self).incomplete_types,
            final(self).use_stmts_by_mod == old(self).use_stmts_by_mod,
    {
        let ghost used = self.rust_name_tracker.used@;
        let r = self.rust_name_tracker.ok_to_use_rust_name(ns, name);
        proof {
            if r {
                let nu = self.rust_name_tracker.used@;
                assert(nu =~= used.push(nu.last()));
                assert(nu[nu.len() - 1]@ == (ns_view(ns@), name@));
                assert forall|i: int| 0 <= i < self.apis@.len() implies (#[trigger] binding_id_of(self.apis@[i]) matches Some(b)
                    ==> names_contain(nu, (ns_view(self.apis@[i].ns@), b))) by {
                    if let Some(b) = binding_id_of(self.apis@[i]) {
                        lemma_names_contain_push(used, nu.last(), (ns_view(self.apis@[i].ns@), b));
                    }
                }
            }
        }
        r
    }
}

/// The identifier of a raw-binding fragment.
pub open spec fn binding_name(b: RawBinding) -> Seq<char> {
    match b {
        RawBinding::Struct(s) => s.name@,
        RawBinding::Enum(e) => e@,
        RawBinding::TypeAlias(a) => a.name@,
    }
}

/// The path of a raw-binding type below the output's root: the binding
/// scope, its namespaces, then the type.
pub open spec fn binding_path(tn: NameView) -> Seq<Seq<char>> {
    seq!["bindgen"@, "root"@] + tn.0 + seq![tn.1]
}

fn make_binding_path(tyname: &QualName) -> (r: Vec<String>)
    ensures
        ns_view(r@) == binding_path(tyname@),
{
    let mut r: Vec<String> = Vec::new();
    r.push(String::from_str("bindgen"));
    r.push(String::from_str("root"));
    let mut i: usize = 0;
    while i < tyname.ns.len()
        invariant
            i <= tyname.ns.len(),
            ns_view(r@) == seq!["bindgen"@, "root"@] + ns_view(tyname.ns@).subrange(0, i as int),
        decreases tyname.ns.len() - i,
    {
        let ghost prev = r@;
        r.push(tyname.ns[i].clone());
        assert(ns_view(r@) =~= ns_view(prev).push(tyname.ns@[i as int]@));
        assert(ns_view(tyname.ns@).subrange(0, i + 1) =~= ns_view(tyname.ns@).subrange(0, i as int).push(tyname.ns@[i as int]@));
        assert(ns_view(r@) =~= seq!["bindgen"@, "root"@] + ns_view(tyname.ns@).subrange(0, i + 1));
        i = i + 1;
    }
    let ghost prev = r@;
    r.push(tyname.id.clone());
    assert(ns_view(r@) =~= ns_view(prev).push(tyname.id@));
    assert(ns_view(tyname.ns@).subrange(0, tyname.ns@.len() as int) =~= ns_view(tyname.ns@));
    assert(ns_view(r@) =~= binding_path(tyname@));
    r
}

impl BridgeConversion {
    /// Records the API of a type (struct or enum): its raw binding, its
    /// declaration in the bridge scope, the assertion that binds it to its
    /// native name and classification, and its public re-export. A type
    /// whose effective name is denied gets no API; nor does a second
    /// declaration of one name in one namespace.
    pub fn generate_type(
        &mut self,
        tyname: QualName,
        kind: TypeKind,
        deps: Vec<QualName>,
        binding: RawBinding,
        db: &TypeDatabase,
    )
        requires
            old(self).wf(),
            binding_name(binding) == tyname.id@,
        ensures
            final(self).wf(),
            final(self).byvalue_checker == old(self).byvalue_checker,
            final(self).incomplete_types == old(self).incomplete_types,
            final(self).use_stmts_by_mod == old(self).use_stmts_by_mod,
            final(self).type_converter.typedefs@ == old(self).type_converter.typedefs@,
            final(self).apis@.len() <= old(self).apis@.len() + 1,
            final(self).apis@.subrange(0, old(self).apis@.len() as int) == old(self).apis@,
            grows(*old(self), *final(self)),
            claims_at_most(old(self).rust_name_tracker.used@, final(self).rust_name_tracker.used@, tyname@),
            (final(self).apis@.len() == old(self).apis@.len() + 1) == (!db.blocked(db.effective(tyname@))
                && !names_contain(old(self).rust_name_tracker.used@, tyname@)),
            final(self).apis@.len() == old(self).apis@.len() + 1 ==> {
                let a = final(self).apis@.last();
                &&& api_name(a) == tyname@
                &&& a.deps == deps
                &&& a.bindgen_mod_item == Some(binding)
                &&& (a.bridge_item is None) == (kind == TypeKind::ForwardDeclaration)
                &&& (a.extern_item matches Some(ExternItem::Type { cpp_ns, path, .. })
                    && ns_view(cpp_ns@) == db.effective(tyname@).0 && ns_view(path@) == binding_path(tyname@))
                &&& bridge_id_of(a) is Some
                &&& a.global_items@.len() == 1
                &&& (a.global_items@[0] matches GlobalItem::TypeIdentity { path, cpp_name: c, kind: k }
                    && k == kind && c@ == cpp_name(db.effective(tyname@)) && ns_view(path@) == binding_path(tyname@))
                &&& a.additional_cpp is None
                &&& a.id_for_allowlist is None
                &&& (a.use_stmt matches Use::UsedWithAlias(al) ==> al@ == tyname.id@)
                &&& !(a.use_stmt is Unused)
                &&& (a.use_stmt is Used) == (bridge_id_of(a) == Some(tyname.id@))
                &&& allowlist_name(a) == tyname@
                &&& (!strings_contain(old(self).bridge_name_tracker.used@, tyname.id@) ==> bridge_id_of(a) == Some(tyname.id@))
            },
    {
        let blocked = match db.get_effective_type(&tyname) {
            Some(eff) => db.is_on_blocklist(eff),
            None => db.is_on_blocklist(&tyname),
        };
        if blocked {
            return;
        }
        let cpp = match db.get_effective_type(&tyname) {
            Some(eff) => eff.to_cpp_name(),
            None => tyname.to_cpp_name(),
        };
        let cpp_ns = match db.get_effective_type(&tyname) {
            Some(eff) => clone_ns(&eff.ns),
            None => clone_ns(&tyname.ns),
        };
        if !self.claim_host_name(&tyname.ns, &tyname.id) {
            return;
        }
        let bridge_id = self.fresh_bridge_name(&tyname.id, &tyname.ns);
        let path = make_binding_path(&tyname);
        let bridge_item = match kind {
            TypeKind::ForwardDeclaration => None,
            _ => Some(bridge_id.clone()),
        };
        let use_stmt = if bridge_id == tyname.id {
            Use::Used
        } else {
            Use::UsedWithAlias(tyname.id.clone())
        };
        let ns = clone_ns(&tyname.ns);
        let mut global_items: Vec<GlobalItem> = Vec::new();
        global_items.push(GlobalItem::TypeIdentity { path, cpp_name: cpp, kind });
        let api = Api {
            ns,
            id: tyname.id.clone(),
            use_stmt,
            deps,
            extern_item: Some(ExternItem::Type { bridge_id, cpp_ns, path: make_binding_path(&tyname) }),
            bridge_item,
            global_items,
            additional_cpp: None,
            id_for_allowlist: None,
            bindgen_mod_item: Some(binding),
        };
        self.add_api(api);
        self.type_converter.push(tyname);
        assert(self.apis@.subrange(0, old(self).apis@.len() as int) =~= old(self).apis@);
    }
}

/// The classification by `ck` of a struct named `tn` with the given fields.
pub open spec fn struct_kind_of(ck: ByValueChecker, tn: NameView, fields: Seq<RawField>) -> TypeKind {
    if has_sentinel(fields) {
        TypeKind::ForwardDeclaration
    } else if ck.pod(tn) {
        TypeKind::POD
    } else {
        TypeKind::NonPOD
    }
}

/// Whether a field list carries the forward-declaration sentinel.
pub open spec fn has_sentinel(fields: Seq<RawField>) -> bool {
    exists|i: int| 0 <= i < fields.len() && #[trigger] fields[i].name@ == "_unused"@
}

impl BridgeConversion {
    /// The classification of a struct named `tn` with the given fields.
    pub open spec fn struct_kind(&self, tn: NameView, fields: Seq<RawField>) -> TypeKind {
        struct_kind_of(self.byvalue_checker, tn, fields)
    }

    /// Converts one struct. A forward declaration is marked incomplete; a
    /// POD struct keeps its fields, which give its dependencies; any other
    /// struct gets the opaque layout and no dependencies.
    pub fn convert_struct(&mut self, s: RawStruct, ns: &Vec<String>, db: &TypeDatabase) -> (r: Result<(), ConvertError>)
        requires
            old(self).wf(),
        ensures
            final(self).wf(),
            final(self).byvalue_checker == old(self).byvalue_checker,
            final(self).use_stmts_by_mod == old(self).use_stmts_by_mod,
            final(self).type_converter.typedefs@ == old(self).type_converter.typedefs@,
            final(self).apis@.len() <= old(self).apis@.len() + 1,
            final(self).apis@.subrange(0, old(self).apis@.len() as int) == old(self).apis@,
            grows(*old(self), *final(self)),
            claims_at_most(old(self).rust_name_tracker.used@, final(self).rust_name_tracker.used@, (ns_view(ns@), s.name@)),
            extends(old(self).incomplete_types@, final(self).incomplete_types@),
            ({
                let tn = (ns_view(ns@), s.name@);
                let kind = old(self).struct_kind(tn, s.fields@);
                &&& r is Err <==> kind == TypeKind::POD && field_deps(old(self).type_converter.typedefs@, s.fields@) is Err
                &&& (r matches Err(e) ==> e is ComplexTypedefTarget)
                &&& (final(self).apis@.len() == old(self).apis@.len() + 1) == (r is Ok && !db.blocked(db.effective(tn))
                    && !names_contain(old(self).rust_name_tracker.used@, tn))
                &&& final(self).apis@.len() == old(self).apis@.len() + 1 ==> {
                    let a = final(self).apis@.last();
                    &&& api_name(a) == tn
                    &&& allowlist_name(a) == tn
                    &&& (a.bridge_item is None) == (kind == TypeKind::ForwardDeclaration)
                    &&& (a.global_items@[0] matches GlobalItem::TypeIdentity { kind: k, .. } && k == kind)
                    &&& a.global_items@.len() == 1
                    &&& (kind == TypeKind::POD ==> a.bindgen_mod_item == Some(RawBinding::Struct(s))
                        && views(a.deps@) == field_deps(old(self).type_converter.typedefs@, s.fields@)->Ok_0)
                    &&& (kind != TypeKind::POD ==> a.deps@.len() == 0 && (a.bindgen_mod_item matches Some(RawBinding::Struct(t))
                        && is_opaque_layout(t.fields@, s.generics@) && t.name == s.name && t.packed))
                }
                &&& has_sentinel(s.fields@) ==> final(self).incomplete_types@.len() == old(self).incomplete_types@.len() + 1
                    && final(self).incomplete_types@.drop_last() == old(self).incomplete_types@
                    && final(self).incomplete_types@.last()@ == tn
                &&& !has_sentinel(s.fields@) ==> final(self).incomplete_types == old(self).incomplete_types
            }),
    {
        let tyname = QualName { ns: clone_ns(ns), id: s.name.clone() };
        let forward = spot_forward_declaration(&s.fields);
        let kind = if forward {
            let ghost inc = self.incomplete_types@;
            self.incomplete_types.push(QualName { ns: clone_ns(ns), id: s.name.clone() });
            assert(self.incomplete_types@[inc.len() as int]@ == tyname@);
            TypeKind::ForwardDeclaration
        } else if self.byvalue_checker.is_pod(&tyname) {
            TypeKind::POD
        } else {
            TypeKind::NonPOD
        };
        let mut st = s;
        let deps = match kind {
            TypeKind::POD => {
                match self.type_converter.convert_fields(&st.fields) {
                    Ok(d) => d,
                    Err(e) => return Err(e),
                }
            },
            _ => {
                make_non_pod(&mut st);
                Vec::new()
            },
        };
        let ghost deps_v = deps@;
        let ghost inc = self.incomplete_types;
        self.generate_type(tyname, kind, deps, RawBinding::Struct(st), db);
        assert(views(deps_v) == deps_v.map_values(|q: QualName| q@));
        proof {
            if forward {
                let i = inc@.len() - 1;
                assert(inc@[i]@ == (ns_view(ns@), s.name@));
            }
        }
        Ok(())
    }
}

/// An error that the tree walk can meet: a shape it does not support, an
/// alias it cannot express, or a receiver it cannot resolve.
pub open spec fn structural_error(e: ConvertError) -> bool {
    ||| e is UnexpectedForeignItem
    ||| e is UnexpectedItemInMod
    ||| e is ComplexTypedefTarget
    ||| e is UnexpectedThisType
}

/// The conversion leaves these parts as they were and only appends APIs.
pub open spec fn grows(a: BridgeConversion, b: BridgeConversion) -> bool {
    &&& b.byvalue_checker == a.byvalue_checker
    &&& a.apis@.len() <= b.apis@.len()
    &&& forall|i: int| 0 <= i < a.apis@.len() ==> #[trigger] b.apis@[i] == a.apis@[i]
    &&& a.use_stmts_by_mod@.len() <= b.use_stmts_by_mod@.len()
}

impl BridgeConversion {
    /// Whether a function must be left out: one of its parameter types is
    /// denied or only forward-declared.
    pub open spec fn avoided(&self, db: TypeDatabase, f: ForeignFn) -> bool {
        exists|k: int| 0 <= k < f.params@.len() && (db.blocked(#[trigger] f.params@[k]@) || self.incomplete(f.params@[k]@))
    }

    fn avoid_generating_function(&self, f: &ForeignFn, db: &TypeDatabase) -> (r: bool)
        ensures
            r == self.avoided(*db, *f),
    {
        let mut k: usize = 0;
        while k < f.params.len()
            invariant
                k <= f.params.len(),
                forall|m: int| 0 <= m < k ==> !(db.blocked(#[trigger] f.params@[m]@) || self.incomplete(f.params@[m]@)),
            decreases f.params.len() - k,
        {
            if db.is_on_blocklist(&f.params[k]) || contains_name(&self.incomplete_types, &f.params[k]) {
                return true;
            }
            k = k + 1;
        }
        false
    }

    /// Converts one foreign function into an API under a fresh bridge name,
    /// unless a parameter type makes it impossible to express.
    fn convert_function(&mut self, f: &ForeignFn, ns: &Vec<String>, db: &TypeDatabase)
        requires
            old(self).wf(),
        ensures
            final(self).wf(),
            grows(*old(self), *final(self)),
            final(self).incomplete_types == old(self).incomplete_types,
            final(self).type_converter.typedefs@ == old(self).type_converter.typedefs@,
            claims_within(old(self).rust_name_tracker.used@, final(self).rust_name_tracker.used@, ns_view(ns@)),
            claims_at_most(old(self).rust_name_tracker.used@, final(self).rust_name_tracker.used@, (ns_view(ns@), f.name@)),
            final(self).apis@.len() <= old(self).apis@.len() + 1,
            final(self).apis@.len() == old(self).apis@.len() + 1 ==> final(self).apis@.last().bindgen_mod_item is None
                && allowlist_name(final(self).apis@.last()) == (ns_view(ns@), f.name@),
            old(self).avoided(*db, *f) ==> final(self).apis@ == old(self).apis@,
            !old(self).avoided(*db, *f) ==> final(self).apis@.len() == old(self).apis@.len() + 1 && {
                let a = final(self).apis@.last();
                &&& a.id_for_allowlist matches Some(n) && n@ == f.name@
                &&& views(a.deps@) == views(f.params@)
                &&& bridge_id_of(a) is Some
                &&& a.bindgen_mod_item is None
            },
    {
        if self.avoid_generating_function(f, db) {
            return;
        }
        let bridge_id = self.fresh_bridge_name(&f.name, ns);
        let host_ok = self.claim_host_name(ns, &f.name);
        proof {
            lemma_at_most_within(old(self).rust_name_tracker.used@, self.rust_name_tracker.used@, (ns_view(ns@), f.name@));
        }
        let use_stmt = if !host_ok {
            Use::Unused
        } else if bridge_id == f.name {
            Use::Used
        } else {
            Use::UsedWithAlias(f.name.clone())
        };
        let mut deps: Vec<QualName> = Vec::new();
        let mut params: Vec<QualName> = Vec::new();
        let mut k: usize = 0;
        while k < f.params.len()
            invariant
                k <= f.params.len(),
                views(deps@) == views(f.params@.subrange(0, k as int)),
            decreases f.params.len() - k,
        {
            let ghost prev = deps@;
            deps.push(f.params[k].clone());
            params.push(f.params[k].clone());
            assert(views(deps@) =~= views(prev).push(f.params@[k as int]@));
            assert(views(f.params@.subrange(0, k + 1)) =~= views(f.params@.subrange(0, k as int)).push(f.params@[k as int]@));
            k = k + 1;
        }
        assert(f.params@.subrange(0, f.params@.len() as int) =~= f.params@);
        let api = Api {
            ns: clone_ns(ns),
            id: bridge_id.clone(),
            use_stmt,
            deps,
            extern_item: Some(ExternItem::Function { bridge_id, cpp_name: f.name.clone(), params }),
            bridge_item: None,
            global_items: Vec::new(),
            additional_cpp: None,
            id_for_allowlist: Some(f.name.clone()),
            bindgen_mod_item: None,
        };
        self.add_api(api);
    }

    /// Converts the functions of a namespace's foreign-declaration blocks,
    /// once every type of that namespace is known. A method whose receiver
    /// names no type of the namespace is refused.
    fn convert_foreign_fns(
        &mut self,
        fns: &Vec<ForeignFn>,
        known: &Vec<String>,
        ns: &Vec<String>,
        db: &TypeDatabase,
    ) -> (r: Result<(), ConvertError>)
        requires
            old(self).wf(),
        ensures
            final(self).wf(),
            grows(*old(self), *final(self)),
            final(self).type_converter.typedefs@ == old(self).type_converter.typedefs@,
            claims_within(old(self).rust_name_tracker.used@, final(self).rust_name_tracker.used@, ns_view(ns@)),
            claims_from_fns(old(self).rust_name_tracker.used@, final(self).rust_name_tracker.used@, ns_view(ns@), fns@),
            final(self).incomplete_types == old(self).incomplete_types,
            forall|m: int| old(self).apis@.len() <= m < final(self).apis@.len() ==> (#[trigger] final(self).apis@[m]).bindgen_mod_item is None,
            apis_from_fns(final(self).apis@, old(self).apis@.len() as int, ns_view(ns@), fns@),
            r is Err ==> exists|k: int| 0 <= k < fns@.len() && (#[trigger] fns@[k].this_type matches Some(t)
                && !strings_contain(known@, t@)),
            r matches Err(e) ==> e is UnexpectedThisType,
            r is Ok ==> forall|k: int| 0 <= k < fns@.len() ==> (#[trigger] fns@[k].this_type matches Some(t)
                ==> strings_contain(known@, t@)),
    {
        let mut k: usize = 0;
        while k < fns.len()
            invariant
                self.wf(),
                grows(*old(self), *self),
                self.type_converter.typedefs@ == old(self).type_converter.typedefs@,
                claims_within(old(self).rust_name_tracker.used@, self.rust_name_tracker.used@, ns_view(ns@)),
                claims_from_fns(old(self).rust_name_tracker.used@, self.rust_name_tracker.used@, ns_view(ns@), fns@),
                self.incomplete_types == old(self).incomplete_types,
                forall|m: int| old(self).apis@.len() <= m < self.apis@.len() ==> (#[trigger] self.apis@[m]).bindgen_mod_item is None,
                apis_from_fns(self.apis@, old(self).apis@.len() as int, ns_view(ns@), fns@),
                k <= fns.len(),
                forall|m: int| 0 <= m < k ==> (#[trigger] fns@[m].this_type matches Some(t)
                    ==> strings_contain(known@, t@)),
            decreases fns.len() - k,
        {
            if let Some(t) = &fns[k].this_type {
                if !string_contains(known, t) {
                    return Err(ConvertError::UnexpectedThisType);
                }
            }
            let ghost u0 = self.rust_name_tracker.used@;
            let ghost ap0 = self.apis@;
            self.convert_function(&fns[k], ns, db);
            proof {
                assert forall|q: int| old(self).rust_name_tracker.used@.len() <= q < self.rust_name_tracker.used@.len()
                    implies exists|k2: int| 0 <= k2 < fns@.len() && (#[trigger] self.rust_name_tracker.used@[q])@ == (ns_view(ns@), (#[trigger] fns@[k2]).name@) by {
                    if q < u0.len() {
                        assert(self.rust_name_tracker.used@[q] == u0[q]) by {
                            if self.rust_name_tracker.used@ != u0 {
                                assert(self.rust_name_tracker.used@.drop_last()[q] == self.rust_name_tracker.used@[q]);
                            }
                        }
                    } else {
                        assert(self.rust_name_tracker.used@[q]@ == (ns_view(ns@), fns@[k as int].name@));
                    }
                }
                assert forall|m: int| old(self).apis@.len() <= m < self.apis@.len() implies (#[trigger] self.apis@[m]).bindgen_mod_item is None by {
                    if m < ap0.len() {
                        assert(self.apis@[m] == ap0[m]);
                    }
                }
                assert forall|m: int| old(self).apis@.len() <= m < self.apis@.len() implies exists|k2: int| 0 <= k2 < fns@.len()
                    && allowlist_name(#[trigger] self.apis@[m]) == (ns_view(ns@), (#[trigger] fns@[k2]).name@) by {
                    if m < ap0.len() {
                        assert(self.apis@[m] == ap0[m]);
                    } else {
                        assert(allowlist_name(self.apis@[m]) == (ns_view(ns@), fns@[k as int].name@));
                    }
                }
                let u1 = self.rust_name_tracker.used@;
                let o = old(self).rust_name_tracker.used@;
                assert forall|q: int| o.len() <= q < u1.len() implies ns_within(ns_view(ns@), #[trigger] u1[q]@.0) by {
                    if q < u0.len() {
                        assert(u1[q] == u0[q]);
                    }
                }
            }
            k = k + 1;
        }
        Ok(())
    }
}

/// A copy of an alias target.
fn copy_target(t: &AliasTarget) -> (r: AliasTarget)
    ensures
        (r is Complex) == (t is Complex),
{
    match t {
        AliasTarget::Path(q) => AliasTarget::Path(q.clone()),
        AliasTarget::Complex(c) => AliasTarget::Complex(c.clone()),
    }
}

/// The view of a receiver type name.
pub open spec fn receiver_view(t: Option<String>) -> Option<Seq<char>> {
    match t {
        Some(s) => Some(s@),
        None => None,
    }
}

/// A copy of a foreign function.
fn copy_foreign_fn(f: &ForeignFn) -> (r: ForeignFn)
    ensures
        receiver_view(r.this_type) == receiver_view(f.this_type),
        r.name@ == f.name@,
        views(r.params@) == views(f.params@),
{
    let this_type = match &f.this_type {
        Some(t) => Some(t.clone()),
        None => None,
    };
    let mut params: Vec<QualName> = Vec::new();
    let mut k: usize = 0;
    while k < f.params.len()
        invariant
            k <= f.params.len(),
            views(params@) == views(f.params@.subrange(0, k as int)),
        decreases f.params.len() - k,
    {
        let ghost prev = params@;
        params.push(f.params[k].clone());
        assert(views(params@) =~= views(prev).push(f.params@[k as int]@));
        assert(views(f.params@.subrange(0, k + 1)) =~= views(f.params@.subrange(0, k as int)).push(f.params@[k as int]@));
        k = k + 1;
    }
    assert(f.params@.subrange(0, f.params@.len() as int) =~= f.params@);
    ForeignFn { name: f.name.clone(), this_type, params }
}

/// The receivers of the functions of a foreign-declaration block, in order.
pub open spec fn foreign_receivers(f: Seq<RawForeignItem>) -> Seq<Option<Seq<char>>>
    decreases f.len(),
{
    if f.len() == 0 {
        Seq::empty()
    } else {
        let p = foreign_receivers(f.drop_last());
        match f.last() {
            RawForeignItem::Fn(ff) => p.push(receiver_view(ff.this_type)),
            RawForeignItem::Other => p,
        }
    }
}

/// The receivers of the foreign functions declared directly in `items`.
pub open spec fn level_receivers(items: Seq<RawItem>) -> Seq<Option<Seq<char>>>
    decreases items.len(),
{
    if items.len() == 0 {
        Seq::empty()
    } else {
        let p = level_receivers(items.drop_last());
        match items.last() {
            RawItem::ForeignMod(f) => p + foreign_receivers(f@),
            _ => p,
        }
    }
}

/// The names of the types declared directly in `items`: structs, enums and
/// the types of implementation blocks.
pub open spec fn level_names(items: Seq<RawItem>) -> Seq<Seq<char>>
    decreases items.len(),
{
    if items.len() == 0 {
        Seq::empty()
    } else {
        let p = level_names(items.drop_last());
        match items.last() {
            RawItem::Struct(st) => p.push(st.name@),
            RawItem::Enum(e) => p.push(e@),
            RawItem::Impl(i) => p.push(i.self_ty@),
            _ => p,
        }
    }
}

/// A method declared directly in `items` has a receiver that names no type
/// declared there.
pub open spec fn bad_level(items: Seq<RawItem>) -> bool {
    exists|k: int| 0 <= k < level_receivers(items).len() && (#[trigger] level_receivers(items)[k] matches Some(t)
        && !level_names(items).contains(t))
}

/// Some namespace of the tree has a method whose receiver names no type of
/// that namespace.
pub open spec fn has_bad_receiver(items: Seq<RawItem>) -> bool
    decreases items, 1int,
{
    bad_level(items) || nested_bad_receiver(items)
}

/// Some namespace nested in `items` has a method with an unresolved receiver.
pub open spec fn nested_bad_receiver(items: Seq<RawItem>) -> bool
    decreases items, 0int,
{
    if items.len() == 0 {
        false
    } else {
        nested_bad_receiver(items.subrange(0, items.len() - 1)) || match items[items.len() - 1] {
            RawItem::Mod(m) => match m.content {
                Some(c) => has_bad_receiver(c@),
                None => false,
            },
            _ => false,
        }
    }
}

/// Some namespace of the tree declares an alias whose target no bridge alias
/// can express.
pub open spec fn has_complex_alias(items: Seq<RawItem>) -> bool
    decreases items,
{
    if items.len() == 0 {
        false
    } else {
        has_complex_alias(items.subrange(0, items.len() - 1)) || match items[items.len() - 1] {
            RawItem::TypeAlias(a) => a.target is Complex,
            RawItem::Mod(m) => match m.content {
                Some(c) => has_complex_alias(c@),
                None => false,
            },
            _ => false,
        }
    }
}

proof fn lemma_prefix_nested_bad(items: Seq<RawItem>, i: int)
    requires
        0 <= i <= items.len(),
        nested_bad_receiver(items.subrange(0, i)),
    ensures
        nested_bad_receiver(items),
    decreases items.len() - i,
{
    if i < items.len() {
        assert(items.subrange(0, i + 1).subrange(0, i) =~= items.subrange(0, i));
        lemma_prefix_nested_bad(items, i + 1);
    } else {
        assert(items.subrange(0, i) =~= items);
    }
}

proof fn lemma_prefix_complex(items: Seq<RawItem>, i: int)
    requires
        0 <= i <= items.len(),
        has_complex_alias(items.subrange(0, i)),
    ensures
        has_complex_alias(items),
    decreases items.len() - i,
{
    if i < items.len() {
        assert(items.subrange(0, i + 1).subrange(0, i) =~= items.subrange(0, i));
        lemma_prefix_complex(items, i + 1);
    } else {
        assert(items.subrange(0, i) =~= items);
    }
}

/// Some namespace of the tree holds an item of an unsupported shape.
pub open spec fn has_other_item(items: Seq<RawItem>) -> bool
    decreases items,
{
    if items.len() == 0 {
        false
    } else {
        has_other_item(items.subrange(0, items.len() - 1)) || match items[items.len() - 1] {
            RawItem::Other => true,
            RawItem::Mod(m) => match m.content {
                Some(c) => has_other_item(c@),
                None => false,
            },
            _ => false,
        }
    }
}

/// Some foreign-declaration block of the tree holds a declaration other
/// than a function.
pub open spec fn has_other_foreign_item(items: Seq<RawItem>) -> bool
    decreases items,
{
    if items.len() == 0 {
        false
    } else {
        has_other_foreign_item(items.subrange(0, items.len() - 1)) || match items[items.len() - 1] {
            RawItem::ForeignMod(f) => exists|k: int| 0 <= k < f@.len() && #[trigger] f@[k] is Other,
            RawItem::Mod(m) => match m.content {
                Some(c) => has_other_foreign_item(c@),
                None => false,
            },
            _ => false,
        }
    }
}

proof fn lemma_prefix_has_other(items: Seq<RawItem>, i: int)
    requires
        0 <= i <= items.len(),
        has_other_item(items.subrange(0, i)),
    ensures
        has_other_item(items),
    decreases items.len() - i,
{
    if i < items.len() {
        assert(items.subrange(0, i + 1).subrange(0, i) =~= items.subrange(0, i));
        lemma_prefix_has_other(items, i + 1);
    } else {
        assert(items.subrange(0, i) =~= items);
    }
}

proof fn lemma_prefix_has_other_foreign(items: Seq<RawItem>, i: int)
    requires
        0 <= i <= items.len(),
        has_other_foreign_item(items.subrange(0, i)),
    ensures
        has_other_foreign_item(items),
    decreases items.len() - i,
{
    if i < items.len() {
        assert(items.subrange(0, i + 1).subrange(0, i) =~= items.subrange(0, i));
        lemma_prefix_has_other_foreign(items, i + 1);
    } else {
        assert(items.subrange(0, i) =~= items);
    }
}

impl BridgeConversion {
    /// A constant becomes a global item, whatever namespace declared it.
    fn add_const(&mut self, c: &RawConst, ns: &Vec<String>)
        requires
            old(self).wf(),
        ensures
            final(self).wf(),
            grows(*old(self), *final(self)),
            final(self).apis@.len() == old(self).apis@.len() + 1,
            final(self).incomplete_types == old(self).incomplete_types,
            final(self).type_converter.typedefs@ == old(self).type_converter.typedefs@,
            final(self).rust_name_tracker == old(self).rust_name_tracker,
            BridgeConversion::const_api(ns_view(ns@), *c, final(self).apis@.last()),
    {
        let mut global_items: Vec<GlobalItem> = Vec::new();
        global_items.push(GlobalItem::Const(RawConst { name: c.name.clone(), text: c.text.clone() }));
        let api = Api {
            ns: clone_ns(ns),
            id: c.name.clone(),
            use_stmt: Use::Unused,
            deps: Vec::new(),
            extern_item: None,
            bridge_item: None,
            global_items,
            additional_cpp: None,
            id_for_allowlist: None,
            bindgen_mod_item: None,
        };
        self.add_api(api);
    }

    /// An alias is registered with the type rewriter and kept as a raw
    /// binding, unless its name is already taken in its namespace.
    fn add_alias(&mut self, a: &RawAlias, ns: &Vec<String>)
        requires
            old(self).wf(),
        ensures
            final(self).wf(),
            grows(*old(self), *final(self)),
            final(self).incomplete_types == old(self).incomplete_types,
            final(self).type_converter.typedefs@.len() == old(self).type_converter.typedefs@.len() + 1,
            final(self).type_converter.typedefs@.drop_last() == old(self).type_converter.typedefs@,
            final(self).type_converter.typedefs@.last().name@ == (ns_view(ns@), a.name@),
            (final(self).type_converter.typedefs@.last().target is Complex) == (a.target is Complex),
            claims_at_most(old(self).rust_name_tracker.used@, final(self).rust_name_tracker.used@, (ns_view(ns@), a.name@)),
            extends(old(self).type_converter.typedefs@, final(self).type_converter.typedefs@),
            final(self).apis@.len() <= old(self).apis@.len() + 1,
            (final(self).apis@.len() == old(self).apis@.len() + 1) == !names_contain(
                old(self).rust_name_tracker.used@,
                (ns_view(ns@), a.name@),
            ),
            final(self).apis@.len() == old(self).apis@.len() + 1 ==> allowlist_name(final(self).apis@.last()) == (ns_view(ns@), a.name@),
            final(self).apis@.len() == old(self).apis@.len() + 1 ==> BridgeConversion::alias_api(
                ns_view(ns@),
                *a,
                final(self).apis@.last(),
            ),
    {
        let tyname = QualName { ns: clone_ns(ns), id: a.name.clone() };
        self.type_converter.insert_typedef(tyname, copy_target(&a.target));
        assert(self.type_converter.typedefs@.drop_last() =~= old(self).type_converter.typedefs@);
        if self.claim_host_name(ns, &a.name) {
            let alias = RawAlias { name: a.name.clone(), target: copy_target(&a.target) };
            let api = Api {
                ns: clone_ns(ns),
                id: a.name.clone(),
                use_stmt: Use::Unused,
                deps: Vec::new(),
                extern_item: None,
                bridge_item: None,
                global_items: Vec::new(),
                additional_cpp: None,
                id_for_allowlist: None,
                bindgen_mod_item: Some(RawBinding::TypeAlias(alias)),
            };
            self.add_api(api);
        }
    }

    /// Walks the items of the namespace `ns`, and of the namespaces nested
    /// in it, adding an API for each type, function, constant and alias
    /// found. The imports of each namespace are buffered, with imports of
    /// the bridge scope and of the bridge library's owning pointer and
    /// string types, to be emitted only where the namespace keeps content.
    pub fn convert_mod_items(&mut self, items: &Vec<RawItem>, ns: &Vec<String>, db: &TypeDatabase) -> (r: Result<(), ConvertError>)
        requires
            old(self).wf(),
        ensures
            final(self).wf(),
            grows(*old(self), *final(self)),
            r is Ok ==> final(self).use_stmts_by_mod@.len() > old(self).use_stmts_by_mod@.len(),
            r matches Err(e) ==> structural_error(e),
            r matches Err(ConvertError::UnexpectedItemInMod) ==> has_other_item(items@),
            r matches Err(ConvertError::UnexpectedForeignItem) ==> has_other_foreign_item(items@),
            r matches Err(ConvertError::UnexpectedThisType) ==> has_bad_receiver(items@),
            r matches Err(ConvertError::ComplexTypedefTarget(_)) ==> has_complex_alias(items@)
                || !complex_free(old(self).type_converter.typedefs@),
            r is Ok && complex_free(old(self).type_converter.typedefs@) && !has_complex_alias(items@)
                ==> complex_free(final(self).type_converter.typedefs@),
            !has_other_item(items@) && !has_other_foreign_item(items@) && !has_bad_receiver(items@)
                && !has_complex_alias(items@) && complex_free(old(self).type_converter.typedefs@) ==> r is Ok,
            r is Ok ==> claims_within(old(self).rust_name_tracker.used@, final(self).rust_name_tracker.used@, ns_view(ns@)),
            r is Ok ==> tree_present(
                old(self).byvalue_checker,
                *db,
                final(self).type_converter.typedefs@,
                name_set(old(self).rust_name_tracker.used@),
                ns_view(ns@),
                items@,
                final(self).apis@,
                old(self).apis@.len() as int,
            ),
            r is Ok ==> forall|k: int| old(self).rust_name_tracker.used@.len() <= k < final(self).rust_name_tracker.used@.len()
                ==> tree_names(items@, ns_view(ns@)).contains(#[trigger] final(self).rust_name_tracker.used@[k]@),
            r is Ok ==> types_allowed(*db, final(self).apis@, old(self).apis@.len() as int),
            r is Ok ==> apis_justified(final(self).apis@, old(self).apis@.len() as int, tree_names(items@, ns_view(ns@))),
            r is Ok ==> !has_other_item(items@) && !has_other_foreign_item(items@) && !has_bad_receiver(items@),
            r is Ok ==> extends(old(self).incomplete_types@, final(self).incomplete_types@),
            r is Ok ==> extends(old(self).type_converter.typedefs@, final(self).type_converter.typedefs@),
            r is Ok ==> tree_recorded(items@, ns_view(ns@), final(self).incomplete_types@, final(self).type_converter.typedefs@),
            r is Ok ==> {
                let b = final(self).use_stmts_by_mod@.last();
                let n = b.uses@.len();
                let lu = level_uses(items@);
                &&& ns_view(b.ns@) == ns_view(ns@)
                &&& n == lu.len() + 3
                &&& forall|k: int| 0 <= k < lu.len() ==> (#[trigger] b.uses@[k] matches UseItem::Verbatim(t) && t@ == lu[k])
                &&& b.uses@[n - 3] == UseItem::BridgeScope(ns@.len() as usize)
                &&& b.uses@[n - 2] matches UseItem::CxxType(t) && t@ == "UniquePtr"@
                &&& b.uses@[n - 1] matches UseItem::CxxType(t) && t@ == "CxxString"@
            },
        decreases items,
    {
        let ghost td0 = self.type_converter.typedefs@;
        let mut fns: Vec<ForeignFn> = Vec::new();
        let mut known: Vec<String> = Vec::new();
        let mut uses: Vec<UseItem> = Vec::new();
        let mut i: usize = 0;
        proof {
            assert(items@.subrange(0, 0) =~= Seq::<RawItem>::empty());
            assert(fns@.map_values(|f: ForeignFn| receiver_view(f.this_type)) =~= Seq::<Option<Seq<char>>>::empty());
            assert(known@.map_values(|x: String| x@) =~= Seq::<Seq<char>>::empty());
        }
        while i < items.len()
            invariant
                self.wf(),
                grows(*old(self), *self),
                td0 == old(self).type_converter.typedefs@,
                self.use_stmts_by_mod@.len() >= old(self).use_stmts_by_mod@.len(),
                i <= items.len(),
                fns@.map_values(|f: ForeignFn| receiver_view(f.this_type)) == level_receivers(items@.subrange(0, i as int)),
                known@.map_values(|x: String| x@) == level_names(items@.subrange(0, i as int)),
                uses@.len() == level_uses(items@.subrange(0, i as int)).len(),
                forall|k: int| 0 <= k < uses@.len() ==> (#[trigger] uses@[k] matches UseItem::Verbatim(t)
                    && t@ == level_uses(items@.subrange(0, i as int))[k]),
                complex_free(td0) && !has_complex_alias(items@.subrange(0, i as int)) ==> complex_free(
                    self.type_converter.typedefs@,
                ),
                self.byvalue_checker == old(self).byvalue_checker,
                claims_within(old(self).rust_name_tracker.used@, self.rust_name_tracker.used@, ns_view(ns@)),
                forall|k: int| old(self).rust_name_tracker.used@.len() <= k < self.rust_name_tracker.used@.len()
                    ==> tree_names(items@.subrange(0, i as int), ns_view(ns@)).contains(#[trigger] self.rust_name_tracker.used@[k]@),
                forall|q: int| 0 <= q < fns@.len() ==> tree_names(items@.subrange(0, i as int), ns_view(ns@)).contains(
                    (ns_view(ns@), (#[trigger] fns@[q]).name@),
                ),
                tree_present(
                    old(self).byvalue_checker,
                    *db,
                    self.type_converter.typedefs@,
                    name_set(old(self).rust_name_tracker.used@),
                    ns_view(ns@),
                    items@.subrange(0, i as int),
                    self.apis@,
                    old(self).apis@.len() as int,
                ),
                types_allowed(*db, self.apis@, old(self).apis@.len() as int),
                apis_justified(self.apis@, old(self).apis@.len() as int, tree_names(items@.subrange(0, i as int), ns_view(ns@))),
                !has_other_item(items@.subrange(0, i as int)),
                extends(old(self).incomplete_types@, self.incomplete_types@),
                extends(old(self).type_converter.typedefs@, self.type_converter.typedefs@),
                tree_recorded(items@.subrange(0, i as int), ns_view(ns@), self.incomplete_types@, self.type_converter.typedefs@),
                !has_other_foreign_item(items@.subrange(0, i as int)),
                !nested_bad_receiver(items@.subrange(0, i as int)),
            decreases items.len() - i,
        {
            let ghost sub = items@.subrange(0, i + 1);
            let ghost pre = items@.subrange(0, i as int);
            let ghost before = *self;
            let ghost nsv = ns_view(ns@);
            let ghost u0 = old(self).rust_name_tracker.used@;
            let ghost a0 = old(self).apis@.len() as int;
            proof {
                assert(sub.subrange(0, sub.len() - 1) =~= pre);
                assert(sub.drop_last() =~= pre);
                assert(sub[sub.len() - 1] == items@[i as int]);
                assert(sub.last() == items@[i as int]);
            }
            match &items[i] {
                RawItem::ForeignMod(fitems) => {
                    let mut k: usize = 0;
                    proof {
                        assert(tree_names(sub, nsv) == tree_names(pre, nsv).union(fn_names(fitems@, nsv)));
                        assert forall|q: int| 0 <= q < fns@.len() implies tree_names(sub, nsv).contains(
                            (nsv, (#[trigger] fns@[q]).name@)) by {
                            assert(tree_names(pre, nsv).contains((nsv, fns@[q].name@)));
                        }
                        assert(fitems@.subrange(0, 0) =~= Seq::<RawForeignItem>::empty());
                        assert(level_receivers(pre) + foreign_receivers(fitems@.subrange(0, 0)) =~= level_receivers(pre));
                    }
                    while k < fitems.len()
                        invariant
                            self.wf(),
                            grows(*old(self), *self),
                            k <= fitems.len(),
                            i < items@.len(),
                            sub == items@.subrange(0, i + 1),
                            pre == items@.subrange(0, i as int),
                            sub.subrange(0, sub.len() - 1) == pre,
                            sub[sub.len() - 1] == RawItem::ForeignMod(*fitems),
                            fns@.map_values(|f: ForeignFn| receiver_view(f.this_type)) == level_receivers(pre)
                                + foreign_receivers(fitems@.subrange(0, k as int)),
                            *self == before,
                            nsv == ns_view(ns@),
                            forall|q: int| 0 <= q < k ==> (#[trigger] fitems@[q]) is Fn,
                            forall|q: int| 0 <= q < fns@.len() ==> tree_names(sub, nsv).contains(
                                (nsv, (#[trigger] fns@[q]).name@),
                            ),
                        decreases fitems.len() - k,
                    {
                        proof {
                            assert(fitems@.subrange(0, k + 1).drop_last() =~= fitems@.subrange(0, k as int));
                            assert(fitems@.subrange(0, k + 1).last() == fitems@[k as int]);
                        }
                        match &fitems[k] {
                            RawForeignItem::Fn(f) => {
                                let ghost before = fns@;
                                fns.push(copy_foreign_fn(f));
                                proof {
                                    assert(tree_names(sub, nsv) == tree_names(pre, nsv).union(fn_names(fitems@, nsv)));
                                    assert(fitems@[k as int] matches RawForeignItem::Fn(ff) && (nsv, f.name@) == (nsv, ff.name@));
                                    assert(fn_names(fitems@, nsv).contains((nsv, f.name@)));
                                    assert forall|q: int| 0 <= q < fns@.len() implies tree_names(sub, nsv).contains(
                                        (nsv, (#[trigger] fns@[q]).name@)) by {
                                        if q < before.len() {
                                            assert(fns@[q] == before[q]);
                                        }
                                    }
                                }
                                assert(fns@.map_values(|f: ForeignFn| receiver_view(f.this_type)) =~= before.map_values(|f: ForeignFn| receiver_view(f.this_type)).push(receiver_view(f.this_type)));
                                assert(fns@.map_values(|f: ForeignFn| receiver_view(f.this_type)) =~= level_receivers(pre)
                                    + foreign_receivers(fitems@.subrange(0, k + 1)));
                            },
                            RawForeignItem::Other => {
                                proof {
                                    assert(fitems@[k as int] is Other);
                                    assert(has_other_foreign_item(sub));
                                    lemma_prefix_has_other_foreign(items@, i + 1);
                                }
                                return Err(ConvertError::UnexpectedForeignItem);
                            },
                        }
                        k = k + 1;
                    }
                    assert(fitems@.subrange(0, fitems@.len() as int) =~= fitems@);
                    assert(!(exists|q: int| 0 <= q < fitems@.len() && #[trigger] fitems@[q] is Other));
                },
                RawItem::Struct(st) => {
                    let ghost kn = known@;
                    known.push(st.name.clone());
                    assert(known@.map_values(|x: String| x@) =~= kn.map_values(|x: String| x@).push(st.name@));
                    let copy = copy_struct(st);
                    let ghost copy_v = copy;
                    let ghost copy_fields = copy.fields@;
                    match self.convert_struct(copy, ns, db) {
                        Ok(()) => {
                            proof {
                                lemma_same_fields_deps(td0, copy_v.fields@, st.fields@);
                                lemma_within_step(u0, before.rust_name_tracker.used@, self.rust_name_tracker.used@, (nsv, st.name@));
                                let tn = (nsv, st.name@);
                                let ex2 = name_set(u0).union(tree_names(pre, nsv));
                                if !db.blocked(db.effective(tn)) && !ex2.contains(tn) {
                                    lemma_fresh(u0, before.rust_name_tracker.used@, tn, tree_names(pre, nsv));
                                    let m = self.apis@.len() - 1;
                                    assert(old(self).struct_kind(tn, st.fields@) == before.struct_kind(tn, copy_v.fields@));
                                    lemma_same_fields_deps(before.type_converter.typedefs@, copy_v.fields@, st.fields@);
                                    let tdn = self.type_converter.typedefs@;
                                    assert(tdn.subrange(0, tdn.len() as int) =~= tdn);
                                    assert(BridgeConversion::struct_api(old(self).byvalue_checker, tdn, nsv, *st, self.apis@[m]));
                                    assert(has_type_api(old(self).byvalue_checker, self.type_converter.typedefs@, nsv, items@[i as int], self.apis@, a0));
                                }
                            }
                        },
                        Err(e) => {
                            proof {
                                if complex_free(self.type_converter.typedefs@) {
                                    lemma_field_deps_ok(self.type_converter.typedefs@, copy_fields);
                                }
                                if has_complex_alias(pre) {
                                    lemma_prefix_complex(items@, i as int);
                                }
                            }
                            return Err(e);
                        },
                    }
                },
                RawItem::Enum(e) => {
                    let ghost kn = known@;
                    known.push(e.clone());
                    assert(known@.map_values(|x: String| x@) =~= kn.map_values(|x: String| x@).push(e@));
                    let tyname = QualName { ns: clone_ns(ns), id: e.clone() };
                    let binding = RawBinding::Enum(e.clone());
                    self.generate_type(tyname, TypeKind::POD, Vec::new(), binding, db);
                    proof {
                        lemma_within_step(u0, before.rust_name_tracker.used@, self.rust_name_tracker.used@, (nsv, e@));
                        let tn = (nsv, e@);
                        let ex2 = name_set(u0).union(tree_names(pre, nsv));
                        if !db.blocked(db.effective(tn)) && !ex2.contains(tn) {
                            lemma_fresh(u0, before.rust_name_tracker.used@, tn, tree_names(pre, nsv));
                            let m = self.apis@.len() - 1;
                            assert(BridgeConversion::enum_api(nsv, *e, self.apis@[m]));
                            assert(has_type_api(old(self).byvalue_checker, self.type_converter.typedefs@, nsv, items@[i as int], self.apis@, a0));
                        }
                    }
                },
                RawItem::Impl(imp) => {
                    let ghost kn = known@;
                    known.push(imp.self_ty.clone());
                    assert(known@.map_values(|x: String| x@) =~= kn.map_values(|x: String| x@).push(imp.self_ty@));
                },
                RawItem::Mod(m) => {
                    if let Some(content) = &m.content {
                        let inner = ns_push(ns, &m.name);
                        proof {
                            assert(decreases_to!(*items => items@[i as int]));
                        }
                        match self.convert_mod_items(content, &inner, db) {
                            Ok(()) => {
                                proof {
                                    assert(ns_view(inner@).subrange(0, nsv.len() as int) =~= nsv);
                                    lemma_within_nested(u0, before.rust_name_tracker.used@, self.rust_name_tracker.used@, nsv, ns_view(inner@));
                                    let ub = before.rust_name_tracker.used@;
                                    let ex2 = name_set(u0).union(tree_names(pre, nsv));
                                    assert(name_set(ub).subset_of(ex2)) by {
                                        assert forall|q: NameView| name_set(ub).contains(q) implies ex2.contains(q) by {
                                            let k = choose|k: int| 0 <= k < ub.len() && #[trigger] ub[k]@ == q;
                                            if k < u0.len() {
                                                assert(ub[k] == u0[k]);
                                                assert(names_contain(u0, q));
                                            }
                                        }
                                    }
                                    lemma_tree_present_weaken(old(self).byvalue_checker, *db, self.type_converter.typedefs@, self.type_converter.typedefs@, name_set(ub), ex2, ns_view(inner@),
                                        content@, self.apis@, self.apis@, before.apis@.len() as int, a0);
                                }
                            },
                            Err(e) => {
                                proof {
                                    if e is UnexpectedItemInMod {
                                        assert(has_other_item(sub));
                                        lemma_prefix_has_other(items@, i + 1);
                                    }
                                    if e is UnexpectedForeignItem {
                                        assert(has_other_foreign_item(sub));
                                        lemma_prefix_has_other_foreign(items@, i + 1);
                                    }
                                    if e is UnexpectedThisType {
                                        assert(nested_bad_receiver(sub));
                                        lemma_prefix_nested_bad(items@, i + 1);
                                    }
                                    if e is ComplexTypedefTarget {
                                        if has_complex_alias(content@) {
                                            assert(has_complex_alias(sub));
                                            lemma_prefix_complex(items@, i + 1);
                                        } else if has_complex_alias(pre) {
                                            lemma_prefix_complex(items@, i as int);
                                        }
                                    }
                                }
                                return Err(e);
                            },
                        }
                    }
                },
                RawItem::Use(u) => {
                    let ghost us = uses@;
                    uses.push(UseItem::Verbatim(u.clone()));
                    proof {
                        assert(level_uses(sub) == level_uses(pre).push(u@));
                        assert forall|k: int| 0 <= k < uses@.len() implies (#[trigger] uses@[k] matches UseItem::Verbatim(t)
                            && t@ == level_uses(sub)[k]) by {
                            if k < us.len() {
                                assert(uses@[k] == us[k]);
                            }
                        }
                    }
                },
                RawItem::Const(c) => {
                    self.add_const(c, ns);
                    proof {
                        let m = self.apis@.len() - 1;
                        assert(BridgeConversion::const_api(nsv, *c, self.apis@[m]));
                        assert(has_type_api(old(self).byvalue_checker, self.type_converter.typedefs@, nsv, items@[i as int], self.apis@, a0));
                    }
                },
                RawItem::TypeAlias(a) => {
                    let ghost td1 = self.type_converter.typedefs@;
                    self.add_alias(a, ns);
                    proof {
                        lemma_within_step(u0, before.rust_name_tracker.used@, self.rust_name_tracker.used@, (nsv, a.name@));
                        let tn = (nsv, a.name@);
                        let ex2 = name_set(u0).union(tree_names(pre, nsv));
                        if !ex2.contains(tn) {
                            lemma_fresh(u0, before.rust_name_tracker.used@, tn, tree_names(pre, nsv));
                            let m = self.apis@.len() - 1;
                            assert(BridgeConversion::alias_api(nsv, *a, self.apis@[m]));
                            assert(has_type_api(old(self).byvalue_checker, self.type_converter.typedefs@, nsv, items@[i as int], self.apis@, a0));
                        }
                    }
                    proof {
                        if complex_free(td0) && !has_complex_alias(sub) {
                            let td2 = self.type_converter.typedefs@;
                            assert forall|k: int| 0 <= k < td2.len() implies !(#[trigger] td2[k].target is Complex) by {
                                if k < td1.len() {
                                    assert(td2.drop_last()[k] == td2[k]);
                                }
                            }
                        }
                    }
                },
                RawItem::Other => {
                    proof {
                        assert(has_other_item(sub));
                        lemma_prefix_has_other(items@, i + 1);
                    }
                    return Err(ConvertError::UnexpectedItemInMod);
                },
            }
            proof {
                let ub = before.rust_name_tracker.used@;
                let un = self.rust_name_tracker.used@;
                assert(tree_names(pre, nsv).subset_of(tree_names(sub, nsv)));
                assert(!has_other_item(sub));
                let ib = before.incomplete_types@;
                let tb = before.type_converter.typedefs@;
                let inow = self.incomplete_types@;
                let tnow = self.type_converter.typedefs@;
                assert(extends(ib, inow));
                assert(extends(tb, tnow));
                assert(extends(old(self).incomplete_types@, inow)) by {
                    assert forall|k: int| 0 <= k < old(self).incomplete_types@.len() implies #[trigger] inow[k] == old(self).incomplete_types@[k] by {
                        assert(inow[k] == ib[k]);
                    }
                }
                assert(extends(old(self).type_converter.typedefs@, tnow)) by {
                    assert forall|k: int| 0 <= k < old(self).type_converter.typedefs@.len() implies #[trigger] tnow[k] == old(self).type_converter.typedefs@[k] by {
                        assert(tnow[k] == tb[k]);
                    }
                }
                lemma_tree_recorded_grows(pre, nsv, ib, tb, inow, tnow);
                assert(!has_other_foreign_item(sub));
                assert(!nested_bad_receiver(sub));
                assert forall|k: int| u0.len() <= k < un.len() implies tree_names(sub, nsv).contains(#[trigger] un[k]@) by {
                    if k < ub.len() {
                        assert(un[k] == ub[k]);
                    }
                }
                assert forall|q: int| 0 <= q < fns@.len() implies tree_names(sub, nsv).contains(
                    (nsv, (#[trigger] fns@[q]).name@)) by {}
                lemma_tree_present_weaken(old(self).byvalue_checker, *db, before.type_converter.typedefs@, self.type_converter.typedefs@, name_set(u0), name_set(u0), nsv, pre,
                    before.apis@, self.apis@, a0, a0);
                assert(tree_present(old(self).byvalue_checker, *db, self.type_converter.typedefs@, name_set(u0), nsv, sub, self.apis@, a0));
                assert forall|m: int| a0 <= m < self.apis@.len() && (#[trigger] self.apis@[m].bindgen_mod_item matches Some(b)
                    && (b is Struct || b is Enum)) implies !db.blocked(db.effective(api_name(self.apis@[m]))) by {
                    if m < before.apis@.len() {
                        assert(self.apis@[m] == before.apis@[m]);
                    }
                }
            }
            i = i + 1;
        }
        proof {
            assert(items@.subrange(0, items@.len() as int) =~= items@);
        }
        let ghost before_fns = *self;
        match self.convert_foreign_fns(&fns, &known, ns, db) {
            Ok(()) => {
                proof {
                    if bad_level(items@) {
                        let lr = level_receivers(items@);
                        let k = choose|k: int| 0 <= k < lr.len() && (#[trigger] lr[k] matches Some(t)
                            && !level_names(items@).contains(t));
                        assert(lr[k] == receiver_view(fns@[k].this_type));
                        let t = lr[k]->Some_0;
                        assert(fns@[k].this_type matches Some(tt) && tt@ == t);
                        let idx = choose|idx: int| 0 <= idx < known@.len() && #[trigger] known@[idx]@ == t;
                        assert(known@.map_values(|x: String| x@)[idx] == t);
                        assert(level_names(items@).contains(t));
                    }
                    let u0 = old(self).rust_name_tracker.used@;
                    let ub = before_fns.rust_name_tracker.used@;
                    let un = self.rust_name_tracker.used@;
                    lemma_tree_present_weaken(old(self).byvalue_checker, *db, before_fns.type_converter.typedefs@, self.type_converter.typedefs@, name_set(u0), name_set(u0), ns_view(ns@), items@,
                        before_fns.apis@, self.apis@, old(self).apis@.len() as int, old(self).apis@.len() as int);
                    assert forall|k: int| u0.len() <= k < un.len() implies tree_names(items@, ns_view(ns@)).contains(#[trigger] un[k]@) by {
                        if k < ub.len() {
                            assert(un[k] == ub[k]);
                        } else {
                            let q = choose|q: int| 0 <= q < fns@.len() && (#[trigger] un[k])@ == (ns_view(ns@), (#[trigger] fns@[q]).name@);
                            assert(tree_names(items@, ns_view(ns@)).contains((ns_view(ns@), fns@[q].name@)));
                        }
                    }
                    assert forall|m: int| old(self).apis@.len() <= m < self.apis@.len() && (#[trigger] self.apis@[m].bindgen_mod_item matches Some(b)
                        && (b is Struct || b is Enum)) implies !db.blocked(db.effective(api_name(self.apis@[m]))) by {
                        if m < before_fns.apis@.len() {
                            assert(self.apis@[m] == before_fns.apis@[m]);
                        }
                    }
                }
            },
            Err(e) => {
                proof {
                    let k = choose|k: int| 0 <= k < fns@.len() && (#[trigger] fns@[k].this_type matches Some(t)
                        && !strings_contain(known@, t@));
                    let lr = level_receivers(items@);
                    assert(lr[k] == receiver_view(fns@[k].this_type));
                    let t = lr[k]->Some_0;
                    if level_names(items@).contains(t) {
                        let q = choose|q: int| 0 <= q < level_names(items@).len() && level_names(items@)[q] == t;
                        assert(known@.map_values(|x: String| x@)[q] == known@[q]@);
                    }
                    assert(bad_level(items@));
                }
                return Err(e);
            },
        }
        let ghost pre_len = uses@.len();
        uses.push(UseItem::BridgeScope(ns.len()));
        uses.push(UseItem::CxxType(String::from_str("UniquePtr")));
        uses.push(UseItem::CxxType(String::from_str("CxxString")));
        proof {
            assert forall|k: int| 0 <= k < level_uses(items@).len() implies (#[trigger] uses@[k] matches UseItem::Verbatim(t)
                && t@ == level_uses(items@)[k]) by {
                assert(k < pre_len);
            }
        }
        self.use_stmts_by_mod.push(NsUses { ns: clone_ns(ns), uses });
        Ok(())
    }
}

/// `b` extends the claimed host names `a` only with names inside namespace `ns`.
pub open spec fn claims_within(a: Seq<QualName>, b: Seq<QualName>, ns: Seq<Seq<char>>) -> bool {
    &&& a.len() <= b.len()
    &&& forall|k: int| 0 <= k < a.len() ==> #[trigger] b[k] == a[k]
    &&& forall|k: int| a.len() <= k < b.len() ==> ns_within(ns, #[trigger] b[k]@.0)
}

/// `b` is `a`, or `a` with the one name `n` claimed.
pub open spec fn claims_at_most(a: Seq<QualName>, b: Seq<QualName>, n: NameView) -> bool {
    b == a || (b.len() == a.len() + 1 && b.drop_last() == a && b.last()@ == n)
}

proof fn lemma_at_most_within(a: Seq<QualName>, b: Seq<QualName>, n: NameView)
    requires
        claims_at_most(a, b, n),
    ensures
        claims_within(a, b, n.0),
{
    if b != a {
        assert(b[a.len() as int] == b.last());
        assert(n.0.subrange(0, n.0.len() as int) =~= n.0);
        assert forall|k: int| 0 <= k < a.len() implies #[trigger] b[k] == a[k] by {
            assert(b.drop_last()[k] == b[k]);
        }
    }
}

proof fn lemma_within_step(u0: Seq<QualName>, a: Seq<QualName>, b: Seq<QualName>, n: NameView)
    requires
        claims_within(u0, a, n.0),
        claims_at_most(a, b, n),
    ensures
        claims_within(u0, b, n.0),
{
    lemma_at_most_within(a, b, n);
    assert forall|k: int| u0.len() <= k < b.len() implies ns_within(n.0, #[trigger] b[k]@.0) by {
        if k < a.len() {
            assert(b[k] == a[k]);
        }
    }
}

proof fn lemma_within_nested(u0: Seq<QualName>, a: Seq<QualName>, b: Seq<QualName>, ns: Seq<Seq<char>>, inner: Seq<Seq<char>>)
    requires
        claims_within(u0, a, ns),
        claims_within(a, b, inner),
        inner.len() == ns.len() + 1,
        inner.subrange(0, ns.len() as int) == ns,
    ensures
        claims_within(u0, b, ns),
        forall|k: int| a.len() <= k < b.len() ==> (#[trigger] b[k])@.0 != ns,
{
    assert forall|k: int| u0.len() <= k < b.len() implies ns_within(ns, #[trigger] b[k]@.0) by {
        if k < a.len() {
            assert(b[k] == a[k]);
        } else {
            let e = b[k]@.0;
            assert(e.subrange(0, inner.len() as int) == inner);
            assert(e.subrange(0, ns.len() as int) =~= inner.subrange(0, ns.len() as int));
        }
    }
    assert forall|k: int| a.len() <= k < b.len() implies (#[trigger] b[k])@.0 != ns by {
        assert(ns_within(inner, b[k]@.0));
    }
}

/// The view of a field's type.
pub open spec fn field_type_view(t: FieldType) -> (int, NameView, Seq<char>) {
    match t {
        FieldType::Named(q) => (0, q@, Seq::empty()),
        FieldType::OpaqueMarker => (1, (Seq::empty(), Seq::empty()), Seq::empty()),
        FieldType::Phantom(p) => (2, (Seq::empty(), Seq::empty()), p@),
    }
}

/// Two field lists with the same names and types, in the same order.
pub open spec fn same_fields(a: Seq<RawField>, b: Seq<RawField>) -> bool {
    &&& a.len() == b.len()
    &&& forall|k: int| 0 <= k < a.len() ==> #[trigger] a[k].name@ == b[k].name@ && field_type_view(a[k].ty)
        == field_type_view(b[k].ty)
}

/// A copy of a struct declaration.
fn copy_struct(s: &RawStruct) -> (r: RawStruct)
    ensures
        r.name == s.name,
        r.generics@ == s.generics@,
        r.has_destructor == s.has_destructor,
        r.packed == s.packed,
        same_fields(r.fields@, s.fields@),
{
    let mut generics: Vec<GenericParam> = Vec::new();
    let mut k: usize = 0;
    while k < s.generics.len()
        invariant
            k <= s.generics@.len(),
            generics@ == s.generics@.subrange(0, k as int),
        decreases s.generics.len() - k,
    {
        let g = match &s.generics[k] {
            GenericParam::Type(t) => GenericParam::Type(t.clone()),
            GenericParam::Lifetime(t) => GenericParam::Lifetime(t.clone()),
            GenericParam::Const(t) => GenericParam::Const(t.clone()),
        };
        generics.push(g);
        assert(generics@ =~= s.generics@.subrange(0, k + 1));
        k = k + 1;
    }
    assert(s.generics@.subrange(0, s.generics@.len() as int) =~= s.generics@);
    let mut fields: Vec<RawField> = Vec::new();
    let mut k: usize = 0;
    while k < s.fields.len()
        invariant
            k <= s.fields@.len(),
            same_fields(fields@, s.fields@.subrange(0, k as int)),
        decreases s.fields.len() - k,
    {
        let f = &s.fields[k];
        let ty = match &f.ty {
            FieldType::Named(q) => FieldType::Named(q.clone()),
            FieldType::OpaqueMarker => FieldType::OpaqueMarker,
            FieldType::Phantom(p) => FieldType::Phantom(p.clone()),
        };
        let ghost prev = fields@;
        fields.push(RawField { name: f.name.clone(), ty });
        proof {
            let sub = s.fields@.subrange(0, k + 1);
            assert forall|m: int| 0 <= m < fields@.len() implies #[trigger] fields@[m].name@ == sub[m].name@
                && field_type_view(fields@[m].ty) == field_type_view(sub[m].ty) by {
                if m < k {
                    assert(fields@[m] == prev[m]);
                    assert(sub[m] == s.fields@.subrange(0, k as int)[m]);
                    assert(prev[m].name@ == s.fields@.subrange(0, k as int)[m].name@);
                } else {
                    assert(sub[m] == s.fields@[k as int]);
                }
            }
        }
        k = k + 1;
    }
    assert(s.fields@.subrange(0, s.fields@.len() as int) =~= s.fields@);
    RawStruct {
        name: s.name.clone(),
        generics,
        fields,
        has_destructor: s.has_destructor,
        packed: s.packed,
    }
}

proof fn lemma_same_fields_deps(tds: Seq<Typedef>, a: Seq<RawField>, b: Seq<RawField>)
    requires
        same_fields(a, b),
    ensures
        field_deps(tds, a) == field_deps(tds, b),
        has_sentinel(a) == has_sentinel(b),
    decreases a.len(),
{
    if a.len() > 0 {
        assert forall|k: int| 0 <= k < a.drop_last().len() implies #[trigger] a.drop_last()[k].name@ == b.drop_last()[k].name@
            && field_type_view(a.drop_last()[k].ty) == field_type_view(b.drop_last()[k].ty) by {
            assert(a.drop_last()[k] == a[k] && b.drop_last()[k] == b[k]);
            assert(a[k].name@ == b[k].name@);
        }
        lemma_same_fields_deps(tds, a.drop_last(), b.drop_last());
        assert(a[a.len() - 1].name@ == b[a.len() - 1].name@);
        assert(field_type_view(a.last().ty) == field_type_view(b.last().ty));
    }
    if has_sentinel(a) {
        let i = choose|i: int| 0 <= i < a.len() && #[trigger] a[i].name@ == "_unused"@;
        assert(b[i].name@ == "_unused"@);
    }
    if has_sentinel(b) {
        let i = choose|i: int| 0 <= i < b.len() && #[trigger] b[i].name@ == "_unused"@;
        assert(a[i].name@ == "_unused"@);
    }
}

impl BridgeConversion {
    /// `a` is the API of struct `s` of namespace `ns`, classified by `ck`; a
/// POD struct's dependencies are its field types resolved through the
/// aliases registered when it was met (a prefix of `tds`).
    pub open spec fn struct_api(ck: ByValueChecker, tds: Seq<Typedef>, ns: Seq<Seq<char>>, s: RawStruct, a: Api) -> bool {
        let tn = (ns, s.name@);
        let kind = struct_kind_of(ck, tn, s.fields@);
        &&& api_name(a) == tn
        &&& (a.bridge_item is None) == (kind == TypeKind::ForwardDeclaration)
        &&& a.global_items@.len() == 1
        &&& (a.global_items@[0] matches GlobalItem::TypeIdentity { kind: k, .. } && k == kind)
        &&& (kind == TypeKind::POD ==> (a.bindgen_mod_item matches Some(RawBinding::Struct(t))
            && t.name == s.name && same_fields(t.fields@, s.fields@)))
        &&& (kind == TypeKind::POD ==> exists|n: int| 0 <= n <= tds.len() && field_deps(tds.subrange(0, n), s.fields@)
            == Ok::<Seq<NameView>, Seq<char>>(views(a.deps@)))
        &&& (kind != TypeKind::POD ==> a.deps@.len() == 0 && (a.bindgen_mod_item matches Some(RawBinding::Struct(t))
            && is_opaque_layout(t.fields@, s.generics@) && t.name == s.name && t.packed))
    }

    /// `a` is the API of constant `c` of namespace `ns`: a global item only.
    pub open spec fn const_api(ns: Seq<Seq<char>>, c: RawConst, a: Api) -> bool {
        &&& api_name(a) == (ns, c.name@)
        &&& a.global_items@ == seq![GlobalItem::Const(c)]
        &&& a.id_for_allowlist is None
        &&& a.use_stmt is Unused
        &&& a.deps@.len() == 0
        &&& a.bridge_item is None
        &&& a.extern_item is None
        &&& a.bindgen_mod_item is None
    }

    /// `a` is the API of alias `al` of namespace `ns`: a raw binding only.
    pub open spec fn alias_api(ns: Seq<Seq<char>>, al: RawAlias, a: Api) -> bool {
        &&& api_name(a) == (ns, al.name@)
        &&& a.id_for_allowlist is None
        &&& (a.bindgen_mod_item matches Some(RawBinding::TypeAlias(t)) && t.name == al.name
            && (t.target is Complex) == (al.target is Complex))
        &&& a.use_stmt is Unused
        &&& a.deps@.len() == 0
        &&& a.bridge_item is None
        &&& a.extern_item is None
    }

    /// `a` is the API of enum `e` of namespace `ns`: always safe by value.
    pub open spec fn enum_api(ns: Seq<Seq<char>>, e: String, a: Api) -> bool {
        &&& api_name(a) == (ns, e@)
        &&& a.deps@.len() == 0
        &&& a.bridge_item is Some
        &&& a.bindgen_mod_item == Some(RawBinding::Enum(e))
        &&& a.global_items@.len() == 1
        &&& (a.global_items@[0] matches GlobalItem::TypeIdentity { kind: k, .. } && k == TypeKind::POD)
    }
}

/// Some API of `apis` from position `from` on is the API of item `item`
/// of namespace `ns`, where that item is a struct or an enum.
pub open spec fn has_type_api(ck: ByValueChecker, tds: Seq<Typedef>, ns: Seq<Seq<char>>, item: RawItem, apis: Seq<Api>, from: int) -> bool {
    match item {
        RawItem::Struct(s) => exists|m: int| from <= m < apis.len() && BridgeConversion::struct_api(ck, tds, ns, s, #[trigger] apis[m]),
        RawItem::Enum(e) => exists|m: int| from <= m < apis.len() && BridgeConversion::enum_api(ns, e, #[trigger] apis[m]),
        RawItem::Const(c) => exists|m: int| from <= m < apis.len() && BridgeConversion::const_api(ns, c, #[trigger] apis[m]),
        RawItem::TypeAlias(al) => exists|m: int| from <= m < apis.len() && BridgeConversion::alias_api(ns, al, #[trigger] apis[m]),
        _ => true,
    }
}

proof fn lemma_has_type_api_grows(ck: ByValueChecker, tds: Seq<Typedef>, tds2: Seq<Typedef>, ns: Seq<Seq<char>>, item: RawItem, a: Seq<Api>, b: Seq<Api>, from: int, from2: int)
    requires
        has_type_api(ck, tds, ns, item, a, from),
        extends(tds, tds2),
        0 <= from2 <= from,
        a.len() <= b.len(),
        forall|i: int| 0 <= i < a.len() ==> #[trigger] b[i] == a[i],
    ensures
        has_type_api(ck, tds2, ns, item, b, from2),
{
    match item {
        RawItem::Struct(s) => {
            let m = choose|m: int| from <= m < a.len() && BridgeConversion::struct_api(ck, tds, ns, s, #[trigger] a[m]);
            assert(b[m] == a[m]);
            let tn = (ns, s.name@);
            if struct_kind_of(ck, tn, s.fields@) == TypeKind::POD {
                let n = choose|n: int| 0 <= n <= tds.len() && field_deps(tds.subrange(0, n), s.fields@)
                    == Ok::<Seq<NameView>, Seq<char>>(views(a[m].deps@));
                assert(tds2.subrange(0, n) =~= tds.subrange(0, n));
            }
            assert(BridgeConversion::struct_api(ck, tds2, ns, s, b[m]));
        },
        RawItem::Enum(e) => {
            let m = choose|m: int| from <= m < a.len() && BridgeConversion::enum_api(ns, e, #[trigger] a[m]);
            assert(b[m] == a[m]);
        },
        RawItem::Const(c) => {
            let m = choose|m: int| from <= m < a.len() && BridgeConversion::const_api(ns, c, #[trigger] a[m]);
            assert(b[m] == a[m]);
        },
        RawItem::TypeAlias(al) => {
            let m = choose|m: int| from <= m < a.len() && BridgeConversion::alias_api(ns, al, #[trigger] a[m]);
            assert(b[m] == a[m]);
        },
        _ => {},
    }
}

/// The qualified names of the functions of a foreign-declaration block.
pub open spec fn fn_names(f: Seq<RawForeignItem>, ns: Seq<Seq<char>>) -> Set<NameView> {
    Set::new(|q: NameView| exists|k: int| 0 <= k < f.len() && (#[trigger] f[k] matches RawForeignItem::Fn(ff) && q == (ns, ff.name@)))
}

/// The qualified names declared in `items` (namespace `ns`) and in the
/// namespaces nested in it: structs, enums, aliases, constants and foreign
/// functions.
pub open spec fn tree_names(items: Seq<RawItem>, ns: Seq<Seq<char>>) -> Set<NameView>
    decreases items,
{
    if items.len() == 0 {
        Set::empty()
    } else {
        let p = tree_names(items.subrange(0, items.len() - 1), ns);
        match items[items.len() - 1] {
            RawItem::Struct(st) => p.insert((ns, st.name@)),
            RawItem::Enum(e) => p.insert((ns, e@)),
            RawItem::TypeAlias(a) => p.insert((ns, a.name@)),
            RawItem::Const(c) => p.insert((ns, c.name@)),
            RawItem::ForeignMod(f) => p.union(fn_names(f@, ns)),
            RawItem::Mod(m) => match m.content {
                Some(c) => p.union(tree_names(c@, ns.push(m.name@))),
                None => p,
            },
            _ => p,
        }
    }
}

/// The APIs from position `from` of `apis` include, for every item of the
/// tree `items` (namespace `ns`, nested namespaces included), the API that
/// the item is owed: a constant always; a struct or enum whose effective
/// name is not denied, and an alias, unless its qualified name is in `ex`
/// or declared earlier in the tree.
pub open spec fn tree_present(ck: ByValueChecker, db: TypeDatabase, tds: Seq<Typedef>, ex: Set<NameView>, ns: Seq<Seq<char>>, items: Seq<RawItem>, apis: Seq<Api>, from: int) -> bool
    decreases items,
{
    if items.len() == 0 {
        true
    } else {
        let init = items.subrange(0, items.len() - 1);
        let ex2 = ex.union(tree_names(init, ns));
        let item = items[items.len() - 1];
        &&& tree_present(ck, db, tds, ex, ns, init, apis, from)
        &&& match item {
            RawItem::Mod(m) => match m.content {
                Some(c) => tree_present(ck, db, tds, ex2, ns.push(m.name@), c@, apis, from),
                None => true,
            },
            RawItem::Const(_) => has_type_api(ck, tds, ns, item, apis, from),
            RawItem::TypeAlias(al) => !ex2.contains((ns, al.name@)) ==> has_type_api(ck, tds, ns, item, apis, from),
            RawItem::Struct(st) => !db.blocked(db.effective((ns, st.name@))) && !ex2.contains((ns, st.name@))
                ==> has_type_api(ck, tds, ns, item, apis, from),
            RawItem::Enum(e) => !db.blocked(db.effective((ns, e@))) && !ex2.contains((ns, e@))
                ==> has_type_api(ck, tds, ns, item, apis, from),
            _ => true,
        }
    }
}

proof fn lemma_tree_present_weaken(ck: ByValueChecker, db: TypeDatabase, tds: Seq<Typedef>, tds2: Seq<Typedef>, ex1: Set<NameView>, ex2: Set<NameView>, ns: Seq<Seq<char>>, items: Seq<RawItem>, a: Seq<Api>, b: Seq<Api>, from1: int, from2: int)
    requires
        tree_present(ck, db, tds, ex1, ns, items, a, from1),
        extends(tds, tds2),
        ex1.subset_of(ex2),
        0 <= from2 <= from1,
        a.len() <= b.len(),
        forall|i: int| 0 <= i < a.len() ==> #[trigger] b[i] == a[i],
    ensures
        tree_present(ck, db, tds2, ex2, ns, items, b, from2),
    decreases items,
{
    if items.len() > 0 {
        let init = items.subrange(0, items.len() - 1);
        lemma_tree_present_weaken(ck, db, tds, tds2, ex1, ex2, ns, init, a, b, from1, from2);
        let e1 = ex1.union(tree_names(init, ns));
        let e2 = ex2.union(tree_names(init, ns));
        assert(e1.subset_of(e2));
        let item = items[items.len() - 1];
        match item {
            RawItem::Mod(m) => {
                if let Some(c) = m.content {
                    lemma_tree_present_weaken(ck, db, tds, tds2, e1, e2, ns.push(m.name@), c@, a, b, from1, from2);
                }
            },
            RawItem::Const(_) => {
                lemma_has_type_api_grows(ck, tds, tds2, ns, item, a, b, from1, from2);
            },
            RawItem::TypeAlias(al) => {
                if !e2.contains((ns, al.name@)) {
                    lemma_has_type_api_grows(ck, tds, tds2, ns, item, a, b, from1, from2);
                }
            },
            RawItem::Struct(st) => {
                if !db.blocked(db.effective((ns, st.name@))) && !e2.contains((ns, st.name@)) {
                    lemma_has_type_api_grows(ck, tds, tds2, ns, item, a, b, from1, from2);
                }
            },
            RawItem::Enum(e) => {
                if !db.blocked(db.effective((ns, e@))) && !e2.contains((ns, e@)) {
                    lemma_has_type_api_grows(ck, tds, tds2, ns, item, a, b, from1, from2);
                }
            },
            _ => {},
        }
    }
}

/// No API from position `from` on gives a struct or enum whose effective
/// name is denied.
pub open spec fn types_allowed(db: TypeDatabase, apis: Seq<Api>, from: int) -> bool {
    forall|m: int| from <= m < apis.len() && (#[trigger] apis[m].bindgen_mod_item matches Some(b)
        && (b is Struct || b is Enum)) ==> !db.blocked(db.effective(api_name(apis[m])))
}

proof fn lemma_fresh(u0: Seq<QualName>, ub: Seq<QualName>, tn: NameView, names: Set<NameView>)
    requires
        u0.len() <= ub.len(),
        forall|k: int| 0 <= k < u0.len() ==> #[trigger] ub[k] == u0[k],
        forall|k: int| u0.len() <= k < ub.len() ==> names.contains(#[trigger] ub[k]@),
        !name_set(u0).contains(tn),
        !names.contains(tn),
    ensures
        !names_contain(ub, tn),
{
    if names_contain(ub, tn) {
        let k = choose|k: int| 0 <= k < ub.len() && #[trigger] ub[k]@ == tn;
        if k < u0.len() {
            assert(ub[k] == u0[k]);
            assert(names_contain(u0, tn));
        }
    }
}

/// Every API of `apis` from position `from` on is looked up in the
/// accept-list under the name of a function of `fns` in namespace `ns`.
pub open spec fn apis_from_fns(apis: Seq<Api>, from: int, ns: Seq<Seq<char>>, fns: Seq<ForeignFn>) -> bool {
    forall|m: int| from <= m < apis.len() ==> exists|k: int| 0 <= k < fns.len()
        && allowlist_name(#[trigger] apis[m]) == (ns, (#[trigger] fns[k]).name@)
}

/// Every name claimed in `b` beyond `a` is a function of `fns` in namespace `ns`.
pub open spec fn claims_from_fns(a: Seq<QualName>, b: Seq<QualName>, ns: Seq<Seq<char>>, fns: Seq<ForeignFn>) -> bool {
    forall|q: int| a.len() <= q < b.len() ==> exists|k: int| 0 <= k < fns.len() && (#[trigger] b[q])@ == (ns, (#[trigger] fns[k]).name@)
}

/// Every forward-declared struct of the tree is recorded in `inc`, and
/// every alias of the tree is registered in `tds`.
pub open spec fn tree_recorded(items: Seq<RawItem>, ns: Seq<Seq<char>>, inc: Seq<QualName>, tds: Seq<Typedef>) -> bool
    decreases items,
{
    if items.len() == 0 {
        true
    } else {
        &&& tree_recorded(items.subrange(0, items.len() - 1), ns, inc, tds)
        &&& match items[items.len() - 1] {
            RawItem::Struct(st) => has_sentinel(st.fields@) ==> names_contain(inc, (ns, st.name@)),
            RawItem::TypeAlias(a) => exists|k: int| 0 <= k < tds.len() && #[trigger] tds[k].name@ == (ns, a.name@),
            RawItem::Mod(m) => match m.content {
                Some(c) => tree_recorded(c@, ns.push(m.name@), inc, tds),
                None => true,
            },
            _ => true,
        }
    }
}

/// `b` keeps `a` as its prefix.
pub open spec fn extends<T>(a: Seq<T>, b: Seq<T>) -> bool {
    a.len() <= b.len() && forall|k: int| 0 <= k < a.len() ==> #[trigger] b[k] == a[k]
}

proof fn lemma_tree_recorded_grows(items: Seq<RawItem>, ns: Seq<Seq<char>>, inc: Seq<QualName>, tds: Seq<Typedef>, inc2: Seq<QualName>, tds2: Seq<Typedef>)
    requires
        tree_recorded(items, ns, inc, tds),
        extends(inc, inc2),
        extends(tds, tds2),
    ensures
        tree_recorded(items, ns, inc2, tds2),
    decreases items,
{
    if items.len() > 0 {
        lemma_tree_recorded_grows(items.subrange(0, items.len() - 1), ns, inc, tds, inc2, tds2);
        match items[items.len() - 1] {
            RawItem::Struct(st) => {
                if has_sentinel(st.fields@) {
                    let k = choose|k: int| 0 <= k < inc.len() && #[trigger] inc[k]@ == (ns, st.name@);
                    assert(inc2[k] == inc[k]);
                }
            },
            RawItem::TypeAlias(a) => {
                let k = choose|k: int| 0 <= k < tds.len() && #[trigger] tds[k].name@ == (ns, a.name@);
                assert(tds2[k] == tds[k]);
            },
            RawItem::Mod(m) => {
                if let Some(c) = m.content {
                    lemma_tree_recorded_grows(c@, ns.push(m.name@), inc, tds, inc2, tds2);
                }
            },
            _ => {},
        }
    }
}

/// Every API from position `from` on is looked up in the accept-list under
/// a name of `names`.
pub open spec fn apis_justified(apis: Seq<Api>, from: int, names: Set<NameView>) -> bool {
    forall|m: int| from <= m < apis.len() ==> names.contains(allowlist_name(#[trigger] apis[m]))
}

/// The qualified names claimed in `used`.
pub open spec fn name_set(used: Seq<QualName>) -> Set<NameView> {
    Set::new(|q: NameView| names_contain(used, q))
}

/// The imports declared directly in `items`, in order.
pub open spec fn level_uses(items: Seq<RawItem>) -> Seq<Seq<char>>
    decreases items.len(),
{
    if items.len() == 0 {
        Seq::empty()
    } else {
        let p = level_uses(items.drop_last());
        match items.last() {
            RawItem::Use(u) => p.push(u@),
            _ => p,
        }
    }
}

/// The tree holds only shapes that the conversion supports: no unsupported
/// item or foreign declaration, no method with an unresolved receiver, and
/// no alias with an inexpressible target.
pub open spec fn tree_supported(items: Seq<RawItem>) -> bool {
    &&& !has_other_item(items)
    &&& !has_other_foreign_item(items)
    &&& !has_bad_receiver(items)
    &&& !has_complex_alias(items)
}

/// `kept` is what the accept-list reaches of some API graph whose APIs
/// carry pairwise distinct bridge-visible identifiers, and pairwise
/// distinct raw-binding identifiers within each namespace. This says
/// nothing of where the graph came from: `retained_from` ties it to a tree.
pub open spec fn pruned_graph(db: TypeDatabase, kept: Seq<Api>) -> bool {
    exists|all: Seq<Api>, idx: Seq<int>|
        is_retained_set(db, all, kept, idx) && bridge_ids_unique(all) && binding_ids_unique(all)
}

/// `kept` is what the accept-list reaches of the API graph built from the
/// namespace items `items` by a conversion starting from `c`: that graph
/// carries pairwise distinct bridge-visible identifiers and per-namespace
/// raw-binding identifiers, and holds the API of each struct and enum of
/// the outermost namespace (the first declaration of its name, unless
/// denied), classified by `c`.
pub open spec fn retained_from(c: BridgeConversion, db: TypeDatabase, items: Seq<RawItem>, kept: Seq<Api>) -> bool {
    exists|all: Seq<Api>, idx: Seq<int>| {
        &&& is_retained_set(db, all, kept, idx)
        &&& bridge_ids_unique(all)
        &&& binding_ids_unique(all)
        &&& exists|tds: Seq<Typedef>| tree_present(c.byvalue_checker, db, tds, Set::empty(), Seq::empty(), items, all, 0)
        &&& types_allowed(db, all, 0)
        &&& forall|m: int| 0 <= m < all.len() ==> tree_names(items, Seq::empty()).contains(allowlist_name(#[trigger] all[m]))
            || allowlist_name(all[m]) == (Seq::<Seq<char>>::empty(), "make_string"@)
    }
}

/// The outermost scope of the raw declaration tree.
pub struct RawModule {
    pub content: Option<Vec<RawItem>>,
}

/// Whether an item is the wrapper scope `root` that holds the namespaces.
pub open spec fn is_root_mod(item: RawItem) -> bool {
    item matches RawItem::Mod(m) && m.name@ == "root"@
}

/// Whether an item is a `root` wrapper without content, which is passed over.
pub open spec fn is_empty_root(item: RawItem) -> bool {
    item matches RawItem::Mod(m) && m.name@ == "root"@ && m.content is None
}

/// `item` is a `root` wrapper whose content is `v`.
pub open spec fn root_with_content(item: RawItem, v: Seq<RawItem>) -> bool {
    match item {
        RawItem::Mod(m) => m.name@ == "root"@ && match m.content {
            Some(c) => c@ == v,
            None => false,
        },
        _ => false,
    }
}

/// `item` is a `root` wrapper that has content.
pub open spec fn is_full_root(item: RawItem) -> bool {
    item matches RawItem::Mod(m) && m.name@ == "root"@ && m.content is Some
}

/// `v` is what the conversion works on inside the outermost level `items`:
/// the content of the first `root` wrapper that has one.
pub open spec fn root_content(items: Seq<RawItem>, v: Seq<RawItem>) -> bool {
    exists|k: int| 0 <= k < items.len() && root_with_content(#[trigger] items[k], v)
        && forall|j: int| 0 <= j < k ==> is_empty_root(#[trigger] items[j])
}

/// The outermost level does not lead to a `root` wrapper with content:
/// such a wrapper is missing, or something else comes first.
pub open spec fn outer_shape_refused(items: Seq<RawItem>) -> bool {
    !exists|k: int| 0 <= k < items.len() && is_full_root(#[trigger] items[k])
        && forall|j: int| 0 <= j < k ==> is_empty_root(#[trigger] items[j])
}

proof fn lemma_refused_at(items: Seq<RawItem>, i: int)
    requires
        0 <= i < items.len(),
        !is_root_mod(items[i]),
        forall|j: int| 0 <= j < i ==> is_empty_root(#[trigger] items[j]),
    ensures
        outer_shape_refused(items),
{
    if exists|k: int| 0 <= k < items.len() && is_full_root(#[trigger] items[k])
        && forall|j: int| 0 <= j < k ==> is_empty_root(#[trigger] items[j]) {
        let k = choose|k: int| 0 <= k < items.len() && is_full_root(#[trigger] items[k])
            && forall|j: int| 0 <= j < k ==> is_empty_root(#[trigger] items[j]);
        if k < i {
            assert(is_empty_root(items[k]));
        } else if k > i {
            assert(is_empty_root(items[i]));
        }
    }
}

/// Unwraps the `root` scope: its content is what the conversion works on.
/// A missing wrapper, or anything else at the outermost level, is refused.
#[verifier::loop_isolation(false)]
pub fn find_items_in_root(items: Vec<RawItem>) -> (r: Result<Vec<RawItem>, ConvertError>)
    ensures
        r is Err <==> outer_shape_refused(items@),
        r is Err ==> r == Err::<Vec<RawItem>, ConvertError>(ConvertError::UnexpectedOuterItem),
        r matches Ok(v) ==> root_content(items@, v@),
{
    let ghost orig = items@;
    let n = items.len();
    let mut rest = items;
    let root = String::from_str("root");
    let mut i: usize = 0;
    while i < n
        invariant
            n == orig.len(),
            i <= n,
            rest@ == orig.subrange(i as int, n as int),
            root@ == "root"@,
            forall|j: int| 0 <= j < i ==> is_empty_root(#[trigger] orig[j]),
        decreases n - i,
    {
        assert(rest@[0] == orig[i as int]);
        let item = rest.remove(0);
        assert(rest@ =~= orig.subrange(i + 1, n as int));
        assert(item == orig[i as int]);
        match item {
            RawItem::Mod(m) => {
                if m.name != root {
                    proof { lemma_refused_at(orig, i as int); }
                    return Err(ConvertError::UnexpectedOuterItem);
                }
                let ghost mc = m.content;
                if let Some(content) = m.content {
                    assert(root_with_content(orig[i as int], content@));
                    assert(is_full_root(orig[i as int]));
                    return Ok(content);
                }
                assert(mc is None);
            },
            _ => {
                proof { lemma_refused_at(orig, i as int); }
                return Err(ConvertError::UnexpectedOuterItem);
            },
        }
        i = i + 1;
    }
    assert(outer_shape_refused(orig)) by {
        if exists|k: int| 0 <= k < orig.len() && is_full_root(#[trigger] orig[k])
            && forall|j: int| 0 <= j < k ==> is_empty_root(#[trigger] orig[j]) {
            let k = choose|k: int| 0 <= k < orig.len() && is_full_root(#[trigger] orig[k])
                && forall|j: int| 0 <= j < k ==> is_empty_root(#[trigger] orig[j]);
            assert(is_empty_root(orig[k]));
        }
    }
    Err(ConvertError::UnexpectedOuterItem)
}

impl BridgeConversion {
    /// Adds the API of the utility that builds a native string, which needs
    /// generated native glue.
    fn generate_utilities(&mut self)
        requires
            old(self).wf(),
        ensures
            final(self).wf(),
            grows(*old(self), *final(self)),
            final(self).type_converter.typedefs@ == old(self).type_converter.typedefs@,
            final(self).rust_name_tracker == old(self).rust_name_tracker,
            final(self).byvalue_checker == old(self).byvalue_checker,
            forall|m: int| old(self).apis@.len() <= m < final(self).apis@.len() ==> (#[trigger] final(self).apis@[m]).bindgen_mod_item is None
                && allowlist_name(final(self).apis@[m]) == (Seq::<Seq<char>>::empty(), "make_string"@),
    {
        let name = String::from_str("make_string");
        let root: Vec<String> = Vec::new();
        let bridge_id = self.fresh_bridge_name(&name, &root);
        let use_stmt = if bridge_id == name {
            Use::Used
        } else {
            Use::UsedWithAlias(name.clone())
        };
        let api = Api {
            ns: Vec::new(),
            id: bridge_id.clone(),
            use_stmt,
            deps: Vec::new(),
            extern_item: Some(ExternItem::Function { bridge_id, cpp_name: name.clone(), params: Vec::new() }),
            bridge_item: None,
            global_items: Vec::new(),
            additional_cpp: Some(AdditionalNeed::MakeStringConstructor),
            id_for_allowlist: Some(name),
            bindgen_mod_item: None,
        };
        self.add_api(api);
    }

    /// Builds the API graph of the tree, then keeps what the accept-list
    /// reaches. The retained APIs carry pairwise distinct bridge-visible
    /// identifiers, and pairwise distinct raw-binding identifiers within
    /// each namespace.
    pub fn retained_apis(self, items: &Vec<RawItem>, exclude_utilities: bool, db: &TypeDatabase) -> (r: Result<(Vec<Api>, Vec<NsUses>), ConvertError>)
        requires
            self.wf(),
            self.type_converter.typedefs@.len() == 0,
            self.rust_name_tracker.used@.len() == 0,
            self.apis@.len() == 0,
        ensures
            r matches Ok(x) ==> pruned_graph(*db, x.0@),
            r matches Ok(x) ==> retained_from(self, *db, items@, x.0@),
            r matches Err(e) ==> structural_error(e),
            r matches Err(ConvertError::UnexpectedItemInMod) ==> has_other_item(items@),
            r matches Err(ConvertError::UnexpectedForeignItem) ==> has_other_foreign_item(items@),
            r matches Err(ConvertError::UnexpectedThisType) ==> has_bad_receiver(items@),
            r matches Err(ConvertError::ComplexTypedefTarget(_)) ==> has_complex_alias(items@),
            tree_supported(items@) ==> r is Ok,
    {
        let mut conv = self;
        if !exclude_utilities {
            conv.generate_utilities();
        }
        let root: Vec<String> = Vec::new();
        let ghost walk_from = conv.apis@.len();
        let ghost util_apis = conv.apis@;
        assert(ns_view(root@) =~= Seq::<Seq<char>>::empty());
        match conv.convert_mod_items(items, &root, db) {
            Ok(()) => {},
            Err(e) => return Err(e),
        }
        let ghost all = conv.apis@;
        assert(bridge_ids_unique(all) && binding_ids_unique(all));
        let ghost walk_tds = conv.type_converter.typedefs@;
        let BridgeConversion { apis, use_stmts_by_mod, .. } = conv;
        assert(apis@ == all);
        let kept = filter_apis_by_following_edges_from_allowlist(apis, db);
        assert(pruned_graph(*db, kept@));
        proof {
            let idx = choose|idx: Seq<int>| is_retained_set(*db, all, kept@, idx);
            assert(ns_view(root@) =~= Seq::<Seq<char>>::empty());
            assert(self.rust_name_tracker.used@ =~= Seq::<QualName>::empty());
            assert(name_set(self.rust_name_tracker.used@) =~= Set::<NameView>::empty());
            lemma_tree_present_weaken(self.byvalue_checker, *db, walk_tds, walk_tds, Set::empty(), Set::empty(), Seq::empty(), items@,
                all, all, walk_from as int, 0);
            assert forall|m: int| 0 <= m < all.len() implies tree_names(items@, Seq::empty()).contains(allowlist_name(#[trigger] all[m]))
                || allowlist_name(all[m]) == (Seq::<Seq<char>>::empty(), "make_string"@) by {
                if m < walk_from {
                    assert(all[m] == util_apis[m]);
                }
            }
            assert forall|m: int| 0 <= m < all.len() && (#[trigger] all[m].bindgen_mod_item matches Some(b)
                && (b is Struct || b is Enum)) implies !db.blocked(db.effective(api_name(all[m]))) by {
                if m < walk_from {
                    assert(all[m] == util_apis[m]);
                }
            }
            assert(retained_from(self, *db, items@, kept@));
        }
        Ok((kept, use_stmts_by_mod))
    }
}

/// Converts a raw declaration tree into the artifacts of the safety bridge.
pub struct BridgeConverter<'a> {
    pub include_list: &'a [String],
    pub type_database: &'a TypeDatabase,
}

impl<'a> BridgeConverter<'a> {
    pub fn new(include_list: &'a [String], type_database: &'a TypeDatabase) -> (r: Self)
        ensures
            r.include_list@ == include_list@,
            r.type_database == type_database,
    {
        BridgeConverter { include_list, type_database }
    }

    /// Converts the tree: unwraps its root scope, classifies its types,
    /// builds and prunes the API graph, and assembles the artifacts. Fails
    /// as a whole on the first anomaly.
    pub fn convert(&mut self, bindings: RawModule, exclude_utilities: bool) -> (r: Result<BridgeConversionResults, ConvertError>)
        ensures
            bindings.content is None ==> r == Err::<BridgeConversionResults, ConvertError>(ConvertError::NoContent),
            r matches Err(ConvertError::NoContent) ==> bindings.content is None,
            r matches Err(ConvertError::UnexpectedOuterItem) ==> (bindings.content matches Some(items)
                && outer_shape_refused(items@)),
            bindings.content matches Some(items) && outer_shape_refused(items@) ==> r
                == Err::<BridgeConversionResults, ConvertError>(ConvertError::UnexpectedOuterItem),
            r matches Err(e) ==> e is NoContent || e is UnexpectedOuterItem || e is UnsafePODType
                || structural_error(e),
            r is Ok ==> (bindings.content matches Some(items) && exists|v: Seq<RawItem>|
                root_content(items@, v) && requests_safe(*old(self).type_database, facts_of_tree(v, Seq::empty()))),
            r matches Err(ConvertError::UnsafePODType(_)) ==> (bindings.content matches Some(items) && exists|v: Seq<RawItem>|
                root_content(items@, v) && !requests_safe(*old(self).type_database, facts_of_tree(v, Seq::empty()))),
            r matches Err(ConvertError::UnexpectedItemInMod) ==> (bindings.content matches Some(items) && exists|v: Seq<RawItem>|
                root_content(items@, v) && has_other_item(v)),
            r matches Err(ConvertError::UnexpectedForeignItem) ==> (bindings.content matches Some(items) && exists|v: Seq<RawItem>|
                root_content(items@, v) && has_other_foreign_item(v)),
            *final(self) == *old(self),
            (bindings.content matches Some(items) && !outer_shape_refused(items@) && forall|v: Seq<RawItem>|
                #[trigger] root_content(items@, v) ==> tree_supported(v) && requests_safe(
                    *old(self).type_database,
                    facts_of_tree(v, Seq::empty()),
                )) ==> r is Ok,
            r matches Err(ConvertError::UnsafePODType(s)) ==> (bindings.content matches Some(items) && exists|v: Seq<RawItem>, k: int|
                #![trigger root_content(items@, v), old(self).type_database.pod_requests@[k]]
                root_content(items@, v) && 0 <= k < old(self).type_database.pod_requests@.len()
                && refused_request(facts_of_tree(v, Seq::empty()), old(self).type_database.pod_requests@[k]@)
                && s@ == cpp_name(old(self).type_database.pod_requests@[k]@)),
            r matches Err(ConvertError::UnexpectedThisType) ==> (bindings.content matches Some(items) && exists|v: Seq<RawItem>|
                root_content(items@, v) && has_bad_receiver(v)),
            r matches Err(ConvertError::ComplexTypedefTarget(_)) ==> (bindings.content matches Some(items) && exists|v: Seq<RawItem>|
                root_content(items@, v) && has_complex_alias(v)),
            r matches Ok(res) ==> exists|kept: Seq<Api>, all: Seq<Api>, idx: Seq<int>| {
                &&& (bindings.content matches Some(items) && exists|v: Seq<RawItem>, c: BridgeConversion|
                    #![trigger root_content(items@, v), retained_from(c, *old(self).type_database, v, kept)]
                    root_content(items@, v) && c.byvalue_checker.wf()
                    && fact_views(c.byvalue_checker.facts@) == facts_of_tree(v, Seq::empty())
                    && retained_from(c, *old(self).type_database, v, kept))
                &&& is_retained_set(*old(self).type_database, all, kept, idx)
                &&& bridge_ids_unique(all)
                &&& binding_ids_unique(all)
                &&& res.global_items@ == globals_of(kept)
                &&& res.bindgen_items@.map_values(|b: NsBinding| (ns_view(b.ns@), b.item)) == bindings_of(kept)
                &&& res.bridge_items@.map_values(|s: String| s@) == bridge_items_of(kept)
                &&& res.reexports@.map_values(|x: Reexport| reexport_view(x)) == reexports_of(kept)
                &&& res.additional_cpp_needs@ == needs_of(kept)
                &&& res.extern_items@.subrange(0, externs_of(kept).len() as int) == externs_of(kept)
                &&& res.extern_items@.len() == externs_of(kept).len() + includes_of(
                    old(self).include_list@,
                    needs_of(kept).len() > 0,
                ).len()
                &&& forall|k: int| 0 <= k < includes_of(old(self).include_list@, needs_of(kept).len() > 0).len()
                    ==> (#[trigger] res.extern_items@[externs_of(kept).len() + k] matches ExternItem::Include(h)
                    && h@ == includes_of(old(self).include_list@, needs_of(kept).len() > 0)[k])
            },
    {
        let items = match bindings.content {
            None => return Err(ConvertError::NoContent),
            Some(items) => items,
        };
        let ghost outer = items@;
        let items_in_root = match find_items_in_root(items) {
            Ok(v) => v,
            Err(e) => return Err(e),
        };
        assert(root_content(outer, items_in_root@));
        let db = self.type_database;
        let checker = match identify_byvalue_safe_types(&items_in_root, db) {
            Ok(c) => c,
            Err(e) => {
                assert(!requests_safe(*old(self).type_database, facts_of_tree(items_in_root@, Seq::empty())));
                return Err(e);
            },
        };
        let conversion = BridgeConversion::new(checker);
        let (kept, buffered) = match conversion.retained_apis(&items_in_root, exclude_utilities, db) {
            Ok(x) => x,
            Err(e) => return Err(e),
        };
        let parts = split_apis(kept);
        let includes = build_include_foreign_items(self.include_list, parts.additional_cpp_needs.len() > 0);
        let mut extern_items = parts.extern_items;
        let ghost ext = extern_items@;
        let ghost incv = includes@;
        let mut inc = includes;
        extern_items.append(&mut inc);
        assert(extern_items@.subrange(0, ext.len() as int) =~= ext);
        assert(forall|k: int| 0 <= k < incv.len() ==> extern_items@[ext.len() + k] == incv[k]);
        let bindgen_uses = select_uses(&parts.bindgen_items, buffered);
        Ok(BridgeConversionResults {
            global_items: parts.global_items,
            bindgen_items: parts.bindgen_items,
            bindgen_uses,
            bridge_items: parts.bridge_items,
            extern_items,
            reexports: parts.reexports,
            additional_cpp_needs: parts.additional_cpp_needs,
        })
    }
}

/// Global uniqueness: no two retained APIs carry the same bridge-visible
/// identifier.
pub proof fn lemma_retained_bridge_ids_unique(db: TypeDatabase, kept: Seq<Api>)
    requires
        pruned_graph(db, kept),
    ensures
        bridge_ids_unique(kept),
{
    let (all, idx) = choose|all: Seq<Api>, idx: Seq<int>|
        is_retained_set(db, all, kept, idx) && bridge_ids_unique(all) && binding_ids_unique(all);
    assert forall|a: int, b: int|
        0 <= a < kept.len() && 0 <= b < kept.len() && a != b && #[trigger] bridge_id_of(kept[a])
            is Some implies bridge_id_of(kept[a]) != #[trigger] bridge_id_of(kept[b]) by {
        assert(kept[a] == all[idx[a]] && kept[b] == all[idx[b]]);
        if a < b {
            assert(idx[a] < idx[b]);
        } else {
            assert(idx[b] < idx[a]);
        }
    }
}

/// Namespace uniqueness: no two retained raw-binding identifiers collide
/// within one namespace.
pub proof fn lemma_retained_binding_ids_unique(db: TypeDatabase, kept: Seq<Api>)
    requires
        pruned_graph(db, kept),
    ensures
        binding_ids_unique(kept),
{
    let (all, idx) = choose|all: Seq<Api>, idx: Seq<int>|
        is_retained_set(db, all, kept, idx) && bridge_ids_unique(all) && binding_ids_unique(all);
    assert forall|a: int, b: int|
        0 <= a < kept.len() && 0 <= b < kept.len() && a != b && #[trigger] binding_id_of(kept[a])
            is Some && ns_view(kept[a].ns@) == ns_view(kept[b].ns@) implies binding_id_of(kept[a])
            != #[trigger] binding_id_of(kept[b]) by {
        assert(kept[a] == all[idx[a]] && kept[b] == all[idx[b]]);
        if a < b {
            assert(idx[a] < idx[b]);
        } else {
            assert(idx[b] < idx[a]);
        }
    }
}

} // verus!
