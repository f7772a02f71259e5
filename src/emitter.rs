use vstd::prelude::*;
use vstd::string::*;

use crate::model::{AdditionalNeed, Api, ExternItem, GlobalItem, RawBinding, Use, bridge_id_of};
use crate::names::{clone_ns, ns_view};

verus! {

/// A raw-binding fragment under its namespace.
pub struct NsBinding {
    pub ns: Vec<String>,
    pub item: RawBinding,
}

/// A public re-export of a bridge item into the namespace `ns`.
pub struct Reexport {
    pub ns: Vec<String>,
    /// The bridge-visible identifier.
    pub id: String,
    /// The host-visible name, where it differs from `id`.
    pub alias: Option<String>,
}

/// An import to splice into the raw-binding scope of a namespace.
#[derive(Clone, Debug)]
pub enum UseItem {
    /// An import found in the raw tree, carried verbatim.
    Verbatim(String),
    /// An import of the bridge scope from a namespace this deep, which goes
    /// up two more scopes than the namespace has segments.
    BridgeScope(usize),
    /// An import of one of the bridge library's types.
    CxxType(String),
}

/// The imports buffered for one namespace.
pub struct NsUses {
    pub ns: Vec<String>,
    pub uses: Vec<UseItem>,
}

/// What a conversion produces, in emission order: the global items, the
/// raw-binding hierarchy with its imports, the bridge scope (type
/// declarations, then foreign declarations and includes), and the public
/// re-export hierarchy; beside them, the native code to generate.
pub struct BridgeConversionResults {
    pub global_items: Vec<GlobalItem>,
    pub bindgen_items: Vec<NsBinding>,
    pub bindgen_uses: Vec<NsUses>,
    pub bridge_items: Vec<String>,
    pub extern_items: Vec<ExternItem>,
    pub reexports: Vec<Reexport>,
    pub additional_cpp_needs: Vec<AdditionalNeed>,
}

/// The global items of `apis`, in order.
pub open spec fn globals_of(apis: Seq<Api>) -> Seq<GlobalItem>
    decreases apis.len(),
{
    if apis.len() == 0 {
        Seq::empty()
    } else {
        globals_of(apis.drop_last()) + apis.last().global_items@
    }
}

/// The raw-binding fragments of `apis`, in order, with their namespaces.
pub open spec fn bindings_of(apis: Seq<Api>) -> Seq<(Seq<Seq<char>>, RawBinding)>
    decreases apis.len(),
{
    if apis.len() == 0 {
        Seq::empty()
    } else {
        let p = bindings_of(apis.drop_last());
        match apis.last().bindgen_mod_item {
            Some(b) => p.push((ns_view(apis.last().ns@), b)),
            None => p,
        }
    }
}

/// The bridge declarations of `apis`, in order.
pub open spec fn bridge_items_of(apis: Seq<Api>) -> Seq<Seq<char>>
    decreases apis.len(),
{
    if apis.len() == 0 {
        Seq::empty()
    } else {
        let p = bridge_items_of(apis.drop_last());
        match apis.last().bridge_item {
            Some(b) => p.push(b@),
            None => p,
        }
    }
}

/// The foreign declarations of `apis`, in order.
pub open spec fn externs_of(apis: Seq<Api>) -> Seq<ExternItem>
    decreases apis.len(),
{
    if apis.len() == 0 {
        Seq::empty()
    } else {
        let p = externs_of(apis.drop_last());
        match apis.last().extern_item {
            Some(e) => p.push(e),
            None => p,
        }
    }
}

/// The native-code needs of `apis`, in order.
pub open spec fn needs_of(apis: Seq<Api>) -> Seq<AdditionalNeed>
    decreases apis.len(),
{
    if apis.len() == 0 {
        Seq::empty()
    } else {
        let p = needs_of(apis.drop_last());
        match apis.last().additional_cpp {
            Some(n) => p.push(n),
            None => p,
        }
    }
}

/// The re-export of one API, if it is visible: its namespace, the bridge
/// identifier it exports (its own identifier where it has none), and the
/// alias it is exported under.
pub open spec fn reexport_of(a: Api) -> Option<(Seq<Seq<char>>, Seq<char>, Option<Seq<char>>)> {
    let id = match bridge_id_of(a) {
        Some(b) => b,
        None => a.id@,
    };
    match a.use_stmt {
        Use::Unused => None,
        Use::Used => Some((ns_view(a.ns@), id, None)),
        Use::UsedWithAlias(al) => Some((ns_view(a.ns@), id, Some(al@))),
    }
}

/// The re-exports of `apis`, in order.
pub open spec fn reexports_of(apis: Seq<Api>) -> Seq<(Seq<Seq<char>>, Seq<char>, Option<Seq<char>>)>
    decreases apis.len(),
{
    if apis.len() == 0 {
        Seq::empty()
    } else {
        let p = reexports_of(apis.drop_last());
        match reexport_of(apis.last()) {
            Some(r) => p.push(r),
            None => p,
        }
    }
}

/// The view of a re-export.
pub open spec fn reexport_view(r: Reexport) -> (Seq<Seq<char>>, Seq<char>, Option<Seq<char>>) {
    (
        ns_view(r.ns@),
        r.id@,
        match r.alias {
            Some(a) => Some(a@),
            None => None,
        },
    )
}

/// The artifact groups that the APIs themselves contribute.
pub struct ApiParts {
    pub global_items: Vec<GlobalItem>,
    pub bindgen_items: Vec<NsBinding>,
    pub bridge_items: Vec<String>,
    pub extern_items: Vec<ExternItem>,
    pub reexports: Vec<Reexport>,
    pub additional_cpp_needs: Vec<AdditionalNeed>,
}

impl ApiParts {
    pub open spec fn of(&self, apis: Seq<Api>) -> bool {
        &&& self.global_items@ == globals_of(apis)
        &&& self.bindgen_items@.map_values(|b: NsBinding| (ns_view(b.ns@), b.item)) == bindings_of(apis)
        &&& self.bridge_items@.map_values(|s: String| s@) == bridge_items_of(apis)
        &&& self.extern_items@ == externs_of(apis)
        &&& self.reexports@.map_values(|r: Reexport| reexport_view(r)) == reexports_of(apis)
        &&& self.additional_cpp_needs@ == needs_of(apis)
    }
}

/// Takes the APIs apart into the artifact groups, keeping their order.
pub fn split_apis(apis: Vec<Api>) -> (r: ApiParts)
    ensures
        r.of(apis@),
{
    let ghost orig = apis@;
    let n = apis.len();
    let mut rest = apis;
    let mut parts = ApiParts {
        global_items: Vec::new(),
        bindgen_items: Vec::new(),
        bridge_items: Vec::new(),
        extern_items: Vec::new(),
        reexports: Vec::new(),
        additional_cpp_needs: Vec::new(),
    };
    let mut i: usize = 0;
    proof {
        assert(orig.subrange(0, 0) =~= Seq::<Api>::empty());
        assert(parts.bindgen_items@.map_values(|b: NsBinding| (ns_view(b.ns@), b.item)) =~= Seq::<(Seq<Seq<char>>, RawBinding)>::empty());
        assert(parts.bridge_items@.map_values(|s: String| s@) =~= Seq::<Seq<char>>::empty());
        assert(parts.reexports@.map_values(|r: Reexport| reexport_view(r)) =~= Seq::<(Seq<Seq<char>>, Seq<char>, Option<Seq<char>>)>::empty());
    }
    while i < n
        invariant
            n == orig.len(),
            i <= n,
            rest@ == orig.subrange(i as int, n as int),
            parts.of(orig.subrange(0, i as int)),
        decreases n - i,
    {
        assert(rest@[0] == orig[i as int]);
        let a = rest.remove(0);
        assert(rest@ =~= orig.subrange(i + 1, n as int));
        let ghost sub = orig.subrange(0, i + 1);
        assert(sub.drop_last() =~= orig.subrange(0, i as int));
        assert(sub.last() == a);
        let ghost rv = reexport_of(a);
        let Api {
            ns,
            id,
            use_stmt,
            deps: _,
            extern_item,
            bridge_item,
            global_items,
            additional_cpp,
            id_for_allowlist: _,
            bindgen_mod_item,
        } = a;
        let exported = match &extern_item {
            Some(ExternItem::Type { bridge_id, .. }) => bridge_id.clone(),
            Some(ExternItem::Function { bridge_id, .. }) => bridge_id.clone(),
            _ => id.clone(),
        };
        let ghost prev_re = parts.reexports@;
        match use_stmt {
            Use::Unused => {},
            Use::Used => {
                parts.reexports.push(Reexport { ns: clone_ns(&ns), id: exported, alias: None });
            },
            Use::UsedWithAlias(al) => {
                parts.reexports.push(Reexport { ns: clone_ns(&ns), id: exported, alias: Some(al) });
            },
        }
        proof {
            if rv is Some {
                assert(parts.reexports@.map_values(|r: Reexport| reexport_view(r)) =~= prev_re.map_values(|r: Reexport| reexport_view(r)).push(rv->Some_0));
            } else {
                assert(parts.reexports@ == prev_re);
            }
        }
        let ghost prev_b = parts.bindgen_items@;
        if let Some(b) = bindgen_mod_item {
            parts.bindgen_items.push(NsBinding { ns: clone_ns(&ns), item: b });
            assert(parts.bindgen_items@.map_values(|b: NsBinding| (ns_view(b.ns@), b.item)) =~= prev_b.map_values(|b: NsBinding| (ns_view(b.ns@), b.item)).push((ns_view(a.ns@), a.bindgen_mod_item->Some_0)));
        }
        let ghost prev_bi = parts.bridge_items@;
        if let Some(b) = bridge_item {
            parts.bridge_items.push(b);
            assert(parts.bridge_items@.map_values(|s: String| s@) =~= prev_bi.map_values(|s: String| s@).push(a.bridge_item->Some_0@));
        }
        if let Some(e) = extern_item {
            parts.extern_items.push(e);
        }
        if let Some(c) = additional_cpp {
            parts.additional_cpp_needs.push(c);
        }
        let mut g = global_items;
        parts.global_items.append(&mut g);
        i = i + 1;
    }
    assert(orig.subrange(0, n as int) =~= orig);
    parts
}

/// The values held in `s`, in order, with the empty entries left out.
pub open spec fn somes<T>(s: Seq<Option<T>>) -> Seq<T>
    decreases s.len(),
{
    if s.len() == 0 {
        Seq::empty()
    } else {
        let p = somes(s.drop_last());
        match s.last() {
            Some(v) => p.push(v),
            None => p,
        }
    }
}

/// Keeps the values of `input`, in order, and drops its empty entries.
pub fn remove_nones<T>(input: Vec<Option<T>>) -> (r: Vec<T>)
    ensures
        r@ == somes(input@),
{
    let ghost orig = input@;
    let n = input.len();
    let mut rest = input;
    let mut out: Vec<T> = Vec::new();
    let mut i: usize = 0;
    assert(orig.subrange(0, 0) =~= Seq::<Option<T>>::empty());
    while i < n
        invariant
            n == orig.len(),
            i <= n,
            rest@ == orig.subrange(i as int, n as int),
            out@ == somes(orig.subrange(0, i as int)),
        decreases n - i,
    {
        assert(rest@[0] == orig[i as int]);
        let x = rest.remove(0);
        assert(rest@ =~= orig.subrange(i + 1, n as int));
        assert(orig.subrange(0, i + 1).drop_last() =~= orig.subrange(0, i as int));
        if let Some(v) = x {
            out.push(v);
        }
        i = i + 1;
    }
    assert(orig.subrange(0, n as int) =~= orig);
    out
}

/// The include directives of the bridge scope: the given headers, then
/// the header of the generated native glue where any is needed.
pub open spec fn includes_of(include_list: Seq<String>, has_needs: bool) -> Seq<Seq<char>> {
    include_list.map_values(|s: String| s@) + if has_needs {
        seq!["autocxxgen.h"@]
    } else {
        Seq::empty()
    }
}

/// Builds the include directives of the bridge scope.
pub fn build_include_foreign_items(include_list: &[String], has_additional_cpp_needs: bool) -> (r: Vec<ExternItem>)
    ensures
        r@.len() == includes_of(include_list@, has_additional_cpp_needs).len(),
        forall|k: int| 0 <= k < r@.len() ==> (#[trigger] r@[k] matches ExternItem::Include(s)
            && s@ == includes_of(include_list@, has_additional_cpp_needs)[k]),
{
    let mut all: Vec<Option<String>> = Vec::new();
    let mut i: usize = 0;
    while i < include_list.len()
        invariant
            i <= include_list@.len(),
            all@.len() == i,
            forall|k: int| 0 <= k < i ==> (#[trigger] all@[k] matches Some(s) && s@ == include_list@[k]@),
        decreases include_list.len() - i,
    {
        all.push(Some(include_list[i].clone()));
        i = i + 1;
    }
    let extra = if has_additional_cpp_needs {
        Some(String::from_str("autocxxgen.h"))
    } else {
        None
    };
    let ghost before = all@;
    all.push(extra);
    let ghost full = all@;
    proof {
        lemma_somes_all(before);
        assert(full.drop_last() =~= before);
    }
    let names = remove_nones(all);
    let mut r: Vec<ExternItem> = Vec::new();
    let mut j: usize = 0;
    while j < names.len()
        invariant
            j <= names@.len(),
            names@ == somes(full),
            r@.len() == j,
            forall|k: int| 0 <= k < j ==> (#[trigger] r@[k] matches ExternItem::Include(s) && s@ == names@[k]@),
        decreases names.len() - j,
    {
        r.push(ExternItem::Include(names[j].clone()));
        j = j + 1;
    }
    proof {
        let inc = includes_of(include_list@, has_additional_cpp_needs);
        assert(names@.len() == inc.len());
        assert forall|k: int| 0 <= k < names@.len() implies names@[k]@ == inc[k] by {
            if k < include_list@.len() {
                assert(names@[k] == somes(before)[k]);
            }
        }
    }
    r
}

proof fn lemma_somes_all<T>(s: Seq<Option<T>>)
    requires
        forall|k: int| 0 <= k < s.len() ==> #[trigger] s[k] is Some,
    ensures
        somes(s).len() == s.len(),
        forall|k: int| 0 <= k < s.len() ==> #[trigger] somes(s)[k] == s[k]->Some_0,
    decreases s.len(),
{
    if s.len() > 0 {
        lemma_somes_all(s.drop_last());
        assert(somes(s) == somes(s.drop_last()).push(s.last()->Some_0));
    }
}

/// Whether `p` is a prefix of the namespace `n`: `n` is `p` or nested in it.
pub open spec fn ns_within(p: Seq<Seq<char>>, n: Seq<Seq<char>>) -> bool {
    p.len() <= n.len() && n.subrange(0, p.len() as int) == p
}

fn is_within(p: &Vec<String>, n: &Vec<String>) -> (r: bool)
    ensures
        r == ns_within(ns_view(p@), ns_view(n@)),
{
    if p.len() > n.len() {
        return false;
    }
    let mut i: usize = 0;
    while i < p.len()
        invariant
            p.len() <= n.len(),
            i <= p.len(),
            forall|k: int| 0 <= k < i ==> p@[k]@ == n@[k]@,
        decreases p.len() - i,
    {
        if p[i] != n[i] {
            assert(ns_view(n@).subrange(0, p@.len() as int)[i as int] != ns_view(p@)[i as int]);
            return false;
        }
        i = i + 1;
    }
    assert(ns_view(n@).subrange(0, p@.len() as int) =~= ns_view(p@));
    true
}

/// Whether the raw-binding scope of namespace `ns` is emitted: only where
/// it, or a namespace nested in it, keeps a raw binding.
pub open spec fn scope_kept(bindings: Seq<NsBinding>, ns: Seq<Seq<char>>) -> bool {
    exists|k: int| 0 <= k < bindings.len() && ns_within(ns, ns_view(#[trigger] bindings[k].ns@))
}

/// The buffered imports of the scopes that are emitted, in order.
pub open spec fn kept_uses(bindings: Seq<NsBinding>, buffer: Seq<NsUses>) -> Seq<NsUses>
    decreases buffer.len(),
{
    if buffer.len() == 0 {
        Seq::empty()
    } else {
        let p = kept_uses(bindings, buffer.drop_last());
        if scope_kept(bindings, ns_view(buffer.last().ns@)) {
            p.push(buffer.last())
        } else {
            p
        }
    }
}

fn scope_is_kept(bindings: &Vec<NsBinding>, ns: &Vec<String>) -> (r: bool)
    ensures
        r == scope_kept(bindings@, ns_view(ns@)),
{
    let mut k: usize = 0;
    while k < bindings.len()
        invariant
            k <= bindings.len(),
            forall|m: int| 0 <= m < k ==> !ns_within(ns_view(ns@), ns_view(#[trigger] bindings@[m].ns@)),
        decreases bindings.len() - k,
    {
        if is_within(ns, &bindings[k].ns) {
            return true;
        }
        k = k + 1;
    }
    false
}

/// Splices the buffered imports in where their scope is emitted.
pub fn select_uses(bindings: &Vec<NsBinding>, buffer: Vec<NsUses>) -> (r: Vec<NsUses>)
    ensures
        r@ == kept_uses(bindings@, buffer@),
{
    let ghost orig = buffer@;
    let n = buffer.len();
    let mut rest = buffer;
    let mut out: Vec<NsUses> = Vec::new();
    let mut i: usize = 0;
    assert(orig.subrange(0, 0) =~= Seq::<NsUses>::empty());
    while i < n
        invariant
            n == orig.len(),
            i <= n,
            rest@ == orig.subrange(i as int, n as int),
            out@ == kept_uses(bindings@, orig.subrange(0, i as int)),
        decreases n - i,
    {
        assert(rest@[0] == orig[i as int]);
        let u = rest.remove(0);
        assert(rest@ =~= orig.subrange(i + 1, n as int));
        assert(orig.subrange(0, i + 1).drop_last() =~= orig.subrange(0, i as int));
        if scope_is_kept(bindings, &u.ns) {
            out.push(u);
        }
        i = i + 1;
    }
    assert(orig.subrange(0, n as int) =~= orig);
    out
}

/// `n` lies strictly inside the namespace `p`.
pub open spec fn strictly_within(p: Seq<Seq<char>>, n: Seq<Seq<char>>) -> bool {
    ns_within(p, n) && p.len() < n.len()
}

/// `seg` follows `prefix` in some namespace of `all`.
pub open spec fn is_child_segment(prefix: Seq<String>, all: Seq<Vec<String>>, seg: Seq<char>) -> bool {
    exists|j: int|
        0 <= j < all.len() && strictly_within(ns_view(prefix), ns_view(#[trigger] all[j]@))
            && all[j]@[prefix.len() as int]@ == seg
}

/// `seg` occurs among `r`.
pub open spec fn listed(r: Seq<String>, seg: Seq<char>) -> bool {
    exists|k: int| 0 <= k < r.len() && #[trigger] r[k]@ == seg
}

/// The namespaces directly below `prefix` among `all`: each segment that
/// follows `prefix` in some namespace of `all`, listed once.
pub fn child_segments(prefix: &Vec<String>, all: &Vec<Vec<String>>) -> (r: Vec<String>)
    ensures
        forall|a: int, b: int| 0 <= a < b < r@.len() ==> #[trigger] r@[a]@ != #[trigger] r@[b]@,
        forall|k: int| 0 <= k < r@.len() ==> is_child_segment(prefix@, all@, #[trigger] r@[k]@),
        forall|j: int| 0 <= j < all@.len() && strictly_within(ns_view(prefix@), ns_view(#[trigger] all@[j]@))
            ==> listed(r@, all@[j]@[prefix@.len() as int]@),
{
    let mut r: Vec<String> = Vec::new();
    let mut j: usize = 0;
    while j < all.len()
        invariant
            j <= all@.len(),
            forall|a: int, b: int| 0 <= a < b < r@.len() ==> #[trigger] r@[a]@ != #[trigger] r@[b]@,
            forall|k: int| 0 <= k < r@.len() ==> is_child_segment(prefix@, all@, #[trigger] r@[k]@),
            forall|m: int| 0 <= m < j && strictly_within(ns_view(prefix@), ns_view(#[trigger] all@[m]@))
                ==> listed(r@, all@[m]@[prefix@.len() as int]@),
        decreases all.len() - j,
    {
        if prefix.len() < all[j].len() && is_within(prefix, &all[j]) {
            let seg = &all[j][prefix.len()];
            let mut found = false;
            let mut k: usize = 0;
            while k < r.len()
                invariant
                    k <= r@.len(),
                    found ==> listed(r@, seg@),
                    !found ==> forall|q: int| 0 <= q < k ==> r@[q]@ != seg@,
                decreases r.len() - k,
            {
                if r[k] == *seg {
                    found = true;
                }
                k = k + 1;
            }
            proof {
                assert(ns_view(all@[j as int]@)[prefix@.len() as int] == all@[j as int]@[prefix@.len() as int]@);
                assert(is_child_segment(prefix@, all@, seg@));
            }
            if !found {
                let ghost prev = r@;
                r.push(seg.clone());
                proof {
                    assert(r@[r@.len() - 1]@ == seg@);
                    assert forall|k: int| 0 <= k < r@.len() implies is_child_segment(prefix@, all@, #[trigger] r@[k]@) by {
                        if k < prev.len() {
                            assert(r@[k] == prev[k]);
                        }
                    }
                    assert forall|m: int| 0 <= m < j + 1 && strictly_within(ns_view(prefix@), ns_view(#[trigger] all@[m]@))
                        implies listed(r@, all@[m]@[prefix@.len() as int]@) by {
                        if m < j {
                            let k = choose|k: int| 0 <= k < prev.len() && #[trigger] prev[k]@ == all@[m]@[prefix@.len() as int]@;
                            assert(r@[k] == prev[k]);
                        } else {
                            assert(r@[r@.len() - 1]@ == all@[m]@[prefix@.len() as int]@);
                        }
                    }
                }
            }
        } else {
            proof {
                assert(!strictly_within(ns_view(prefix@), ns_view(all@[j as int]@)));
            }
        }
        j = j + 1;
    }
    r
}

/// The positions of the entries of `nss` that belong to namespace `prefix`
/// itself, in increasing order.
pub fn scope_members(prefix: &Vec<String>, nss: &Vec<Vec<String>>) -> (r: Vec<usize>)
    ensures
        forall|a: int, b: int| 0 <= a < b < r@.len() ==> #[trigger] r@[a] < #[trigger] r@[b],
        forall|k: int| 0 <= k < r@.len() ==> #[trigger] r@[k] < nss@.len()
            && ns_view(nss@[r@[k] as int]@) == ns_view(prefix@),
        forall|j: int| 0 <= j < nss@.len() && ns_view(#[trigger] nss@[j]@) == ns_view(prefix@)
            ==> exists|k: int| 0 <= k < r@.len() && r@[k] == j,
{
    let mut r: Vec<usize> = Vec::new();
    let mut j: usize = 0;
    while j < nss.len()
        invariant
            j <= nss@.len(),
            forall|a: int, b: int| 0 <= a < b < r@.len() ==> #[trigger] r@[a] < #[trigger] r@[b],
            forall|k: int| 0 <= k < r@.len() ==> #[trigger] r@[k] < j
                && ns_view(nss@[r@[k] as int]@) == ns_view(prefix@),
            forall|m: int| 0 <= m < j && ns_view(#[trigger] nss@[m]@) == ns_view(prefix@)
                ==> exists|k: int| 0 <= k < r@.len() && r@[k] == m,
        decreases nss.len() - j,
    {
        if nss[j].len() == prefix.len() && is_within(prefix, &nss[j]) {
            let ghost prev = r@;
            r.push(j);
            proof {
                assert(ns_view(nss@[j as int]@).subrange(0, prefix@.len() as int) =~= ns_view(nss@[j as int]@));
                assert forall|m: int| 0 <= m < j + 1 && ns_view(#[trigger] nss@[m]@) == ns_view(prefix@)
                    implies exists|k: int| 0 <= k < r@.len() && r@[k] == m by {
                    if m < j {
                        let k = choose|k: int| 0 <= k < prev.len() && prev[k] == m;
                        assert(r@[k] == m);
                    } else {
                        assert(r@[r@.len() - 1] == m);
                    }
                }
            }
        } else {
            proof {
                if ns_view(nss@[j as int]@) == ns_view(prefix@) {
                    assert(ns_view(nss@[j as int]@).len() == nss@[j as int]@.len());
                    assert(ns_view(prefix@).len() == prefix@.len());
                    assert(ns_view(nss@[j as int]@).subrange(0, prefix@.len() as int) =~= ns_view(prefix@));
                }
            }
        }
        j = j + 1;
    }
    r
}

} // verus!
