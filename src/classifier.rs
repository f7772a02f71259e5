use vstd::prelude::*;
use vstd::string::*;

use crate::model::{ConvertError, FieldType, RawField, RawItem};
use crate::names::{cpp_name, ns_push, ns_view, NameView, QualName};
use crate::type_database::{fact_view, fact_views, not_pod_at, ByValueChecker, FactView, TypeDatabase, TypeFacts};

verus! {

/// Whether any field carries the sentinel name `_unused`, which marks a
/// struct as declared but not defined.
pub fn spot_forward_declaration(fields: &Vec<RawField>) -> (r: bool)
    ensures
        r == exists|i: int| 0 <= i < fields@.len() && #[trigger] fields@[i].name@ == "_unused"@,
{
    let sentinel = String::from_str("_unused");
    let mut i: usize = 0;
    while i < fields.len()
        invariant
            i <= fields.len(),
            sentinel@ == "_unused"@,
            forall|k: int| 0 <= k < i ==> fields@[k].name@ != "_unused"@,
        decreases fields.len() - i,
    {
        if fields[i].name == sentinel {
            return true;
        }
        i = i + 1;
    }
    false
}

/// The types that a struct's fields name, in order.
pub open spec fn named_types(fields: Seq<RawField>) -> Seq<NameView>
    decreases fields.len(),
{
    if fields.len() == 0 {
        Seq::empty()
    } else {
        let p = named_types(fields.drop_last());
        match fields.last().ty {
            FieldType::Named(q) => p.push(q@),
            _ => p,
        }
    }
}

/// The views of a list of names.
pub open spec fn views(names: Seq<QualName>) -> Seq<NameView> {
    names.map_values(|q: QualName| q@)
}

fn field_type_names(fields: &Vec<RawField>) -> (r: Vec<QualName>)
    ensures
        views(r@) == named_types(fields@),
{
    let mut r: Vec<QualName> = Vec::new();
    let mut i: usize = 0;
    assert(fields@.subrange(0, 0) =~= Seq::<RawField>::empty());
    assert(views(r@) =~= Seq::<NameView>::empty());
    while i < fields.len()
        invariant
            i <= fields.len(),
            views(r@) == named_types(fields@.subrange(0, i as int)),
        decreases fields.len() - i,
    {
        assert(fields@.subrange(0, i + 1).drop_last() =~= fields@.subrange(0, i as int));
        assert(fields@.subrange(0, i + 1).last() == fields@[i as int]);
        if let FieldType::Named(q) = &fields[i].ty {
            let ghost before = r@;
            r.push(q.clone());
            assert(views(r@) =~= views(before).push(q@));
        }
        i = i + 1;
    }
    assert(fields@.subrange(0, fields@.len() as int) =~= fields@);
    r
}

/// The facts of every struct of `items` (declared in namespace `ns`) and
/// of the namespaces nested in it, in declaration order.
pub open spec fn facts_of_tree(items: Seq<RawItem>, ns: Seq<Seq<char>>) -> Seq<FactView>
    decreases items,
{
    if items.len() == 0 {
        Seq::empty()
    } else {
        let prefix = facts_of_tree(items.subrange(0, items.len() - 1), ns);
        match items[items.len() - 1] {
            RawItem::Struct(s) => prefix.push(((ns, s.name@), s.has_destructor, named_types(s.fields@))),
            RawItem::Mod(m) => match m.content {
                Some(c) => prefix + facts_of_tree(c@, ns.push(m.name@)),
                None => prefix,
            },
            _ => prefix,
        }
    }
}

/// Gathers what the classifier needs from every struct of the tree.
fn collect_type_facts(items: &Vec<RawItem>, ns: &Vec<String>, out: &mut Vec<TypeFacts>)
    ensures
        fact_views(final(out)@) == fact_views(old(out)@) + facts_of_tree(items@, ns_view(ns@)),
    decreases items,
{
    let mut i: usize = 0;
    assert(items@.subrange(0, 0) =~= Seq::<RawItem>::empty());
    assert(fact_views(out@) =~= fact_views(old(out)@) + facts_of_tree(items@.subrange(0, 0), ns_view(ns@)));
    while i < items.len()
        invariant
            i <= items.len(),
            fact_views(out@) == fact_views(old(out)@) + facts_of_tree(items@.subrange(0, i as int), ns_view(ns@)),
        decreases items.len() - i,
    {
        let ghost before = out@;
        let ghost sub = items@.subrange(0, i + 1);
        assert(sub.subrange(0, sub.len() - 1) =~= items@.subrange(0, i as int));
        assert(sub[sub.len() - 1] == items@[i as int]);
        match &items[i] {
            RawItem::Struct(s) => {
                let name = QualName { ns: crate::names::clone_ns(ns), id: s.name.clone() };
                out.push(TypeFacts {
                    name,
                    has_destructor: s.has_destructor,
                    field_types: field_type_names(&s.fields),
                });
                assert(fact_views(out@) =~= fact_views(before).push(fact_view(out@.last())));
            },
            RawItem::Mod(m) => {
                if let Some(content) = &m.content {
                    let inner = ns_push(ns, &m.name);
                    proof {
                        assert(decreases_to!(*items => items@[i as int]));
                    }
                    collect_type_facts(content, &inner, out);
                }
            },
            _ => {},
        }
        assert(fact_views(out@) =~= fact_views(old(out)@) + facts_of_tree(sub, ns_view(ns@)));
        i = i + 1;
    }
    assert(items@.subrange(0, items@.len() as int) =~= items@);
}

/// A type that the user asks to hold by value but that is not safe so held.
pub open spec fn unsafe_request(c: ByValueChecker, q: NameView) -> bool {
    (exists|j: int| 0 <= j < c.facts@.len() && #[trigger] c.facts@[j].name@ == q) && !c.pod(q)
}

/// A request to hold `q` by value that the facts `fv` refuse: some struct
/// carries that name, and none of that name is safe by value.
pub open spec fn refused_request(fv: Seq<FactView>, q: NameView) -> bool {
    &&& exists|j: int| 0 <= j < fv.len() && #[trigger] fv[j].0 == q
    &&& forall|j: int| 0 <= j < fv.len() && #[trigger] fv[j].0 == q ==> not_pod_at(fv, j)
}

/// Every request of `db` to hold a type by value is safe under the facts `fv`.
pub open spec fn requests_safe(db: TypeDatabase, fv: Seq<FactView>) -> bool {
    forall|k: int| 0 <= k < db.pod_requests@.len() ==> !refused_request(fv, #[trigger] db.pod_requests@[k]@)
}

/// Checks every request to hold a type by value against the classifier:
/// the first request that names a known struct which is not safe by value
/// is refused, with that type's native name.
pub fn check_pod_requests(checker: &ByValueChecker, db: &TypeDatabase) -> (r: Result<(), ConvertError>)
    requires
        checker.wf(),
    ensures
        r is Ok <==> forall|k: int|
            0 <= k < db.pod_requests@.len() ==> !unsafe_request(*checker, #[trigger] db.pod_requests@[k]@),
        r matches Err(e) ==> exists|k: int|
            0 <= k < db.pod_requests@.len() && unsafe_request(*checker, #[trigger] db.pod_requests@[k]@)
                && (e matches ConvertError::UnsafePODType(s) && s@ == cpp_name(
                db.pod_requests@[k]@,
            )),
{
    let reqs = &db.pod_requests;
    let mut k: usize = 0;
    while k < reqs.len()
        invariant
            checker.wf(),
            reqs == db.pod_requests,
            k <= reqs.len(),
            forall|m: int| 0 <= m < k ==> !unsafe_request(*checker, #[trigger] reqs@[m]@),
        decreases reqs.len() - k,
    {
        let known = checker.is_known(&reqs[k]);
        if known && !checker.is_pod(&reqs[k]) {
            return Err(ConvertError::UnsafePODType(reqs[k].to_cpp_name()));
        }
        k = k + 1;
    }
    Ok(())
}

/// Classifies every struct of the tree, then checks the requests to hold
/// types by value against the result.
pub fn identify_byvalue_safe_types(items: &Vec<RawItem>, db: &TypeDatabase) -> (r: Result<
    ByValueChecker,
    ConvertError,
>)
    ensures
        r matches Ok(c) ==> c.wf() && fact_views(c.facts@) == facts_of_tree(items@, Seq::empty())
            && requests_safe(*db, facts_of_tree(items@, Seq::empty()))
            && forall|k: int|
            0 <= k < db.pod_requests@.len() ==> !unsafe_request(c, #[trigger] db.pod_requests@[k]@),
        r matches Err(e) ==> e is UnsafePODType && !requests_safe(*db, facts_of_tree(items@, Seq::empty())),
        r matches Err(e) ==> exists|k: int| 0 <= k < db.pod_requests@.len()
            && refused_request(facts_of_tree(items@, Seq::empty()), #[trigger] db.pod_requests@[k]@)
            && (e matches ConvertError::UnsafePODType(s) && s@ == cpp_name(db.pod_requests@[k]@)),
{
    let mut facts: Vec<TypeFacts> = Vec::new();
    let root: Vec<String> = Vec::new();
    collect_type_facts(items, &root, &mut facts);
    assert(ns_view(root@) =~= Seq::<Seq<char>>::empty());
    assert(fact_views(Seq::<TypeFacts>::empty()) =~= Seq::<FactView>::empty());
    let checker = ByValueChecker::new(facts);
    match check_pod_requests(&checker, db) {
        Ok(()) => {
            proof {
                let fv = fact_views(checker.facts@);
                assert forall|k: int| 0 <= k < db.pod_requests@.len() implies !refused_request(fv, #[trigger] db.pod_requests@[k]@) by {
                    let q = db.pod_requests@[k]@;
                    assert(!unsafe_request(checker, q));
                    if refused_request(fv, q) {
                        let j = choose|j: int| 0 <= j < fv.len() && #[trigger] fv[j].0 == q;
                        assert(checker.facts@[j].name@ == fv[j].0);
                        assert(!checker.pod(q)) by {
                            assert forall|m: int| 0 <= m < checker.facts@.len() && checker.facts@[m].name@ == q implies #[trigger] checker.non_pod@[m] by {
                                assert(fv[m].0 == checker.facts@[m].name@);
                            }
                        }
                    }
                }
            }
            Ok(checker)
        },
        Err(e) => {
            proof {
                let fv = fact_views(checker.facts@);
                let k = choose|k: int| 0 <= k < db.pod_requests@.len() && unsafe_request(checker, #[trigger] db.pod_requests@[k]@)
                    && (e matches ConvertError::UnsafePODType(s) && s@ == cpp_name(db.pod_requests@[k]@));
                let q = db.pod_requests@[k]@;
                let j = choose|j: int| 0 <= j < checker.facts@.len() && #[trigger] checker.facts@[j].name@ == q;
                assert(fv[j].0 == q);
                assert forall|m: int| 0 <= m < fv.len() && #[trigger] fv[m].0 == q implies not_pod_at(fv, m) by {
                    assert(fv[m].0 == checker.facts@[m].name@);
                    assert(checker.non_pod@[m]);
                }
                assert(refused_request(fv, q));
            }
            Err(e)
        },
    }
}

/// Stability: two classifications of the same tree agree on every type.
pub proof fn lemma_classification_stable(
    items: Seq<RawItem>,
    c1: ByValueChecker,
    c2: ByValueChecker,
    tn: NameView,
)
    requires
        c1.wf(),
        c2.wf(),
        fact_views(c1.facts@) == facts_of_tree(items, Seq::empty()),
        fact_views(c2.facts@) == facts_of_tree(items, Seq::empty()),
    ensures
        c1.pod(tn) == c2.pod(tn),
{
    let fv = facts_of_tree(items, Seq::empty());
    assert(c1.facts@.len() == fv.len() && c2.facts@.len() == fv.len());
    if c1.pod(tn) {
        let j = choose|j: int| 0 <= j < c1.facts@.len() && c1.facts@[j].name@ == tn && !#[trigger] c1.non_pod@[j];
        assert(fact_views(c1.facts@)[j] == fact_views(c2.facts@)[j]);
        assert(c2.facts@[j].name@ == tn && !c2.non_pod@[j]);
    }
    if c2.pod(tn) {
        let j = choose|j: int| 0 <= j < c2.facts@.len() && c2.facts@[j].name@ == tn && !#[trigger] c2.non_pod@[j];
        assert(fact_views(c1.facts@)[j] == fact_views(c2.facts@)[j]);
        assert(c1.facts@[j].name@ == tn && !c1.non_pod@[j]);
    }
}

} // verus!
