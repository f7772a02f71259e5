use vstd::prelude::*;

use crate::model::{Api, Use};
use crate::names::{clone_ns, ns_view, NameView, QualName};
use crate::type_database::TypeDatabase;

verus! {

/// The qualified name under which an API is found in the graph.
pub open spec fn api_name(a: Api) -> NameView {
    (ns_view(a.ns@), a.id@)
}

/// The qualified name under which an API is looked up in the accept-list:
/// its distinct allowlist identifier, else its alias, else its identifier.
pub open spec fn allowlist_name(a: Api) -> NameView {
    (
        ns_view(a.ns@),
        match a.id_for_allowlist {
            Some(s) => s@,
            None => match a.use_stmt {
                Use::UsedWithAlias(alias) => alias@,
                _ => a.id@,
            },
        },
    )
}

/// Whether API `i` is a root of the pruning.
pub open spec fn is_root(db: TypeDatabase, apis: Seq<Api>, i: int) -> bool {
    db.allowed(allowlist_name(apis[i]))
}

/// `s` holds every API named by a dependency of an API that it holds.
pub open spec fn closed(apis: Seq<Api>, s: Set<int>) -> bool {
    forall|i: int, k: int, j: int|
        #![trigger s.contains(i), apis[i].deps@[k], api_name(apis[j])]
        0 <= i < apis.len() && s.contains(i) && 0 <= k < apis[i].deps@.len() && 0 <= j
            < apis.len() && api_name(apis[j]) == apis[i].deps@[k]@ ==> s.contains(j)
}

/// `s` holds every API that shares its name with a root.
pub open spec fn rooted(db: TypeDatabase, apis: Seq<Api>, s: Set<int>) -> bool {
    forall|i: int, j: int|
        #![trigger is_root(db, apis, i), api_name(apis[j])]
        0 <= i < apis.len() && is_root(db, apis, i) && 0 <= j < apis.len() && api_name(apis[j])
            == api_name(apis[i]) ==> s.contains(j)
}

/// API `j` is reached from the accept-list: it lies in every rooted, closed set.
pub open spec fn reached(db: TypeDatabase, apis: Seq<Api>, j: int) -> bool {
    forall|s: Set<int>| closed(apis, s) && rooted(db, apis, s) ==> #[trigger] s.contains(j)
}

/// The number of `false` entries.
pub open spec fn count_false(s: Seq<bool>) -> nat
    decreases s.len(),
{
    if s.len() == 0 {
        0
    } else {
        count_false(s.drop_last()) + if s.last() {
            0nat
        } else {
            1nat
        }
    }
}

pub proof fn lemma_count_false_update(s: Seq<bool>, j: int)
    requires
        0 <= j < s.len(),
        !s[j],
    ensures
        count_false(s.update(j, true)) + 1 == count_false(s),
    decreases s.len(),
{
    let t = s.update(j, true);
    if j < s.len() - 1 {
        assert(t.drop_last() =~= s.drop_last().update(j, true));
        lemma_count_false_update(s.drop_last(), j);
    } else {
        assert(t.drop_last() =~= s.drop_last());
    }
}

/// Closure: whatever a reached API depends on is reached too, where an API
/// of that name exists at all.
pub proof fn lemma_reached_closed(db: TypeDatabase, apis: Seq<Api>, i: int, k: int, j: int)
    requires
        0 <= i < apis.len(),
        reached(db, apis, i),
        0 <= k < apis[i].deps@.len(),
        0 <= j < apis.len(),
        api_name(apis[j]) == apis[i].deps@[k]@,
    ensures
        reached(db, apis, j),
{
    assert forall|s: Set<int>| closed(apis, s) && rooted(db, apis, s) implies #[trigger] s.contains(
        j,
    ) by {
        assert(s.contains(i));
    }
}

proof fn lemma_root_reached(db: TypeDatabase, apis: Seq<Api>, i: int, j: int)
    requires
        0 <= i < apis.len(),
        is_root(db, apis, i),
        0 <= j < apis.len(),
        api_name(apis[j]) == api_name(apis[i]),
    ensures
        reached(db, apis, j),
{
}

/// The name of `api` in the graph.
pub fn typename(api: &Api) -> (r: QualName)
    ensures
        r@ == api_name(*api),
{
    QualName { ns: clone_ns(&api.ns), id: api.id.clone() }
}

/// The name of `api` in the accept-list.
pub fn typename_for_allowlist(api: &Api) -> (r: QualName)
    ensures
        r@ == allowlist_name(*api),
{
    let id = match &api.id_for_allowlist {
        Some(id) => id.clone(),
        None => match &api.use_stmt {
            Use::UsedWithAlias(alias) => alias.clone(),
            _ => api.id.clone(),
        },
    };
    QualName { ns: clone_ns(&api.ns), id }
}

/// Marks every API called `name`, and queues those not marked before.
fn mark_named(apis: &Vec<Api>, retained: &mut Vec<bool>, todos: &mut Vec<usize>, name: &QualName)
    requires
        old(retained)@.len() == apis@.len(),
    ensures
        final(retained)@.len() == apis@.len(),
        forall|j: int|
            0 <= j < apis@.len() ==> #[trigger] final(retained)@[j] == (old(retained)@[j]
                || api_name(apis@[j]) == name@),
        count_false(final(retained)@) + final(todos)@.len() == count_false(old(retained)@) + old(
            todos,
        )@.len(),
        final(todos)@.len() >= old(todos)@.len(),
        final(todos)@.subrange(0, old(todos)@.len() as int) == old(todos)@,
        forall|k: int|
            old(todos)@.len() <= k < final(todos)@.len() ==> #[trigger] final(todos)@[k]
                < apis@.len() && final(retained)@[final(todos)@[k] as int],
        forall|j: int|
            0 <= j < apis@.len() && final(retained)@[j] && !old(retained)@[j] ==> exists|k: int|
                old(todos)@.len() <= k < final(todos)@.len() && #[trigger] final(todos)@[k] == j,
{
    let ghost r0 = retained@;
    let ghost t0 = todos@;
    let mut j: usize = 0;
    while j < apis.len()
        invariant
            j <= apis@.len(),
            retained@.len() == apis@.len(),
            r0.len() == apis@.len(),
            forall|m: int|
                0 <= m < apis@.len() ==> #[trigger] retained@[m] == if m < j {
                    r0[m] || api_name(apis@[m]) == name@
                } else {
                    r0[m]
                },
            count_false(retained@) + todos@.len() == count_false(r0) + t0.len(),
            todos@.len() >= t0.len(),
            todos@.subrange(0, t0.len() as int) == t0,
            forall|k: int| t0.len() <= k < todos@.len() ==> #[trigger] todos@[k] < j
                && retained@[todos@[k] as int],
            forall|m: int|
                0 <= m < apis@.len() && retained@[m] && !r0[m] ==> exists|k: int|
                    t0.len() <= k < todos@.len() && #[trigger] todos@[k] == m,
        decreases apis@.len() - j,
    {
        if !retained[j] {
            let tn = typename(&apis[j]);
            if tn.same_as(name) {
                let ghost prev_r = retained@;
                let ghost prev_t = todos@;
                proof { lemma_count_false_update(retained@, j as int); }
                retained.set(j, true);
                todos.push(j);
                proof {
                    assert(todos@.subrange(0, t0.len() as int) =~= t0);
                    assert forall|m: int|
                        0 <= m < apis@.len() && retained@[m] && !r0[m] implies exists|k: int|
                        t0.len() <= k < todos@.len() && #[trigger] todos@[k] == m by {
                        if m == j {
                            assert(todos@[todos@.len() - 1] == j);
                        } else {
                            assert(prev_r[m]);
                            let k = choose|k: int|
                                t0.len() <= k < prev_t.len() && #[trigger] prev_t[k] == m;
                            assert(todos@[k] == m);
                        }
                    }
                }
            }
        }
        j = j + 1;
    }
}

/// The indices marked in `r`, as a set.
pub open spec fn marked(r: Seq<bool>) -> Set<int> {
    Set::new(|j: int| 0 <= j < r.len() && r[j])
}

/// Which APIs are reached from the accept-list, by a worklist over the graph.
pub fn reached_flags(apis: &Vec<Api>, db: &TypeDatabase) -> (r: Vec<bool>)
    ensures
        r@.len() == apis@.len(),
        forall|j: int| 0 <= j < apis@.len() ==> #[trigger] r@[j] == reached(*db, apis@, j),
{
    let n = apis.len();
    let mut retained: Vec<bool> = Vec::new();
    let mut processed: Vec<bool> = Vec::new();
    let mut i: usize = 0;
    while i < n
        invariant
            n == apis@.len(),
            i <= n,
            retained@.len() == i,
            processed@.len() == i,
            forall|m: int| 0 <= m < i ==> !retained@[m] && !processed@[m],
        decreases n - i,
    {
        retained.push(false);
        processed.push(false);
        i = i + 1;
    }
    let mut todos: Vec<usize> = Vec::new();
    // Queue everything that shares its name with a root.
    i = 0;
    while i < n
        invariant
            n == apis@.len(),
            i <= n,
            retained@.len() == n,
            processed@.len() == n,
            forall|m: int| 0 <= m < n ==> !#[trigger] processed@[m],
            forall|k: int| 0 <= k < todos@.len() ==> #[trigger] todos@[k] < n
                && retained@[todos@[k] as int],
            forall|m: int| 0 <= m < n && #[trigger] retained@[m] ==> exists|k: int|
                0 <= k < todos@.len() && #[trigger] todos@[k] == m,
            forall|m: int| 0 <= m < n && #[trigger] retained@[m] ==> reached(*db, apis@, m),
            forall|a: int, b: int|
                #![trigger is_root(*db, apis@, a), api_name(apis@[b])]
                0 <= a < i && is_root(*db, apis@, a) && 0 <= b < n && api_name(apis@[b])
                    == api_name(apis@[a]) ==> retained@[b],
        decreases n - i,
    {
        let tn = typename_for_allowlist(&apis[i]);
        if db.is_on_allowlist(&tn) {
            let name = typename(&apis[i]);
            let ghost prev_r = retained@;
            let ghost prev_t = todos@;
            mark_named(apis, &mut retained, &mut todos, &name);
            proof {
                assert forall|m: int| 0 <= m < n && #[trigger] retained@[m] implies reached(
                    *db,
                    apis@,
                    m,
                ) by {
                    if !prev_r[m] {
                        lemma_root_reached(*db, apis@, i as int, m);
                    }
                }
                assert forall|m: int| 0 <= m < n && #[trigger] retained@[m] implies exists|k: int|
                    0 <= k < todos@.len() && #[trigger] todos@[k] == m by {
                    if prev_r[m] {
                        let k = choose|k: int| 0 <= k < prev_t.len() && #[trigger] prev_t[k] == m;
                        assert(todos@.subrange(0, prev_t.len() as int)[k] == todos@[k]);
                    }
                }
                assert forall|k: int| 0 <= k < todos@.len() implies #[trigger] todos@[k] < n
                    && retained@[todos@[k] as int] by {
                    if k < prev_t.len() {
                        assert(todos@.subrange(0, prev_t.len() as int)[k] == todos@[k]);
                    }
                }
            }
        }
        i = i + 1;
    }
    // Follow the dependency edges until nothing is left to visit.
    while todos.len() > 0
        invariant
            n == apis@.len(),
            retained@.len() == n,
            processed@.len() == n,
            forall|k: int| 0 <= k < todos@.len() ==> #[trigger] todos@[k] < n
                && retained@[todos@[k] as int],
            forall|m: int| 0 <= m < n && #[trigger] retained@[m] && !processed@[m] ==> exists|k: int|
                0 <= k < todos@.len() && #[trigger] todos@[k] == m,
            forall|m: int| 0 <= m < n && #[trigger] retained@[m] ==> reached(*db, apis@, m),
            forall|m: int| 0 <= m < n && #[trigger] processed@[m] ==> retained@[m],
            forall|a: int, c: int, b: int|
                #![trigger processed@[a], apis@[a].deps@[c], api_name(apis@[b])]
                0 <= a < n && processed@[a] && 0 <= c < apis@[a].deps@.len() && 0 <= b < n
                    && api_name(apis@[b]) == apis@[a].deps@[c]@ ==> retained@[b],
            forall|a: int, b: int|
                #![trigger is_root(*db, apis@, a), api_name(apis@[b])]
                0 <= a < n && is_root(*db, apis@, a) && 0 <= b < n && api_name(apis@[b])
                    == api_name(apis@[a]) ==> retained@[b],
        decreases count_false(retained@), count_false(processed@), todos@.len(),
    {
        let ghost before_pop = todos@;
        let t = todos.pop().unwrap();
        assert(before_pop[before_pop.len() - 1] == t);
        if !processed[t] {
            let ghost r_start = retained@;
            let ghost t_start = todos@;
            let ghost cf = count_false(retained@);
            let deps = &apis[t].deps;
            let mut c: usize = 0;
            while c < deps.len()
                invariant
                    n == apis@.len(),
                    t < n,
                    deps == apis@[t as int].deps,
                    c <= deps@.len(),
                    retained@.len() == n,
                    processed@.len() == n,
                    !processed@[t as int],
                    retained@[t as int],
                    forall|m: int| 0 <= m < n && r_start[m] ==> #[trigger] retained@[m],
                    count_false(retained@) + todos@.len() == cf + t_start.len(),
                    todos@.len() >= t_start.len(),
                    todos@.subrange(0, t_start.len() as int) == t_start,
                    forall|k: int| 0 <= k < todos@.len() ==> #[trigger] todos@[k] < n
                        && retained@[todos@[k] as int],
                    forall|m: int| 0 <= m < n && #[trigger] retained@[m] && !r_start[m] ==> exists|k: int|
                        t_start.len() <= k < todos@.len() && #[trigger] todos@[k] == m,
                    forall|m: int| 0 <= m < n && #[trigger] retained@[m] ==> reached(*db, apis@, m),
                    forall|e: int, b: int|
                        #![trigger deps@[e], api_name(apis@[b])]
                        0 <= e < c && 0 <= b < n && api_name(apis@[b]) == deps@[e]@ ==> retained@[b],
                decreases deps@.len() - c,
            {
                let ghost prev_r = retained@;
                let ghost prev_t = todos@;
                mark_named(apis, &mut retained, &mut todos, &deps[c]);
                proof {
                    assert forall|m: int| 0 <= m < n && #[trigger] retained@[m] implies reached(
                        *db,
                        apis@,
                        m,
                    ) by {
                        if !prev_r[m] {
                            lemma_reached_closed(*db, apis@, t as int, c as int, m);
                        }
                    }
                    assert forall|m: int|
                        0 <= m < n && #[trigger] retained@[m] && !r_start[m] implies exists|k: int|
                        t_start.len() <= k < todos@.len() && #[trigger] todos@[k] == m by {
                        if prev_r[m] {
                            let k = choose|k: int|
                                t_start.len() <= k < prev_t.len() && #[trigger] prev_t[k] == m;
                            assert(todos@.subrange(0, prev_t.len() as int)[k] == todos@[k]);
                        }
                    }
                    assert forall|k: int| 0 <= k < todos@.len() implies #[trigger] todos@[k] < n
                    && retained@[todos@[k] as int] by {
                        if k < prev_t.len() {
                            assert(todos@.subrange(0, prev_t.len() as int)[k] == todos@[k]);
                        }
                    }
                    assert(todos@.subrange(0, t_start.len() as int) =~= t_start) by {
                        assert forall|k: int| 0 <= k < t_start.len() implies todos@[k] == t_start[k] by {
                            assert(todos@.subrange(0, prev_t.len() as int)[k] == todos@[k]);
                            assert(prev_t.subrange(0, t_start.len() as int)[k] == prev_t[k]);
                        }
                    }
                }
                c = c + 1;
            }
            proof { lemma_count_false_update(processed@, t as int); }
            processed.set(t, true);
            proof {
                assert forall|m: int| 0 <= m < n && #[trigger] retained@[m] && !processed@[m] implies exists|k: int|
                    0 <= k < todos@.len() && #[trigger] todos@[k] == m by {
                    if r_start[m] {
                        let k = choose|k: int| 0 <= k < before_pop.len() && #[trigger] before_pop[k] == m;
                        assert(m != t);
                        assert(k < t_start.len());
                        assert(t_start[k] == m);
                        assert(todos@.subrange(0, t_start.len() as int)[k] == todos@[k]);
                    }
                }
            }
        } else {
            proof {
                assert forall|m: int| 0 <= m < n && #[trigger] retained@[m] && !processed@[m] implies exists|k: int|
                    0 <= k < todos@.len() && #[trigger] todos@[k] == m by {
                    let k = choose|k: int| 0 <= k < before_pop.len() && #[trigger] before_pop[k] == m;
                    assert(m != t);
                    assert(todos@[k] == m);
                }
            }
        }
    }
    proof {
        let s = marked(retained@);
        assert(closed(apis@, s));
        assert(rooted(*db, apis@, s));
        assert forall|j: int| 0 <= j < n implies #[trigger] retained@[j] == reached(*db, apis@, j) by {
            if reached(*db, apis@, j) {
                assert(s.contains(j));
            }
        }
    }
    retained
}

/// `out` is the subsequence of `apis` at the strictly increasing indices `idx`.
pub open spec fn is_subsequence(apis: Seq<Api>, out: Seq<Api>, idx: Seq<int>) -> bool {
    &&& idx.len() == out.len()
    &&& forall|k: int| 0 <= k < idx.len() ==> 0 <= #[trigger] idx[k] < apis.len() && out[k] == apis[idx[k]]
    &&& forall|a: int, b: int| 0 <= a < b < idx.len() ==> #[trigger] idx[a] < #[trigger] idx[b]
}

/// `out` holds, in their original order, exactly the APIs of `apis` that the
/// accept-list reaches.
pub open spec fn is_retained_set(db: TypeDatabase, apis: Seq<Api>, out: Seq<Api>, idx: Seq<int>) -> bool {
    &&& is_subsequence(apis, out, idx)
    &&& forall|j: int| 0 <= j < apis.len() ==> (reached(db, apis, j) <==> exists|k: int|
        0 <= k < idx.len() && #[trigger] idx[k] == j)
}

/// Keeps the APIs that the accept-list reaches through dependency edges, in
/// their original order, and drops the rest. Dependencies that name no API
/// (primitives, denied types) are passed over.
pub fn filter_apis_by_following_edges_from_allowlist(apis: Vec<Api>, db: &TypeDatabase) -> (r: Vec<Api>)
    ensures
        exists|idx: Seq<int>| is_retained_set(*db, apis@, r@, idx),
{
    let flags = reached_flags(&apis, db);
    let ghost orig = apis@;
    let n = apis.len();
    let mut rest = apis;
    let mut out: Vec<Api> = Vec::new();
    let ghost mut idx: Seq<int> = Seq::empty();
    let mut i: usize = 0;
    while i < n
        invariant
            n == orig.len(),
            flags@.len() == n,
            forall|j: int| 0 <= j < n ==> #[trigger] flags@[j] == reached(*db, orig, j),
            i <= n,
            rest@ == orig.subrange(i as int, n as int),
            is_subsequence(orig, out@, idx),
            forall|k: int| 0 <= k < idx.len() ==> #[trigger] idx[k] < i,
            forall|j: int| 0 <= j < i ==> (flags@[j] <==> exists|k: int|
                0 <= k < idx.len() && #[trigger] idx[k] == j),
        decreases n - i,
    {
        assert(rest@[0] == orig[i as int]);
        let a = rest.remove(0);
        assert(rest@ =~= orig.subrange(i + 1, n as int));
        if flags[i] {
            out.push(a);
            proof {
                let old_idx = idx;
                idx = idx.push(i as int);
                assert forall|j: int| 0 <= j < i + 1 implies (flags@[j] <==> exists|k: int|
                    0 <= k < idx.len() && #[trigger] idx[k] == j) by {
                    if j < i && flags@[j] {
                        let k = choose|k: int| 0 <= k < old_idx.len() && #[trigger] old_idx[k] == j;
                        assert(idx[k] == j);
                    }
                    if j == i {
                        assert(idx[idx.len() - 1] == j);
                    }
                }
            }
        } else {
            proof {
                assert forall|j: int| 0 <= j < i + 1 implies (flags@[j] <==> exists|k: int|
                    0 <= k < idx.len() && #[trigger] idx[k] == j) by {
                    if j == i {
                        assert(forall|k: int| 0 <= k < idx.len() ==> idx[k] != j);
                    }
                }
            }
        }
        i = i + 1;
    }
    assert forall|j: int| 0 <= j < orig.len() implies (reached(*db, orig, j) <==> exists|k: int|
        0 <= k < idx.len() && #[trigger] idx[k] == j) by {
        assert(flags@[j] == reached(*db, orig, j));
    }
    assert(is_retained_set(*db, orig, out@, idx));
    out
}

/// Closure: for every retained API, every dependency names either no API at
/// all or an API that is retained as well.
pub proof fn lemma_retained_closed(
    db: TypeDatabase,
    apis: Seq<Api>,
    out: Seq<Api>,
    idx: Seq<int>,
    k: int,
    d: int,
    j: int,
)
    requires
        is_retained_set(db, apis, out, idx),
        0 <= k < out.len(),
        0 <= d < out[k].deps@.len(),
        0 <= j < apis.len(),
        api_name(apis[j]) == out[k].deps@[d]@,
    ensures
        exists|m: int| 0 <= m < out.len() && idx[m] == j && #[trigger] out[m] == apis[j],
{
    let i = idx[k];
    assert(reached(db, apis, i)) by {
        assert(idx[k] == i);
    }
    lemma_reached_closed(db, apis, i, d, j);
    let m = choose|m: int| 0 <= m < idx.len() && #[trigger] idx[m] == j;
    assert(out[m] == apis[j]);
}

} // verus!
