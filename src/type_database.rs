use vstd::prelude::*;

use crate::names::{contains_name, names_contain, NameView, QualName};
use crate::classifier::views;
use crate::gc::{count_false, lemma_count_false_update};

verus! {

/// Redirects a type to the qualified name that stands for it in the output.
pub struct EffectiveType {
    pub from: QualName,
    pub to: QualName,
}

/// The configuration that the conversion consults.
pub struct TypeDatabase {
    /// Names to retain, with what they reach.
    pub allowlist: Vec<QualName>,
    /// Names that never get an API.
    pub blocklist: Vec<QualName>,
    /// Redirections applied before the lists are consulted.
    pub effective_types: Vec<EffectiveType>,
    /// Types that the user asks to hold by value.
    pub pod_requests: Vec<QualName>,
}

/// Where the first entry for `tn` redirects it, if any does.
pub open spec fn effective_in(entries: Seq<EffectiveType>, tn: NameView) -> Option<NameView>
    decreases entries.len(),
{
    if entries.len() == 0 {
        None
    } else if entries[0].from@ == tn {
        Some(entries[0].to@)
    } else {
        effective_in(entries.drop_first(), tn)
    }
}

impl TypeDatabase {
    pub open spec fn allowed(&self, tn: NameView) -> bool {
        names_contain(self.allowlist@, tn)
    }

    pub open spec fn blocked(&self, tn: NameView) -> bool {
        names_contain(self.blocklist@, tn)
    }

    /// The name that stands for `tn` in the output.
    pub open spec fn effective(&self, tn: NameView) -> NameView {
        match effective_in(self.effective_types@, tn) {
            Some(t) => t,
            None => tn,
        }
    }

    pub fn is_on_allowlist(&self, tn: &QualName) -> (r: bool)
        ensures
            r == self.allowed(tn@),
    {
        contains_name(&self.allowlist, tn)
    }

    pub fn is_on_blocklist(&self, tn: &QualName) -> (r: bool)
        ensures
            r == self.blocked(tn@),
    {
        contains_name(&self.blocklist, tn)
    }

    pub fn get_effective_type(&self, tn: &QualName) -> (r: Option<&QualName>)
        ensures
            match r {
                Some(t) => effective_in(self.effective_types@, tn@) == Some(t@),
                None => effective_in(self.effective_types@, tn@) is None,
            },
    {
        let entries = &self.effective_types;
        assert(entries@ == self.effective_types@);
        assert(entries@.subrange(0, entries@.len() as int) =~= entries@);
        let mut i: usize = 0;
        while i < entries.len()
            invariant
                i <= entries.len(),
                entries@ == self.effective_types@,
                effective_in(entries@, tn@) == effective_in(
                    entries@.subrange(i as int, entries@.len() as int),
                    tn@,
                ),
            decreases entries.len() - i,
        {
            assert(entries@.subrange(i as int, entries@.len() as int).drop_first()
                =~= entries@.subrange(i + 1, entries@.len() as int));
            assert(entries@.subrange(i as int, entries@.len() as int)[0] == entries@[i as int]);
            if entries[i].from.same_as(tn) {
                assert(effective_in(entries@.subrange(i as int, entries@.len() as int), tn@)
                    == Some(entries@[i as int].to@));
                return Some(&entries[i].to);
            }
            i = i + 1;
        }
        assert(entries@.subrange(i as int, entries@.len() as int).len() == 0);
        None
    }
}

/// What the classifier knows of one struct.
pub struct TypeFacts {
    pub name: QualName,
    pub has_destructor: bool,
    pub field_types: Vec<QualName>,
}

/// What the classifier reads of one struct: its name, whether it has a
/// destructor, and the types its fields name.
pub type FactView = (NameView, bool, Seq<NameView>);

pub open spec fn fact_view(t: TypeFacts) -> FactView {
    (t.name@, t.has_destructor, views(t.field_types@))
}

pub open spec fn fact_views(ts: Seq<TypeFacts>) -> Seq<FactView> {
    ts.map_values(|t: TypeFacts| fact_view(t))
}

/// Entry `i` holds a value of the type of entry `j` in one of its fields.
pub open spec fn holds_by_value(facts: Seq<FactView>, i: int, j: int) -> bool {
    exists|k: int| 0 <= k < facts[i].2.len() && #[trigger] facts[i].2[k] == facts[j].0
}

/// `s` holds every entry with a destructor, and every entry that holds a
/// value of an entry of `s`.
pub open spec fn unsafe_closed(facts: Seq<FactView>, s: Set<int>) -> bool {
    &&& forall|i: int| 0 <= i < facts.len() && #[trigger] facts[i].1 ==> s.contains(i)
    &&& forall|i: int, j: int|
        0 <= i < facts.len() && 0 <= j < facts.len() && #[trigger] s.contains(j) && #[trigger] holds_by_value(facts, i, j)
            ==> s.contains(i)
}

/// Entry `i` is not safe to hold by value: a destructor is reached from it
/// through fields held by value. Names that no entry carries are primitives,
/// which are safe.
pub open spec fn not_pod_at(facts: Seq<FactView>, i: int) -> bool {
    forall|s: Set<int>| unsafe_closed(facts, s) ==> #[trigger] s.contains(i)
}

/// Decides which types are safe to hold by value.
pub struct ByValueChecker {
    pub facts: Vec<TypeFacts>,
    /// Which entries are not safe to hold by value.
    pub non_pod: Vec<bool>,
}

impl ByValueChecker {
    pub open spec fn wf(&self) -> bool {
        &&& self.non_pod@.len() == self.facts@.len()
        &&& forall|i: int|
            0 <= i < self.facts@.len() ==> #[trigger] self.non_pod@[i] == not_pod_at(fact_views(self.facts@), i)
    }

    /// Whether the type named `tn` is safe to hold by value.
    pub open spec fn pod(&self, tn: NameView) -> bool {
        exists|j: int| 0 <= j < self.facts@.len() && self.facts@[j].name@ == tn && !#[trigger] self.non_pod@[j]
    }

    /// Whether entry `i` holds a value of an entry marked in `marked`.
    fn holds_marked(facts: &Vec<TypeFacts>, marked: &Vec<bool>, i: usize) -> (r: bool)
        requires
            i < facts.len(),
            marked.len() == facts.len(),
        ensures
            r == exists|j: int| 0 <= j < facts@.len() && #[trigger] marked@[j] && holds_by_value(fact_views(facts@), i as int, j),
    {
        let ghost fv = fact_views(facts@);
        let fields = &facts[i].field_types;
        assert(fv[i as int].2 == views(fields@));
        let mut k: usize = 0;
        while k < fields.len()
            invariant
                i < facts.len(),
                marked.len() == facts.len(),
                fv == fact_views(facts@),
                fields == facts@[i as int].field_types,
                k <= fields.len(),
                forall|m: int, j: int| #![trigger fields@[m], marked@[j]]
                    0 <= m < k && 0 <= j < facts@.len() && marked@[j] ==> fields@[m]@ != facts@[j].name@,
            decreases fields.len() - k,
        {
            let mut j: usize = 0;
            while j < facts.len()
                invariant
                    i < facts.len(),
                    marked.len() == facts.len(),
                    fv == fact_views(facts@),
                    fields == facts@[i as int].field_types,
                    k < fields.len(),
                    j <= facts.len(),
                    forall|m: int, q: int| #![trigger fields@[m], marked@[q]]
                        0 <= m < k && 0 <= q < facts@.len() && marked@[q] ==> fields@[m]@ != facts@[q].name@,
                    forall|q: int| 0 <= q < j && #[trigger] marked@[q] ==> fields@[k as int]@ != facts@[q].name@,
                decreases facts.len() - j,
            {
                if marked[j] && facts[j].name.same_as(&fields[k]) {
                    proof {
                        assert(fv[j as int].0 == facts@[j as int].name@);
                        assert(fv[i as int].2[k as int] == fields@[k as int]@);
                        assert(holds_by_value(fv, i as int, j as int));
                    }
                    return true;
                }
                j = j + 1;
            }
            k = k + 1;
        }
        proof {
            assert forall|j: int| 0 <= j < facts@.len() && #[trigger] marked@[j] implies !holds_by_value(fv, i as int, j) by {
                assert forall|m: int| 0 <= m < fv[i as int].2.len() implies #[trigger] fv[i as int].2[m] != fv[j].0 by {
                    assert(fv[i as int].2[m] == fields@[m]@);
                    assert(fv[j].0 == facts@[j].name@);
                }
            }
        }
        false
    }

    /// Classifies every entry of `facts`.
    pub fn new(facts: Vec<TypeFacts>) -> (r: ByValueChecker)
        ensures
            r.wf(),
            r.facts@ == facts@,
    {
        let ghost fv = fact_views(facts@);
        let n = facts.len();
        let mut marked: Vec<bool> = Vec::new();
        let mut i: usize = 0;
        while i < n
            invariant
                n == facts@.len(),
                fv == fact_views(facts@),
                i <= n,
                marked@.len() == i,
                forall|m: int| 0 <= m < i ==> #[trigger] marked@[m] == facts@[m].has_destructor,
                forall|m: int| 0 <= m < i && #[trigger] marked@[m] ==> not_pod_at(fv, m),
            decreases n - i,
        {
            proof {
                if facts@[i as int].has_destructor {
                    assert(fv[i as int].1);
                }
            }
            marked.push(facts[i].has_destructor);
            i = i + 1;
        }
        let mut changed = true;
        while changed
            invariant
                n == facts@.len(),
                fv == fact_views(facts@),
                marked@.len() == n,
                forall|m: int| 0 <= m < n && #[trigger] fv[m].1 ==> marked@[m],
                forall|m: int| 0 <= m < n && #[trigger] marked@[m] ==> not_pod_at(fv, m),
                !changed ==> forall|a: int, b: int|
                    0 <= a < n && 0 <= b < n && #[trigger] marked@[b] && #[trigger] holds_by_value(fv, a, b) ==> marked@[a],
            decreases count_false(marked@) + if changed {
                1nat
            } else {
                0nat
            },
        {
            let ghost start = marked@;
            changed = false;
            let mut i: usize = 0;
            while i < n
                invariant
                    n == facts@.len(),
                    fv == fact_views(facts@),
                    marked@.len() == n,
                    i <= n,
                    forall|m: int| 0 <= m < n && #[trigger] fv[m].1 ==> marked@[m],
                    forall|m: int| 0 <= m < n && #[trigger] marked@[m] ==> not_pod_at(fv, m),
                    changed ==> count_false(marked@) < count_false(start),
                    !changed ==> marked@ == start,
                    !changed ==> forall|a: int, b: int|
                        0 <= a < i && 0 <= b < n && #[trigger] marked@[b] && #[trigger] holds_by_value(fv, a, b) ==> marked@[a],
                decreases n - i,
            {
                if !marked[i] && Self::holds_marked(&facts, &marked, i) {
                    proof {
                        let j = choose|j: int| 0 <= j < n && #[trigger] marked@[j] && holds_by_value(fv, i as int, j);
                        assert forall|s: Set<int>| unsafe_closed(fv, s) implies #[trigger] s.contains(i as int) by {
                            assert(s.contains(j));
                        }
                        lemma_count_false_update(marked@, i as int);
                    }
                    marked.set(i, true);
                    changed = true;
                }
                i = i + 1;
            }
        }
        proof {
            let s = Set::new(|m: int| 0 <= m < n && marked@[m]);
            assert(unsafe_closed(fv, s));
            assert forall|m: int| 0 <= m < n implies #[trigger] marked@[m] == not_pod_at(fv, m) by {
                if not_pod_at(fv, m) {
                    assert(s.contains(m));
                }
            }
        }
        ByValueChecker { facts, non_pod: marked }
    }

    /// Whether some struct of the tree carries the name `tn`.
    pub fn is_known(&self, tn: &QualName) -> (r: bool)
        ensures
            r == exists|j: int| 0 <= j < self.facts@.len() && #[trigger] self.facts@[j].name@ == tn@,
    {
        let mut j: usize = 0;
        while j < self.facts.len()
            invariant
                j <= self.facts.len(),
                forall|m: int| 0 <= m < j ==> self.facts@[m].name@ != tn@,
            decreases self.facts.len() - j,
        {
            if self.facts[j].name.same_as(tn) {
                return true;
            }
            j = j + 1;
        }
        false
    }

    pub fn is_pod(&self, tn: &QualName) -> (r: bool)
        requires
            self.wf(),
        ensures
            r == self.pod(tn@),
    {
        let mut j: usize = 0;
        while j < self.facts.len()
            invariant
                self.wf(),
                j <= self.facts.len(),
                forall|m: int| 0 <= m < j && self.facts@[m].name@ == tn@ ==> #[trigger] self.non_pod@[m],
            decreases self.facts.len() - j,
        {
            if self.facts[j].name.same_as(tn) && !self.non_pod[j] {
                return true;
            }
            j = j + 1;
        }
        false
    }
}

} // verus!
