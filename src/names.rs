use vstd::prelude::*;
use vstd::string::*;

verus! {

/// A namespace path plus a simple identifier: the unit of identity for
/// every lookup and every dependency edge.
#[derive(Debug)]
pub struct QualName {
    pub ns: Vec<String>,
    pub id: String,
}

/// The mathematical view of a namespace path.
pub open spec fn ns_view(ns: Seq<String>) -> Seq<Seq<char>> {
    ns.map_values(|s: String| s@)
}

impl View for QualName {
    type V = (Seq<Seq<char>>, Seq<char>);

    open spec fn view(&self) -> Self::V {
        (ns_view(self.ns@), self.id@)
    }
}

/// Whether two namespace paths are the same.
pub fn ns_eq(a: &Vec<String>, b: &Vec<String>) -> (r: bool)
    ensures
        r == (ns_view(a@) == ns_view(b@)),
{
    if a.len() != b.len() {
        return false;
    }
    let mut i: usize = 0;
    while i < a.len()
        invariant
            i <= a.len(),
            a.len() == b.len(),
            forall|k: int| 0 <= k < i ==> a@[k]@ == b@[k]@,
        decreases a.len() - i,
    {
        if a[i] != b[i] {
            assert(ns_view(a@)[i as int] != ns_view(b@)[i as int]);
            return false;
        }
        i = i + 1;
    }
    assert(ns_view(a@) =~= ns_view(b@));
    true
}

impl QualName {
    /// Whether two qualified names denote the same item.
    pub fn same_as(&self, other: &QualName) -> (r: bool)
        ensures
            r == (self@ == other@),
    {
        ns_eq(&self.ns, &other.ns) && self.id == other.id
    }
}

/// The view of a qualified name, as used in contracts.
pub type NameView = (Seq<Seq<char>>, Seq<char>);

/// Whether `n` occurs among `names`.
pub open spec fn names_contain(names: Seq<QualName>, n: NameView) -> bool {
    exists|i: int| 0 <= i < names.len() && #[trigger] names[i]@ == n
}

impl Clone for QualName {
    fn clone(&self) -> (r: QualName)
        ensures
            r@ == self@,
    {
        let ns = clone_ns(&self.ns);
        QualName { ns, id: self.id.clone() }
    }
}

/// A copy of a namespace path.
pub fn clone_ns(ns: &Vec<String>) -> (r: Vec<String>)
    ensures
        ns_view(r@) == ns_view(ns@),
        r@.len() == ns@.len(),
{
    let mut r: Vec<String> = Vec::new();
    let mut i: usize = 0;
    while i < ns.len()
        invariant
            i <= ns.len(),
            r@.len() == i,
            forall|k: int| 0 <= k < i ==> r@[k]@ == ns@[k]@,
        decreases ns.len() - i,
    {
        r.push(ns[i].clone());
        i = i + 1;
    }
    assert(ns_view(r@) =~= ns_view(ns@));
    r
}

/// The namespace `ns` extended by one segment.
pub fn ns_push(ns: &Vec<String>, segment: &String) -> (r: Vec<String>)
    ensures
        ns_view(r@) == ns_view(ns@).push(segment@),
{
    let mut r = clone_ns(ns);
    r.push(segment.clone());
    assert(ns_view(r@) =~= ns_view(ns@).push(segment@));
    r
}

/// Whether `n` occurs among `names`.
pub fn contains_name(names: &Vec<QualName>, n: &QualName) -> (r: bool)
    ensures
        r == names_contain(names@, n@),
{
    let mut i: usize = 0;
    while i < names.len()
        invariant
            i <= names.len(),
            forall|k: int| 0 <= k < i ==> names@[k]@ != n@,
        decreases names.len() - i,
    {
        if names[i].same_as(n) {
            return true;
        }
        i = i + 1;
    }
    false
}

/// The native spelling of a namespace: each segment followed by `::`.
pub open spec fn cpp_prefix(ns: Seq<Seq<char>>) -> Seq<char>
    decreases ns.len(),
{
    if ns.len() == 0 {
        Seq::empty()
    } else {
        cpp_prefix(ns.drop_last()) + ns.last() + seq![':', ':']
    }
}

/// The native spelling of a qualified name.
pub open spec fn cpp_name(n: NameView) -> Seq<char> {
    cpp_prefix(n.0) + n.1
}

impl QualName {
    /// The native spelling of this name, as `a::b::Id`.
    pub fn to_cpp_name(&self) -> (r: String)
        ensures
            r@ == cpp_name(self@),
    {
        let ns = &self.ns;
        let mut r = String::new();
        let mut i: usize = 0;
        assert(ns_view(ns@).subrange(0, 0) =~= Seq::<Seq<char>>::empty());
        while i < ns.len()
            invariant
                i <= ns.len(),
                r@ == cpp_prefix(ns_view(ns@).subrange(0, i as int)),
            decreases ns.len() - i,
        {
            proof { reveal_strlit("::"); }
            r.append(ns[i].as_str());
            r.append("::");
            assert(ns_view(ns@).subrange(0, i + 1).drop_last() =~= ns_view(ns@).subrange(0, i as int));
            assert(ns_view(ns@).subrange(0, i + 1).last() == ns@[i as int]@);
            i = i + 1;
        }
        assert(ns_view(ns@).subrange(0, ns@.len() as int) =~= ns_view(ns@));
        r.append(self.id.as_str());
        r
    }
}

} // verus!
