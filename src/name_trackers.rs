use vstd::prelude::*;
use vstd::string::*;

use crate::names::{clone_ns, contains_name, names_contain, ns_view, QualName};

verus! {

/// Whether `s` occurs among `names`.
pub open spec fn strings_contain(names: Seq<String>, s: Seq<char>) -> bool {
    exists|i: int| 0 <= i < names.len() && #[trigger] names[i]@ == s
}

/// The prefix that brings a namespace into an identifier: each segment
/// followed by an underscore.
pub open spec fn ns_prefix(ns: Seq<Seq<char>>) -> Seq<char>
    decreases ns.len(),
{
    if ns.len() == 0 {
        Seq::empty()
    } else {
        ns_prefix(ns.drop_last()) + ns.last() + seq!['_']
    }
}

/// `k` underscores.
pub open spec fn underscores(k: nat) -> Seq<char>
    decreases k,
{
    if k == 0 {
        Seq::empty()
    } else {
        underscores((k - 1) as nat) + seq!['_']
    }
}

/// The candidate bridge names for `name` in `ns`, after the name itself:
/// the namespace-qualified name, then that name with `k` trailing underscores.
pub open spec fn qualified_candidate(ns: Seq<Seq<char>>, name: Seq<char>, k: nat) -> Seq<char> {
    ns_prefix(ns) + name + underscores(k)
}

/// Keeps every bridge-visible name unique: the bridge has no namespaces.
pub struct BridgeNameTracker {
    pub used: Vec<String>,
}

/// Keeps host-visible names unique within each namespace.
pub struct RustNameTracker {
    pub used: Vec<QualName>,
}

/// Whether `s` occurs among `names`.
pub fn string_contains(names: &Vec<String>, s: &String) -> (r: bool)
    ensures
        r == strings_contain(names@, s@),
{
    let mut i: usize = 0;
    while i < names.len()
        invariant
            i <= names.len(),
            forall|k: int| 0 <= k < i ==> names@[k]@ != s@,
        decreases names.len() - i,
    {
        if names[i] == *s {
            return true;
        }
        i = i + 1;
    }
    false
}

fn longest(names: &Vec<String>) -> (r: usize)
    ensures
        forall|i: int| 0 <= i < names.len() ==> #[trigger] names@[i]@.len() <= r,
{
    let mut m: usize = 0;
    let mut i: usize = 0;
    while i < names.len()
        invariant
            i <= names.len(),
            forall|k: int| 0 <= k < i ==> #[trigger] names@[k]@.len() <= m,
        decreases names.len() - i,
    {
        let l = names[i].as_str().unicode_len();
        if l > m {
            m = l;
        }
        i = i + 1;
    }
    m
}

/// The namespace prefix of `ns` as a string.
pub fn make_ns_prefix(ns: &Vec<String>) -> (r: String)
    ensures
        r@ == ns_prefix(ns_view(ns@)),
{
    let mut r = String::new();
    let mut i: usize = 0;
    proof { reveal_strlit("_"); }
    assert(ns_view(ns@).subrange(0, 0) =~= Seq::<Seq<char>>::empty());
    while i < ns.len()
        invariant
            i <= ns.len(),
            r@ == ns_prefix(ns_view(ns@).subrange(0, i as int)),
        decreases ns.len() - i,
    {
        proof { reveal_strlit("_"); }
        r.append(ns[i].as_str());
        r.append("_");
        assert(ns_view(ns@).subrange(0, i + 1).drop_last() =~= ns_view(ns@).subrange(0, i as int));
        assert(ns_view(ns@).subrange(0, i + 1).last() == ns@[i as int]@);
        i = i + 1;
    }
    assert(ns_view(ns@).subrange(0, ns@.len() as int) =~= ns_view(ns@));
    r
}

impl BridgeNameTracker {
    pub fn new() -> (r: BridgeNameTracker)
        ensures
            r.used@.len() == 0,
    {
        BridgeNameTracker { used: Vec::new() }
    }

    /// A bridge name for `found_name` of namespace `ns` that no earlier call
    /// returned: the name itself where it is free, else the first free one of
    /// the namespace-qualified name followed by zero or more underscores.
    pub fn get_unique_cxx_bridge_name(&mut self, found_name: &String, ns: &Vec<String>) -> (r:
        String)
        ensures
            !strings_contain(old(self).used@, r@),
            final(self).used@ == old(self).used@.push(r),
            !strings_contain(old(self).used@, found_name@) ==> r@ == found_name@,
            strings_contain(old(self).used@, found_name@) ==> exists|k: nat|
                r@ == qualified_candidate(ns_view(ns@), found_name@, k) && forall|j: nat|
                    j < k ==> strings_contain(
                        old(self).used@,
                        #[trigger] qualified_candidate(ns_view(ns@), found_name@, j),
                    ),
    {
        if !string_contains(&self.used, found_name) {
            let r = found_name.clone();
            self.used.push(found_name.clone());
            return r;
        }
        let limit = longest(&self.used);
        let mut cand = make_ns_prefix(ns);
        cand.append(found_name.as_str());
        let ghost mut k: nat = 0;
        proof {
            reveal_strlit("_");
            assert(cand@ =~= qualified_candidate(ns_view(ns@), found_name@, 0));
        }
        while string_contains(&self.used, &cand)
            invariant
                cand@ == qualified_candidate(ns_view(ns@), found_name@, k),
                forall|j: nat|
                    j < k ==> strings_contain(
                        self.used@,
                        #[trigger] qualified_candidate(ns_view(ns@), found_name@, j),
                    ),
                forall|i: int| 0 <= i < self.used.len() ==> #[trigger] self.used@[i]@.len() <= limit,
            decreases limit + 1 - cand@.len(),
        {
            proof {
                reveal_strlit("_");
                let i = choose|i: int| 0 <= i < self.used@.len() && #[trigger] self.used@[i]@ == cand@;
                assert(self.used@[i]@.len() <= limit);
                assert(qualified_candidate(ns_view(ns@), found_name@, k + 1)
                    =~= qualified_candidate(ns_view(ns@), found_name@, k) + seq!['_']);
            }
            cand.append("_");
            proof { k = k + 1; }
        }
        let r = cand.clone();
        self.used.push(cand);
        r
    }
}

impl RustNameTracker {
    pub fn new() -> (r: RustNameTracker)
        ensures
            r.used@.len() == 0,
    {
        RustNameTracker { used: Vec::new() }
    }

    /// Accepts `name` in namespace `ns` once: later requests for the same
    /// name in the same namespace are refused.
    pub fn ok_to_use_rust_name(&mut self, ns: &Vec<String>, name: &String) -> (r: bool)
        ensures
            r == !names_contain(old(self).used@, (ns_view(ns@), name@)),
            r ==> final(self).used@.len() == old(self).used@.len() + 1
                && final(self).used@.drop_last() == old(self).used@
                && final(self).used@.last()@ == (ns_view(ns@), name@),
            !r ==> final(self).used@ == old(self).used@,
    {
        let q = QualName { ns: clone_ns(ns), id: name.clone() };
        if contains_name(&self.used, &q) {
            false
        } else {
            self.used.push(q);
            assert(self.used@.drop_last() =~= old(self).used@);
            true
        }
    }
}

} // verus!
