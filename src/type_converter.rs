use vstd::prelude::*;

use crate::model::{AliasTarget, ConvertError, FieldType, RawField};
use crate::names::{NameView, QualName};

verus! {

/// A registered alias.
pub struct Typedef {
    pub name: QualName,
    pub target: AliasTarget,
}

/// Rewrites type references: resolves registered aliases and reports the
/// types that a reference depends on.
pub struct TypeConverter {
    pub typedefs: Vec<Typedef>,
    /// Types for which an API has been generated.
    pub known_types: Vec<QualName>,
}

/// What the first alias registered under `tn` points to, if one is.
pub open spec fn typedef_in(entries: Seq<Typedef>, tn: NameView) -> Option<AliasTarget>
    decreases entries.len(),
{
    if entries.len() == 0 {
        None
    } else if entries[0].name@ == tn {
        Some(entries[0].target)
    } else {
        typedef_in(entries.drop_first(), tn)
    }
}

/// The dependencies of a list of fields, in order: each named type resolved
/// through the aliases, or the textual form of the first alias whose target
/// cannot be expressed.
pub open spec fn field_deps(tds: Seq<Typedef>, fields: Seq<RawField>) -> Result<Seq<NameView>, Seq<char>>
    decreases fields.len(),
{
    if fields.len() == 0 {
        Ok(Seq::empty())
    } else {
        match field_deps(tds, fields.drop_last()) {
            Err(e) => Err(e),
            Ok(p) => match fields.last().ty {
                FieldType::Named(q) => match typedef_in(tds, q@) {
                    Some(AliasTarget::Path(t)) => Ok(p.push(t@)),
                    Some(AliasTarget::Complex(c)) => Err(c@),
                    None => Ok(p.push(q@)),
                },
                _ => Ok(p),
            },
        }
    }
}

impl TypeConverter {
    pub fn new() -> (r: TypeConverter)
        ensures
            r.typedefs@.len() == 0,
            r.known_types@.len() == 0,
    {
        TypeConverter { typedefs: Vec::new(), known_types: Vec::new() }
    }

    /// Registers an alias, so that later references resolve through it.
    pub fn insert_typedef(&mut self, name: QualName, target: AliasTarget)
        ensures
            final(self).typedefs@ == old(self).typedefs@.push(Typedef { name, target }),
            final(self).known_types@ == old(self).known_types@,
    {
        self.typedefs.push(Typedef { name, target });
    }

    /// Records a type for which an API has been generated.
    pub fn push(&mut self, tn: QualName)
        ensures
            final(self).known_types@ == old(self).known_types@.push(tn),
            final(self).typedefs@ == old(self).typedefs@,
    {
        self.known_types.push(tn);
    }

    fn find_typedef(&self, tn: &QualName) -> (r: Option<&AliasTarget>)
        ensures
            match r {
                Some(t) => typedef_in(self.typedefs@, tn@) == Some(*t),
                None => typedef_in(self.typedefs@, tn@) is None,
            },
    {
        let entries = &self.typedefs;
        assert(entries@.subrange(0, entries@.len() as int) =~= entries@);
        let mut i: usize = 0;
        while i < entries.len()
            invariant
                i <= entries.len(),
                entries@ == self.typedefs@,
                typedef_in(entries@, tn@) == typedef_in(
                    entries@.subrange(i as int, entries@.len() as int),
                    tn@,
                ),
            decreases entries.len() - i,
        {
            assert(entries@.subrange(i as int, entries@.len() as int).drop_first()
                =~= entries@.subrange(i + 1, entries@.len() as int));
            assert(entries@.subrange(i as int, entries@.len() as int)[0] == entries@[i as int]);
            if entries[i].name.same_as(tn) {
                return Some(&entries[i].target);
            }
            i = i + 1;
        }
        assert(entries@.subrange(i as int, entries@.len() as int).len() == 0);
        None
    }

    /// The types that a field of type `ty` depends on: the target of the
    /// alias it names, else the named type itself. Markers depend on nothing.
    pub fn convert_type(&self, ty: &FieldType) -> (r: Result<Vec<QualName>, ConvertError>)
        ensures
            match ty {
                FieldType::Named(q) => match typedef_in(self.typedefs@, q@) {
                    Some(AliasTarget::Path(t)) => r is Ok && r->Ok_0@.len() == 1 && r->Ok_0@[0]@
                        == t@,
                    Some(AliasTarget::Complex(s)) => r == Err::<Vec<QualName>, ConvertError>(
                        ConvertError::ComplexTypedefTarget(s),
                    ),
                    None => r is Ok && r->Ok_0@.len() == 1 && r->Ok_0@[0]@ == q@,
                },
                _ => r is Ok && r->Ok_0@.len() == 0,
            },
    {
        match ty {
            FieldType::Named(q) => match self.find_typedef(q) {
                Some(AliasTarget::Path(t)) => Ok(vec![t.clone()]),
                Some(AliasTarget::Complex(s)) => Err(ConvertError::ComplexTypedefTarget(s.clone())),
                None => Ok(vec![q.clone()]),
            },
            _ => Ok(Vec::new()),
        }
    }
    /// The types that a struct's fields depend on.
    pub fn convert_fields(&self, fields: &Vec<RawField>) -> (r: Result<Vec<QualName>, ConvertError>)
        ensures
            match field_deps(self.typedefs@, fields@) {
                Ok(d) => r is Ok && r->Ok_0@.map_values(|q: QualName| q@) == d,
                Err(c) => r matches Err(ConvertError::ComplexTypedefTarget(s)) && s@ == c,
            },
    {
        let mut out: Vec<QualName> = Vec::new();
        let mut i: usize = 0;
        assert(fields@.subrange(0, 0) =~= Seq::<RawField>::empty());
        assert(out@.map_values(|q: QualName| q@) =~= Seq::<NameView>::empty());
        while i < fields.len()
            invariant
                i <= fields.len(),
                field_deps(self.typedefs@, fields@.subrange(0, i as int)) == Ok::<Seq<NameView>, Seq<char>>(
                    out@.map_values(|q: QualName| q@),
                ),
            decreases fields.len() - i,
        {
            assert(fields@.subrange(0, i + 1).drop_last() =~= fields@.subrange(0, i as int));
            assert(fields@.subrange(0, i + 1).last() == fields@[i as int]);
            let ghost before = out@;
            match self.convert_type(&fields[i].ty) {
                Ok(found) => {
                    let mut k: usize = 0;
                    while k < found.len()
                        invariant
                            k <= found.len(),
                            out@.map_values(|q: QualName| q@) == before.map_values(|q: QualName| q@) + found@.subrange(0, k as int).map_values(|q: QualName| q@),
                        decreases found.len() - k,
                    {
                        let ghost prev = out@;
                        out.push(found[k].clone());
                        assert(out@.map_values(|q: QualName| q@) =~= prev.map_values(|q: QualName| q@).push(found@[k as int]@));
                        assert(found@.subrange(0, k + 1).map_values(|q: QualName| q@) =~= found@.subrange(0, k as int).map_values(|q: QualName| q@).push(found@[k as int]@));
                        assert(out@.map_values(|q: QualName| q@) =~= before.map_values(|q: QualName| q@) + found@.subrange(0, k + 1).map_values(|q: QualName| q@));
                        k = k + 1;
                    }
                    assert(found@.subrange(0, found@.len() as int) =~= found@);
                    assert(out@.map_values(|q: QualName| q@) =~= field_deps(self.typedefs@, fields@.subrange(0, i + 1))->Ok_0);
                },
                Err(e) => {
                    assert(field_deps(self.typedefs@, fields@.subrange(0, i + 1)) is Err);
                    proof {
                        assert forall|j: int| i + 1 <= j <= fields@.len() implies #[trigger] field_deps(self.typedefs@, fields@.subrange(0, j)) == field_deps(self.typedefs@, fields@.subrange(0, i + 1)) by {
                            lemma_field_deps_err_stays(self.typedefs@, fields@, i + 1, j);
                        }
                        assert(fields@.subrange(0, fields@.len() as int) =~= fields@);
                    }
                    return Err(e);
                },
            }
            i = i + 1;
        }
        assert(fields@.subrange(0, fields@.len() as int) =~= fields@);
        Ok(out)
    }
}

proof fn lemma_field_deps_err_stays(tds: Seq<Typedef>, fields: Seq<RawField>, a: int, b: int)
    requires
        0 <= a <= b <= fields.len(),
        field_deps(tds, fields.subrange(0, a)) is Err,
    ensures
        field_deps(tds, fields.subrange(0, b)) == field_deps(tds, fields.subrange(0, a)),
    decreases b - a,
{
    if b > a {
        lemma_field_deps_err_stays(tds, fields, a, b - 1);
        assert(fields.subrange(0, b).drop_last() =~= fields.subrange(0, b - 1));
    }
}

/// No registered alias points to a type shape that a bridge alias cannot express.
pub open spec fn complex_free(tds: Seq<Typedef>) -> bool {
    forall|k: int| 0 <= k < tds.len() ==> !(#[trigger] tds[k].target is Complex)
}

proof fn lemma_typedef_in_member(tds: Seq<Typedef>, tn: NameView)
    requires
        typedef_in(tds, tn) is Some,
    ensures
        exists|k: int| 0 <= k < tds.len() && #[trigger] tds[k].target == typedef_in(tds, tn)->Some_0,
    decreases tds.len(),
{
    if tds[0].name@ != tn {
        lemma_typedef_in_member(tds.drop_first(), tn);
        let k = choose|k: int| 0 <= k < tds.drop_first().len() && #[trigger] tds.drop_first()[k].target == typedef_in(tds, tn)->Some_0;
        assert(tds[k + 1] == tds.drop_first()[k]);
    }
}

/// Field dependencies can only fail through an alias with an inexpressible target.
pub proof fn lemma_field_deps_ok(tds: Seq<Typedef>, fields: Seq<RawField>)
    requires
        complex_free(tds),
    ensures
        field_deps(tds, fields) is Ok,
    decreases fields.len(),
{
    if fields.len() > 0 {
        lemma_field_deps_ok(tds, fields.drop_last());
        if let FieldType::Named(q) = fields.last().ty {
            if typedef_in(tds, q@) is Some {
                lemma_typedef_in_member(tds, q@);
            }
        }
    }
}

} // verus!
