//! The package index: the in-memory mapping from package name to record,
//! with unique names.

use vstd::prelude::*;
use crate::pkg::{Package, PackageView};
use crate::strutil::str_eq;

verus! {

/// The record in `s` whose name is `name`, scanning from the front.
/// Under the uniqueness invariant there is at most one.
pub open spec fn spec_find(s: Seq<PackageView>, name: Seq<char>) -> Option<PackageView>
    decreases s.len(),
{
    if s.len() == 0 {
        None
    } else if s[0].name == name {
        Some(s[0])
    } else {
        spec_find(s.drop_first(), name)
    }
}

/// Whether `s` holds a record named `name`.
pub open spec fn spec_has_name(s: Seq<PackageView>, name: Seq<char>) -> bool {
    spec_find(s, name) is Some
}

/// A mapping from package name to package record; names are unique.
pub struct PackageIndex {
    pub packages: Vec<Package>,
}

impl View for PackageIndex {
    type V = Seq<PackageView>;

    open spec fn view(&self) -> Seq<PackageView> {
        self.packages.deep_view()
    }
}

impl PackageIndex {
    /// Names are pairwise distinct: the index is a mapping.
    pub open spec fn wf(&self) -> bool {
        forall|i: int, j: int|
            0 <= i < j < self@.len() ==> (#[trigger] self@[i].name) != (#[trigger] self@[j].name)
    }

    pub fn new() -> (r: PackageIndex)
        ensures
            r@ =~= Seq::<PackageView>::empty(),
            r.wf(),
    {
        PackageIndex { packages: Vec::new() }
    }

    pub fn len(&self) -> (r: usize)
        ensures
            r == self@.len(),
    {
        self.packages.len()
    }

    /// Look a package up by name.
    pub fn get(&self, name: &str) -> (r: Option<&Package>)
        ensures
            match r {
                Some(p) => spec_find(self@, name@) == Some(p@),
                None => spec_find(self@, name@) is None,
            },
    {
        let n = self.packages.len();
        let mut i: usize = 0;
        proof {
            assert(self@.skip(0) =~= self@);
        }
        while i < n
            invariant
                0 <= i <= n,
                n == self@.len(),
                spec_find(self@, name@) == spec_find(self@.skip(i as int), name@),
            decreases n - i,
        {
            proof {
                assert(self@.skip(i as int)[0] == self@[i as int]);
                assert(self@.skip(i as int).drop_first() =~= self@.skip(i + 1));
            }
            if str_eq(self.packages[i].name.as_str(), name) {
                return Some(&self.packages[i]);
            }
            i = i + 1;
        }
        proof {
            assert(self@.skip(n as int).len() == 0);
        }
        None
    }

    /// Insert a record; an existing record of the same name is replaced
    /// (last write wins).
    pub fn insert(&mut self, pkg: Package)
        requires
            old(self).wf(),
        ensures
            final(self).wf(),
            spec_find(final(self)@, pkg@.name) == Some(pkg@),
            forall|n: Seq<char>|
                n != pkg@.name ==> #[trigger] spec_find(final(self)@, n) == spec_find(
                    old(self)@,
                    n,
                ),
    {
        let ghost pv = pkg@;
        let n = self.packages.len();
        let mut i: usize = 0;
        while i < n
            invariant
                0 <= i <= n,
                n == self@.len(),
                self@ == old(self)@,
                forall|k: int| 0 <= k < i ==> (#[trigger] self@[k].name) != pv.name,
                pv == pkg@,
                old(self).wf(),
            decreases n - i,
        {
            if str_eq(self.packages[i].name.as_str(), pkg.name.as_str()) {
                let ghost old_view = self@;
                self.packages.set(i, pkg);
                proof {
                    assert(self@ =~= old_view.update(i as int, pv));
                    assert(self@[i as int].name == old_view[i as int].name);
                    assert forall|a: int, b: int|
                        0 <= a < b < self@.len() implies (#[trigger] self@[a].name) != (
                    #[trigger] self@[b].name) by {
                        assert(self@[a].name == old_view[a].name);
                        assert(self@[b].name == old_view[b].name);
                        assert(old_view[a].name != old_view[b].name);
                    };
                    lemma_find_update(old_view, i as int, pv);
                    assert forall|nm: Seq<char>|
                        nm != pv.name implies #[trigger] spec_find(self@, nm) == spec_find(
                        old_view,
                        nm,
                    ) by {
                        lemma_find_update_other(old_view, i as int, pv, nm);
                    };
                }
                return ;
            }
            i = i + 1;
        }
        let ghost old_view = self@;
        self.packages.push(pkg);
        proof {
            assert(self@ =~= old_view.push(pv));
            lemma_find_push(old_view, pv);
            assert forall|nm: Seq<char>|
                nm != pv.name implies #[trigger] spec_find(self@, nm) == spec_find(
                old_view,
                nm,
            ) by {
                lemma_find_push_other(old_view, pv, nm);
            };
        }
    }
}

/// After replacing position `i` (whose name already was `p.name` — or is
/// being given it) the front-scan finds `p` for that name, provided no
/// earlier record bears it.
proof fn lemma_find_update(s: Seq<PackageView>, i: int, p: PackageView)
    requires
        0 <= i < s.len(),
        forall|k: int| 0 <= k < i ==> (#[trigger] s[k].name) != p.name,
    ensures
        spec_find(s.update(i, p), p.name) == Some(p),
    decreases i,
{
    let t = s.update(i, p);
    if i == 0 {
        assert(t[0] == p);
    } else {
        assert(t[0] == s[0]);
        assert(t.drop_first() =~= s.drop_first().update(i - 1, p));
        lemma_find_update(s.drop_first(), i - 1, p);
    }
}

proof fn lemma_find_update_other(s: Seq<PackageView>, i: int, p: PackageView, nm: Seq<char>)
    requires
        0 <= i < s.len(),
        s[i].name == p.name,
        nm != p.name,
    ensures
        spec_find(s.update(i, p), nm) == spec_find(s, nm),
    decreases i,
{
    let t = s.update(i, p);
    if i == 0 {
        assert(t.drop_first() =~= s.drop_first());
    } else {
        assert(t[0] == s[0]);
        if s[0].name == nm {
        } else {
            assert(t.drop_first() =~= s.drop_first().update(i - 1, p));
            lemma_find_update_other(s.drop_first(), i - 1, p, nm);
        }
    }
}

proof fn lemma_find_push(s: Seq<PackageView>, p: PackageView)
    requires
        forall|k: int| 0 <= k < s.len() ==> (#[trigger] s[k].name) != p.name,
    ensures
        spec_find(s.push(p), p.name) == Some(p),
    decreases s.len(),
{
    let t = s.push(p);
    if s.len() == 0 {
        assert(t[0] == p);
    } else {
        assert(t[0] == s[0]);
        assert(t.drop_first() =~= s.drop_first().push(p));
        lemma_find_push(s.drop_first(), p);
    }
}

proof fn lemma_find_push_other(s: Seq<PackageView>, p: PackageView, nm: Seq<char>)
    requires
        nm != p.name,
    ensures
        spec_find(s.push(p), nm) == spec_find(s, nm),
    decreases s.len(),
{
    let t = s.push(p);
    if s.len() == 0 {
        assert(t[0] == p);
        assert(t.drop_first() =~= Seq::<PackageView>::empty());
        assert(spec_find(Seq::<PackageView>::empty(), nm) is None);
    } else {
        assert(t[0] == s[0]);
        if s[0].name == nm {
        } else {
            assert(t.drop_first() =~= s.drop_first().push(p));
            lemma_find_push_other(s.drop_first(), p, nm);
        }
    }
}

/// Finding a name says it sits at some position.
pub proof fn lemma_find_position(s: Seq<PackageView>, name: Seq<char>)
    requires
        spec_find(s, name) is Some,
    ensures
        exists|i: int|
            0 <= i < s.len() && (#[trigger] s[i]).name == name && spec_find(s, name) == Some(
                s[i],
            ),
    decreases s.len(),
{
    if s.len() > 0 {
        if s[0].name == name {
            assert(s[0].name == name && spec_find(s, name) == Some(s[0]));
        } else {
            lemma_find_position(s.drop_first(), name);
            let i = choose|i: int|
                0 <= i < s.drop_first().len() && (#[trigger] s.drop_first()[i]).name == name
                    && spec_find(s.drop_first(), name) == Some(s.drop_first()[i]);
            assert(s[i + 1].name == name && spec_find(s, name) == Some(s[i + 1]));
        }
    }
}

/// A found record bears the name it was looked up by.
pub proof fn lemma_find_name(s: Seq<PackageView>, name: Seq<char>)
    requires
        spec_find(s, name) is Some,
    ensures
        spec_find(s, name).unwrap().name == name,
    decreases s.len(),
{
    if s.len() > 0 && s[0].name != name {
        lemma_find_name(s.drop_first(), name);
    }
}

/// With distinct names, the scan finds exactly the record at a position.
pub proof fn lemma_find_at_unique(s: Seq<PackageView>, i: int)
    requires
        0 <= i < s.len(),
        forall|a: int, b: int|
            0 <= a < b < s.len() ==> (#[trigger] s[a].name) != (#[trigger] s[b].name),
    ensures
        spec_find(s, s[i].name) == Some(s[i]),
    decreases i,
{
    if i == 0 {
    } else {
        assert(s[0].name != s[i].name);
        assert(s.drop_first()[i - 1] == s[i]);
        assert forall|a: int, b: int|
            0 <= a < b < s.drop_first().len() implies (#[trigger] s.drop_first()[a].name) != (
        #[trigger] s.drop_first()[b].name) by {
            assert(s.drop_first()[a] == s[a + 1]);
            assert(s.drop_first()[b] == s[b + 1]);
        };
        lemma_find_at_unique(s.drop_first(), i - 1);
    }
}

/// A position bearing the name says the scan succeeds.
pub proof fn lemma_position_find(s: Seq<PackageView>, i: int)
    requires
        0 <= i < s.len(),
    ensures
        spec_find(s, s[i].name) is Some,
    decreases i,
{
    if s[0].name == s[i].name {
    } else {
        assert(i > 0);
        assert(s.drop_first()[i - 1] == s[i]);
        lemma_position_find(s.drop_first(), i - 1);
    }
}

} // verus!
