//! The update planner: decide, from the active profile's installed rows
//! and the catalog, which packages to fetch anew.
//!
//! A row whose package the catalog still carries is updated exactly when
//! both revisions parse as non-negative decimals (one leading `+` is
//! tolerated) and the catalog's is strictly larger; a revision that does
//! not parse fails the whole command with `RevisionFormat`.  Rows of
//! packages the catalog no longer carries are skipped.

use vstd::prelude::*;
use crate::errors::TexError;
use crate::index::{PackageIndex, spec_find};
use crate::pkg::{Package, PackageView};
use crate::state::RowView;
use crate::strutil::{is_dec_string, dec_val, spec_digits_of, parse_u32};

verus! {

/// A revision the updater can compare: a decimal that fits the machine,
/// after one optional leading plus sign.
pub open spec fn spec_rev_ok(s: Seq<char>) -> bool {
    is_dec_string(spec_digits_of(s)) && dec_val(spec_digits_of(s)) <= u32::MAX as nat
}

/// Whether one row calls for an update against the catalog record `p`.
pub open spec fn spec_row_needs_update(row: RowView, p: PackageView) -> bool {
    dec_val(spec_digits_of(p.revision)) > dec_val(spec_digits_of(row.revision))
}

/// Both revisions of every row found in the catalog are comparable.
pub open spec fn spec_revs_ok(idx: Seq<PackageView>, rows: Seq<RowView>) -> bool {
    forall|i: int|
        0 <= i < rows.len() ==> match spec_find(idx, (#[trigger] rows[i]).name) {
            Some(p) => spec_rev_ok(rows[i].revision) && spec_rev_ok(p.revision),
            None => true,
        }
}

/// The plan: the catalog record of every row with a strictly newer
/// catalog revision, in row order.
pub open spec fn spec_update_plan(idx: Seq<PackageView>, rows: Seq<RowView>) -> Seq<PackageView>
    decreases rows.len(),
{
    if rows.len() == 0 {
        Seq::empty()
    } else {
        spec_update_plan(idx, rows.drop_last()) + (match spec_find(idx, rows.last().name) {
            Some(p) => if spec_row_needs_update(rows.last(), p) {
                seq![p]
            } else {
                Seq::empty()
            },
            None => Seq::empty(),
        })
    }
}

/// Decide the update plan for the given installed rows.  Succeeds exactly
/// when every relevant revision parses as a non-negative decimal.
pub fn plan_updates(rows: &Vec<crate::state::InstalledRow>, idx: &PackageIndex) -> (r: Result<
    Vec<Package>,
    TexError,
>)
    requires
        idx.wf(),
    ensures
        match r {
            Ok(plan) => spec_revs_ok(idx@, rows.deep_view()) && plan.deep_view()
                == spec_update_plan(idx@, rows.deep_view()),
            Err(TexError::RevisionFormat(n)) => !spec_revs_ok(idx@, rows.deep_view()) && (exists|
                i: int,
            |
                0 <= i < rows.deep_view().len() && (#[trigger] rows.deep_view()[i]).name == n@
                    && match spec_find(idx@, n@) {
                    Some(p) => !(spec_rev_ok(rows.deep_view()[i].revision) && spec_rev_ok(
                        p.revision,
                    )),
                    None => false,
                }),
            Err(_) => false,
        },
{
    let ghost rv = rows.deep_view();
    let mut plan: Vec<Package> = Vec::new();
    let n = rows.len();
    let mut i: usize = 0;
    proof {
        assert(rv.subrange(0, 0) =~= Seq::<RowView>::empty());
        assert(plan.deep_view() =~= spec_update_plan(idx@, rv.subrange(0, 0)));
    }
    while i < n
        invariant
            0 <= i <= n,
            n == rv.len(),
            rv == rows.deep_view(),
            idx.wf(),
            plan.deep_view() == spec_update_plan(idx@, rv.subrange(0, i as int)),
            forall|k: int|
                0 <= k < i ==> match spec_find(idx@, (#[trigger] rv[k]).name) {
                    Some(p) => spec_rev_ok(rv[k].revision) && spec_rev_ok(p.revision),
                    None => true,
                },
        decreases n - i,
    {
        proof {
            assert(rows@[i as int]@ == rv[i as int]);
            assert(rv.subrange(0, i + 1).drop_last() =~= rv.subrange(0, i as int));
            assert(rv.subrange(0, i + 1).last() == rv[i as int]);
        }
        match idx.get(rows[i].name.as_str()) {
            None => {
                proof {
                    assert(spec_update_plan(idx@, rv.subrange(0, i + 1)) =~= spec_update_plan(
                        idx@,
                        rv.subrange(0, i as int),
                    ));
                }
            },
            Some(pkg) => {
                let current = match parse_u32(rows[i].revision.as_str()) {
                    None => {
                        return Err(TexError::RevisionFormat(rows[i].name.clone()));
                    },
                    Some(v) => v,
                };
                let latest = match parse_u32(pkg.revision.as_str()) {
                    None => {
                        return Err(TexError::RevisionFormat(rows[i].name.clone()));
                    },
                    Some(v) => v,
                };
                if latest > current {
                    let ghost old_dv = plan.deep_view();
                    plan.push(pkg.duplicate());
                    proof {
                        assert(plan.deep_view() =~= old_dv.push(pkg@));
                        assert(old_dv.push(pkg@) =~= old_dv + seq![pkg@]);
                    }
                } else {
                    proof {
                        assert(spec_update_plan(idx@, rv.subrange(0, i + 1)) =~= spec_update_plan(
                            idx@,
                            rv.subrange(0, i as int),
                        ));
                    }
                }
            },
        }
        i = i + 1;
    }
    proof {
        assert(rv.subrange(0, n as int) =~= rv);
    }
    Ok(plan)
}

} // verus!
