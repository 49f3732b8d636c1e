//! The read-only commands: `list`, `profile list` and `backup list`.

use vstd::prelude::*;
use crate::errors::TexError;
use crate::search::{insert_sorted, spec_sorted_names};
use crate::state::{
    TexState, InstalledRow, RowView, BackupRowView, spec_row_find, lemma_row_position_some,
};
use crate::strutil::{str_eq, vec_contains_str};

verus! {

/// One line of `profile list`.
pub struct ProfileEntry {
    pub name: String,
    pub is_active: bool,
}

#[verifier::ext_equal]
pub struct ProfileEntryView {
    pub name: Seq<char>,
    pub is_active: bool,
}

impl View for ProfileEntry {
    type V = ProfileEntryView;

    open spec fn view(&self) -> ProfileEntryView {
        ProfileEntryView { name: self.name@, is_active: self.is_active }
    }
}

impl DeepView for ProfileEntry {
    type V = ProfileEntryView;

    open spec fn deep_view(&self) -> ProfileEntryView {
        self.view()
    }
}

/// One line of `backup list`.
pub struct BackupSummary {
    pub name: String,
    pub created_at: i64,
    pub packages: usize,
}

#[verifier::ext_equal]
pub struct BackupSummaryView {
    pub name: Seq<char>,
    pub created_at: int,
    pub packages: nat,
}

impl View for BackupSummary {
    type V = BackupSummaryView;

    open spec fn view(&self) -> BackupSummaryView {
        BackupSummaryView {
            name: self.name@,
            created_at: self.created_at as int,
            packages: self.packages as nat,
        }
    }
}

impl DeepView for BackupSummary {
    type V = BackupSummaryView;

    open spec fn deep_view(&self) -> BackupSummaryView {
        self.view()
    }
}

/// The names of listed rows, in order.
pub open spec fn spec_row_names(rows: Seq<RowView>) -> Seq<Seq<char>> {
    rows.map_values(|r: RowView| r.name)
}

/// `list`: the active profile's installed rows, ordered by name.  A name
/// is listed exactly when the profile has a row for it, and each listed
/// row is that row.
pub fn list_installed(st: &TexState) -> (r: Result<Vec<InstalledRow>, TexError>)
    requires
        st.wf(),
    ensures
        match r {
            Err(TexError::NoActiveProfile) => st@.active is None,
            Ok(rows) => {
                let a = st@.active.unwrap();
                &&& st@.active is Some
                &&& spec_sorted_names(spec_row_names(rows.deep_view()))
                &&& spec_row_names(rows.deep_view()).no_duplicates()
                &&& forall|i: int|
                    0 <= i < rows.deep_view().len() ==> spec_row_find(
                        st@.installed,
                        a,
                        (#[trigger] rows.deep_view()[i]).name,
                    ) == Some(rows.deep_view()[i]) && rows.deep_view()[i].profile == a
                &&& forall|nm: Seq<char>|
                    #[trigger] spec_row_names(rows.deep_view()).contains(nm) <==> spec_row_find(
                        st@.installed,
                        a,
                        nm,
                    ) is Some
            },
            Err(_) => false,
        },
{
    let a: String = match &st.active {
        None => {
            return Err(TexError::NoActiveProfile);
        },
        Some(x) => x.clone(),
    };
    let ghost av = a@;
    proof {
        assert(av == st@.active.unwrap());
    }
    // the profile's names, sorted
    let ghost all = st@.installed;
    let mut names: Vec<String> = Vec::new();
    let n = st.installed.len();
    let mut i: usize = 0;
    while i < n
        invariant
            0 <= i <= n,
            n == all.len(),
            all == st@.installed,
            st.wf(),
            av == a@,
            spec_sorted_names(names.deep_view()),
            names.deep_view().no_duplicates(),
            forall|nm: Seq<char>|
                #[trigger] names.deep_view().contains(nm) <==> (exists|k: int|
                    0 <= k < i && (#[trigger] all[k]).profile == av && all[k].name == nm),
        decreases n - i,
    {
        proof {
            assert(st.installed@[i as int]@ == all[i as int]);
        }
        if str_eq(st.installed[i].profile.as_str(), a.as_str()) {
            proof {
                assert(!names.deep_view().contains(all[i as int].name)) by {
                    if names.deep_view().contains(all[i as int].name) {
                        let k = choose|k: int|
                            0 <= k < i && (#[trigger] all[k]).profile == av && all[k].name
                                == all[i as int].name;
                    }
                };
            }
            let ghost before = names.deep_view();
            insert_sorted(&mut names, st.installed[i].name.clone());
            proof {
                assert forall|nm: Seq<char>|
                    #[trigger] names.deep_view().contains(nm) <==> (exists|k: int|
                        0 <= k < i + 1 && (#[trigger] all[k]).profile == av && all[k].name
                            == nm) by {
                    if names.deep_view().contains(nm) {
                        if before.contains(nm) {
                        } else {
                            assert(nm == all[i as int].name);
                            assert((all[i as int]).profile == av && all[i as int].name == nm);
                        }
                    } else {
                        if exists|k: int|
                            0 <= k < i + 1 && (#[trigger] all[k]).profile == av && all[k].name
                                == nm {
                            let k = choose|k: int|
                                0 <= k < i + 1 && (#[trigger] all[k]).profile == av && all[k].name
                                    == nm;
                            if k < i {
                                assert(before.contains(nm));
                            }
                            assert(false);
                        }
                    }
                };
            }
        } else {
            proof {
                assert forall|nm: Seq<char>|
                    #[trigger] names.deep_view().contains(nm) <==> (exists|k: int|
                        0 <= k < i + 1 && (#[trigger] all[k]).profile == av && all[k].name
                            == nm) by {
                    if names.deep_view().contains(nm) {
                        let k = choose|k: int|
                            0 <= k < i && (#[trigger] all[k]).profile == av && all[k].name == nm;
                    } else {
                        if exists|k: int|
                            0 <= k < i + 1 && (#[trigger] all[k]).profile == av && all[k].name
                                == nm {
                            let k = choose|k: int|
                                0 <= k < i + 1 && (#[trigger] all[k]).profile == av && all[k].name
                                    == nm;
                            assert(k < i);
                        }
                    }
                };
            }
        }
        i = i + 1;
    }
    // look each name's row up, in sorted order
    let ghost nv = names.deep_view();
    let mut out: Vec<InstalledRow> = Vec::new();
    let m = names.len();
    let mut j: usize = 0;
    while j < m
        invariant
            0 <= j <= m,
            m == nv.len(),
            nv == names.deep_view(),
            all == st@.installed,
            st.wf(),
            av == a@,
            out.deep_view().len() == j,
            forall|k: int|
                0 <= k < j ==> spec_row_find(all, av, nv[k]) == Some(
                    #[trigger] out.deep_view()[k],
                ) && out.deep_view()[k].name == nv[k] && out.deep_view()[k].profile == av,
            forall|nm: Seq<char>|
                #[trigger] nv.contains(nm) <==> (exists|k: int|
                    0 <= k < all.len() && (#[trigger] all[k]).profile == av && all[k].name == nm),
        decreases m - j,
    {
        proof {
            assert(names@[j as int]@ == nv[j as int]);
            assert(nv.contains(nv[j as int]));
            let k = choose|k: int|
                0 <= k < all.len() && (#[trigger] all[k]).profile == av && all[k].name == nv[j as int];
            lemma_row_position_some(all, k);
        }
        let pos = match crate::state::row_position(&st.installed, a.as_str(), names[j].as_str()) {
            None => {
                proof {
                    assert(false);
                }
                return Err(TexError::NoActiveProfile);
            },
            Some(p) => p,
        };
        let ghost found = all[pos as int];
        let row = InstalledRow {
            profile: a.clone(),
            name: names[j].clone(),
            revision: st.installed[pos].revision.clone(),
        };
        let ghost before = out.deep_view();
        out.push(row);
        proof {
            assert(st.installed@[pos as int]@ == all[pos as int]);
            assert(out.deep_view() =~= before.push(
                RowView { profile: av, name: nv[j as int], revision: found.revision },
            ));
            assert(RowView { profile: av, name: nv[j as int], revision: found.revision }
                =~= found);
        }
        j = j + 1;
    }
    proof {
        assert(spec_row_names(out.deep_view()) =~= nv);
        assert forall|nm: Seq<char>| #[trigger] spec_row_names(out.deep_view()).contains(nm)
            <==> spec_row_find(all, av, nm) is Some by {
            if nv.contains(nm) {
                let k = choose|k: int|
                    0 <= k < all.len() && (#[trigger] all[k]).profile == av && all[k].name == nm;
                lemma_row_position_some(all, k);
            } else {
                if spec_row_find(all, av, nm) is Some {
                    assert(exists|k: int|
                        0 <= k < all.len() && (#[trigger] all[k]).profile == av && all[k].name
                            == nm) by {
                        lemma_row_find_some_position(all, av, nm);
                    };
                }
            }
        };
    }
    Ok(out)
}

/// A successful keyed lookup points at a position with that key.
pub proof fn lemma_row_find_some_position(rows: Seq<RowView>, profile: Seq<char>, name: Seq<char>)
    requires
        spec_row_find(rows, profile, name) is Some,
    ensures
        exists|k: int|
            0 <= k < rows.len() && (#[trigger] rows[k]).profile == profile && rows[k].name == name,
    decreases rows.len(),
{
    if rows[0].profile == profile && rows[0].name == name {
        assert((rows[0]).profile == profile && rows[0].name == name);
    } else {
        lemma_row_find_some_position(rows.drop_first(), profile, name);
        let k = choose|k: int|
            0 <= k < rows.drop_first().len() && (#[trigger] rows.drop_first()[k]).profile
                == profile && rows.drop_first()[k].name == name;
        assert((rows[k + 1]).profile == profile && rows[k + 1].name == name);
    }
}

/// `profile list`: every profile in directory order, the active one
/// marked.
pub fn list_profiles(st: &TexState) -> (r: Vec<ProfileEntry>)
    ensures
        r.deep_view().len() == st@.profiles.len(),
        forall|i: int|
            0 <= i < r.deep_view().len() ==> (#[trigger] r.deep_view()[i]).name
                == st@.profiles[i].name && r.deep_view()[i].is_active == (st@.active == Some(
                st@.profiles[i].name,
            )),
{
    let mut out: Vec<ProfileEntry> = Vec::new();
    let n = st.profiles.len();
    let mut i: usize = 0;
    while i < n
        invariant
            0 <= i <= n,
            n == st@.profiles.len(),
            out.deep_view().len() == i,
            forall|k: int|
                0 <= k < i ==> (#[trigger] out.deep_view()[k]).name == st@.profiles[k].name
                    && out.deep_view()[k].is_active == (st@.active == Some(st@.profiles[k].name)),
        decreases n - i,
    {
        proof {
            assert(st.profiles@[i as int]@ == st@.profiles[i as int]);
        }
        let is_active = match &st.active {
            Some(act) => str_eq(act.as_str(), st.profiles[i].name.as_str()),
            None => false,
        };
        proof {
            match st@.active {
                Some(act) => {
                    assert(is_active == (act == st@.profiles[i as int].name));
                    if is_active {
                        assert(st@.active == Some(st@.profiles[i as int].name));
                    } else {
                        assert(st@.active != Some(st@.profiles[i as int].name));
                    }
                },
                None => {
                    assert(st@.active != Some(st@.profiles[i as int].name));
                },
            }
        }
        let ghost before = out.deep_view();
        out.push(ProfileEntry { name: st.profiles[i].name.clone(), is_active });
        proof {
            assert(out.deep_view() =~= before.push(
                ProfileEntryView { name: st@.profiles[i as int].name, is_active },
            ));
        }
        i = i + 1;
    }
    out
}

/// The names of backup summaries, in order.
pub open spec fn spec_summary_names(s: Seq<BackupSummaryView>) -> Seq<Seq<char>> {
    s.map_values(|b: BackupSummaryView| b.name)
}

/// How many rows a backup holds.
pub open spec fn spec_backup_count(rows: Seq<BackupRowView>, bn: Seq<char>) -> nat
    decreases rows.len(),
{
    if rows.len() == 0 {
        0
    } else {
        spec_backup_count(rows.drop_last(), bn) + (if rows.last().backup_name == bn {
            1nat
        } else {
            0
        })
    }
}

/// The earliest creation stamp among a backup's rows; the maximum stamp
/// when it has none.
pub open spec fn spec_backup_min(rows: Seq<BackupRowView>, bn: Seq<char>) -> int
    decreases rows.len(),
{
    if rows.len() == 0 {
        i64::MAX as int
    } else {
        let rest = spec_backup_min(rows.drop_last(), bn);
        if rows.last().backup_name == bn && rows.last().created_at < rest {
            rows.last().created_at
        } else {
            rest
        }
    }
}

/// `backup list`: each distinct backup name, ordered, with the earliest
/// creation stamp and the number of rows it holds.
pub fn list_backups(st: &TexState) -> (r: Vec<BackupSummary>)
    requires
        st.wf(),
    ensures
        spec_sorted_names(spec_summary_names(r.deep_view())),
        spec_summary_names(r.deep_view()).no_duplicates(),
        forall|i: int|
            0 <= i < r.deep_view().len() ==> (#[trigger] r.deep_view()[i]).created_at
                == spec_backup_min(st@.backups, r.deep_view()[i].name) && r.deep_view()[i].packages
                == spec_backup_count(st@.backups, r.deep_view()[i].name),
        forall|nm: Seq<char>|
            #[trigger] spec_summary_names(r.deep_view()).contains(nm) <==> (exists|k: int|
                0 <= k < st@.backups.len() && (#[trigger] st@.backups[k]).backup_name == nm),
{
    let ghost all = st@.backups;
    let mut names: Vec<String> = Vec::new();
    let n = st.backups.len();
    let mut i: usize = 0;
    while i < n
        invariant
            0 <= i <= n,
            n == all.len(),
            all == st@.backups,
            spec_sorted_names(names.deep_view()),
            names.deep_view().no_duplicates(),
            forall|nm: Seq<char>|
                #[trigger] names.deep_view().contains(nm) <==> (exists|k: int|
                    0 <= k < i && (#[trigger] all[k]).backup_name == nm),
        decreases n - i,
    {
        proof {
            assert(st.backups@[i as int]@ == all[i as int]);
        }
        if !vec_contains_str(&names, st.backups[i].backup_name.as_str()) {
            let ghost before = names.deep_view();
            insert_sorted(&mut names, st.backups[i].backup_name.clone());
            proof {
                assert forall|nm: Seq<char>|
                    #[trigger] names.deep_view().contains(nm) <==> (exists|k: int|
                        0 <= k < i + 1 && (#[trigger] all[k]).backup_name == nm) by {
                    if names.deep_view().contains(nm) {
                        if before.contains(nm) {
                            let k = choose|k: int|
                                0 <= k < i && (#[trigger] all[k]).backup_name == nm;
                        } else {
                            assert(nm == all[i as int].backup_name);
                            assert((all[i as int]).backup_name == nm);
                        }
                    } else {
                        if exists|k: int| 0 <= k < i + 1 && (#[trigger] all[k]).backup_name
                            == nm {
                            let k = choose|k: int|
                                0 <= k < i + 1 && (#[trigger] all[k]).backup_name == nm;
                            if k < i {
                                assert(before.contains(nm));
                            }
                            assert(false);
                        }
                    }
                };
            }
        } else {
            proof {
                assert forall|nm: Seq<char>|
                    #[trigger] names.deep_view().contains(nm) <==> (exists|k: int|
                        0 <= k < i + 1 && (#[trigger] all[k]).backup_name == nm) by {
                    if names.deep_view().contains(nm) {
                        let k = choose|k: int| 0 <= k < i && (#[trigger] all[k]).backup_name == nm;
                    } else {
                        if exists|k: int| 0 <= k < i + 1 && (#[trigger] all[k]).backup_name
                            == nm {
                            let k = choose|k: int|
                                0 <= k < i + 1 && (#[trigger] all[k]).backup_name == nm;
                            if k == i {
                                assert(names.deep_view().contains(all[i as int].backup_name));
                            }
                            assert(k < i);
                        }
                    }
                };
            }
        }
        i = i + 1;
    }
    // aggregate each name
    let ghost nv = names.deep_view();
    let mut out: Vec<BackupSummary> = Vec::new();
    let m = names.len();
    let mut j: usize = 0;
    while j < m
        invariant
            0 <= j <= m,
            m == nv.len(),
            nv == names.deep_view(),
            all == st@.backups,
            out.deep_view().len() == j,
            forall|k: int|
                0 <= k < j ==> (#[trigger] out.deep_view()[k]).name == nv[k]
                    && out.deep_view()[k].created_at == spec_backup_min(all, nv[k])
                    && out.deep_view()[k].packages == spec_backup_count(all, nv[k]),
        decreases m - j,
    {
        let bn = &names[j];
        proof {
            assert(names@[j as int]@ == nv[j as int]);
        }
        let mut cnt: usize = 0;
        let mut mn: i64 = i64::MAX;
        let total = st.backups.len();
        let mut k: usize = 0;
        proof {
            assert(all.subrange(0, 0) =~= Seq::<BackupRowView>::empty());
        }
        while k < total
            invariant
                0 <= k <= total,
                total == all.len(),
                all == st@.backups,
                nv == names.deep_view(),
                0 <= j < nv.len(),
                bn@ == nv[j as int],
                cnt <= k,
                cnt as nat == spec_backup_count(all.subrange(0, k as int), bn@),
                mn as int == spec_backup_min(all.subrange(0, k as int), bn@),
            decreases total - k,
        {
            proof {
                assert(st.backups@[k as int]@ == all[k as int]);
                assert(all.subrange(0, k as int + 1).drop_last() =~= all.subrange(0, k as int));
                assert(all.subrange(0, k as int + 1).last() == all[k as int]);
            }
            if str_eq(st.backups[k].backup_name.as_str(), bn.as_str()) {
                cnt = cnt + 1;
                if st.backups[k].created_at < mn {
                    mn = st.backups[k].created_at;
                }
            }
            k = k + 1;
        }
        proof {
            assert(all.subrange(0, total as int) =~= all);
        }
        let ghost before = out.deep_view();
        out.push(BackupSummary { name: bn.clone(), created_at: mn, packages: cnt });
        proof {
            assert(out.deep_view() =~= before.push(
                BackupSummaryView { name: nv[j as int], created_at: mn as int, packages: cnt as nat },
            ));
        }
        j = j + 1;
    }
    proof {
        assert(spec_summary_names(out.deep_view()) =~= nv);
    }
    out
}

} // verus!
