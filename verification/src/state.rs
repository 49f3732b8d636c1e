//! The profile/backup state machine.
//!
//! The store's truth is split between a relational index (installed rows,
//! backup rows) and a filesystem layout (profile trees, backup trees, the
//! active pointer, files directly under the root).  This module models
//! that state and gives every command's decision a verified transition;
//! the surrounding program mirrors each transition with the corresponding
//! filesystem and database actions.

use vstd::prelude::*;
use crate::errors::TexError;
use crate::pkg::{spec_store_dir, store_dir_name};
use crate::strutil::{str_eq, vec_contains_str, spec_ends_with, str_ends_with, clone_string_vec};

verus! {

/// One row of the installed-packages table: `(profile, name)` is the key.
pub struct InstalledRow {
    pub profile: String,
    pub name: String,
    pub revision: String,
}

#[verifier::ext_equal]
pub struct RowView {
    pub profile: Seq<char>,
    pub name: Seq<char>,
    pub revision: Seq<char>,
}

impl View for InstalledRow {
    type V = RowView;

    open spec fn view(&self) -> RowView {
        RowView { profile: self.profile@, name: self.name@, revision: self.revision@ }
    }
}

impl DeepView for InstalledRow {
    type V = RowView;

    open spec fn deep_view(&self) -> RowView {
        self.view()
    }
}

/// One row of the backups table: `(backup_name, name)` is the key.
pub struct BackupRow {
    pub backup_name: String,
    pub profile: String,
    pub name: String,
    pub revision: String,
    pub created_at: i64,
}

#[verifier::ext_equal]
pub struct BackupRowView {
    pub backup_name: Seq<char>,
    pub profile: Seq<char>,
    pub name: Seq<char>,
    pub revision: Seq<char>,
    pub created_at: int,
}

impl View for BackupRow {
    type V = BackupRowView;

    open spec fn view(&self) -> BackupRowView {
        BackupRowView {
            backup_name: self.backup_name@,
            profile: self.profile@,
            name: self.name@,
            revision: self.revision@,
            created_at: self.created_at as int,
        }
    }
}

impl DeepView for BackupRow {
    type V = BackupRowView;

    open spec fn deep_view(&self) -> BackupRowView {
        self.view()
    }
}

/// A named directory and its top-level entries: a profile's tree or a
/// backup's tree.
pub struct Tree {
    pub name: String,
    pub entries: Vec<String>,
}

#[verifier::ext_equal]
pub struct TreeView {
    pub name: Seq<char>,
    pub entries: Seq<Seq<char>>,
}

impl View for Tree {
    type V = TreeView;

    open spec fn view(&self) -> TreeView {
        TreeView { name: self.name@, entries: self.entries.deep_view() }
    }
}

impl DeepView for Tree {
    type V = TreeView;

    open spec fn deep_view(&self) -> TreeView {
        self.view()
    }
}

/// The whole store: index rows and filesystem layout under one root.
pub struct TexState {
    pub installed: Vec<InstalledRow>,
    pub backups: Vec<BackupRow>,
    pub profiles: Vec<Tree>,
    pub backup_trees: Vec<Tree>,
    pub active: Option<String>,
    pub root_files: Vec<String>,
}

#[verifier::ext_equal]
pub struct StateView {
    pub installed: Seq<RowView>,
    pub backups: Seq<BackupRowView>,
    pub profiles: Seq<TreeView>,
    pub backup_trees: Seq<TreeView>,
    pub active: Option<Seq<char>>,
    pub root_files: Seq<Seq<char>>,
}

impl View for TexState {
    type V = StateView;

    open spec fn view(&self) -> StateView {
        StateView {
            installed: self.installed.deep_view(),
            backups: self.backups.deep_view(),
            profiles: self.profiles.deep_view(),
            backup_trees: self.backup_trees.deep_view(),
            active: self.active.deep_view(),
            root_files: self.root_files.deep_view(),
        }
    }
}

/// The tree named `name`, scanning from the front.
pub open spec fn spec_tree_find(ts: Seq<TreeView>, name: Seq<char>) -> Option<TreeView>
    decreases ts.len(),
{
    if ts.len() == 0 {
        None
    } else if ts[0].name == name {
        Some(ts[0])
    } else {
        spec_tree_find(ts.drop_first(), name)
    }
}

/// The installed row keyed `(profile, name)`.
pub open spec fn spec_row_find(rows: Seq<RowView>, profile: Seq<char>, name: Seq<char>) -> Option<
    RowView,
>
    decreases rows.len(),
{
    if rows.len() == 0 {
        None
    } else if rows[0].profile == profile && rows[0].name == name {
        Some(rows[0])
    } else {
        spec_row_find(rows.drop_first(), profile, name)
    }
}

/// The installed rows of one profile, in table order.
pub open spec fn spec_rows_of_profile(rows: Seq<RowView>, profile: Seq<char>) -> Seq<RowView>
    decreases rows.len(),
{
    if rows.len() == 0 {
        Seq::empty()
    } else {
        spec_rows_of_profile(rows.drop_last(), profile) + (if rows.last().profile == profile {
            seq![rows.last()]
        } else {
            Seq::empty()
        })
    }
}

/// The installed rows that do not belong to `profile`, in table order.
pub open spec fn spec_rows_without_profile(rows: Seq<RowView>, profile: Seq<char>) -> Seq<RowView>
    decreases rows.len(),
{
    if rows.len() == 0 {
        Seq::empty()
    } else {
        spec_rows_without_profile(rows.drop_last(), profile) + (if rows.last().profile
            != profile {
            seq![rows.last()]
        } else {
            Seq::empty()
        })
    }
}

/// The backup rows of one backup name, in table order.
pub open spec fn spec_backup_rows_of(rows: Seq<BackupRowView>, bn: Seq<char>) -> Seq<
    BackupRowView,
>
    decreases rows.len(),
{
    if rows.len() == 0 {
        Seq::empty()
    } else {
        spec_backup_rows_of(rows.drop_last(), bn) + (if rows.last().backup_name == bn {
            seq![rows.last()]
        } else {
            Seq::empty()
        })
    }
}

/// The backup rows that do not belong to `bn`, in table order.
pub open spec fn spec_backup_rows_without(rows: Seq<BackupRowView>, bn: Seq<char>) -> Seq<
    BackupRowView,
>
    decreases rows.len(),
{
    if rows.len() == 0 {
        Seq::empty()
    } else {
        spec_backup_rows_without(rows.drop_last(), bn) + (if rows.last().backup_name != bn {
            seq![rows.last()]
        } else {
            Seq::empty()
        })
    }
}

/// What `backup` inserts: one backups row per installed row, stamped `now`.
pub open spec fn spec_mk_backup_rows(rows: Seq<RowView>, bn: Seq<char>, now: int) -> Seq<
    BackupRowView,
> {
    rows.map_values(
        |r: RowView|
            BackupRowView {
                backup_name: bn,
                profile: r.profile,
                name: r.name,
                revision: r.revision,
                created_at: now,
            },
    )
}

/// What `restore` inserts: the backup rows turned back into installed rows
/// of the profile being restored.
pub open spec fn spec_restore_rows(brows: Seq<BackupRowView>, profile: Seq<char>) -> Seq<RowView> {
    brows.map_values(
        |r: BackupRowView| RowView { profile: profile, name: r.name, revision: r.revision },
    )
}

/// A staging leftover: a name with extension `xz`.
pub open spec fn spec_is_xz(name: Seq<char>) -> bool {
    name.len() >= 4 && spec_ends_with(name, ".xz"@)
}

/// The root files `clean` keeps.
pub open spec fn spec_clean_files(files: Seq<Seq<char>>) -> Seq<Seq<char>>
    decreases files.len(),
{
    if files.len() == 0 {
        Seq::empty()
    } else {
        spec_clean_files(files.drop_last()) + (if !spec_is_xz(files.last()) {
            seq![files.last()]
        } else {
            Seq::empty()
        })
    }
}

/// A found tree bears the name it was looked up by.
pub proof fn lemma_tree_find_name(ts: Seq<TreeView>, name: Seq<char>)
    requires
        spec_tree_find(ts, name) is Some,
    ensures
        spec_tree_find(ts, name).unwrap().name == name,
    decreases ts.len(),
{
    if ts.len() > 0 && ts[0].name != name {
        lemma_tree_find_name(ts.drop_first(), name);
    }
}

pub proof fn lemma_tree_find_none(ts: Seq<TreeView>, name: Seq<char>)
    requires
        spec_tree_find(ts, name) is None,
    ensures
        forall|i: int| 0 <= i < ts.len() ==> (#[trigger] ts[i]).name != name,
    decreases ts.len(),
{
    if ts.len() > 0 {
        lemma_tree_find_none(ts.drop_first(), name);
        assert forall|i: int| 0 <= i < ts.len() implies (#[trigger] ts[i]).name != name by {
            if i > 0 {
                assert(ts.drop_first()[i - 1] == ts[i]);
            }
        };
    }
}

pub proof fn lemma_tree_position_find(ts: Seq<TreeView>, i: int)
    requires
        0 <= i < ts.len(),
        forall|k: int| 0 <= k < i ==> (#[trigger] ts[k]).name != ts[i].name,
    ensures
        spec_tree_find(ts, ts[i].name) == Some(ts[i]),
    decreases i,
{
    if i > 0 {
        assert(ts[0].name != ts[i].name);
        assert(ts.drop_first()[i - 1] == ts[i]);
        lemma_tree_position_find(ts.drop_first(), i - 1);
    }
}

pub proof fn lemma_tree_find_push_other(ts: Seq<TreeView>, t: TreeView, n: Seq<char>)
    requires
        n != t.name,
    ensures
        spec_tree_find(ts.push(t), n) == spec_tree_find(ts, n),
    decreases ts.len(),
{
    let u = ts.push(t);
    if ts.len() == 0 {
        assert(u[0] == t);
        assert(u.drop_first() =~= Seq::<TreeView>::empty());
        assert(spec_tree_find(Seq::<TreeView>::empty(), n) is None);
    } else {
        assert(u[0] == ts[0]);
        if ts[0].name == n {
        } else {
            assert(u.drop_first() =~= ts.drop_first().push(t));
            lemma_tree_find_push_other(ts.drop_first(), t, n);
        }
    }
}

pub proof fn lemma_tree_find_update_at(ts: Seq<TreeView>, i: int, t: TreeView)
    requires
        0 <= i < ts.len(),
        forall|k: int| 0 <= k < i ==> (#[trigger] ts[k]).name != t.name,
    ensures
        spec_tree_find(ts.update(i, t), t.name) == Some(t),
    decreases i,
{
    let u = ts.update(i, t);
    if i == 0 {
        assert(u[0] == t);
    } else {
        assert(u[0] == ts[0]);
        assert(u.drop_first() =~= ts.drop_first().update(i - 1, t));
        lemma_tree_find_update_at(ts.drop_first(), i - 1, t);
    }
}

pub proof fn lemma_tree_find_update_other(ts: Seq<TreeView>, i: int, t: TreeView, n: Seq<char>)
    requires
        0 <= i < ts.len(),
        ts[i].name == t.name,
        n != t.name,
    ensures
        spec_tree_find(ts.update(i, t), n) == spec_tree_find(ts, n),
    decreases i,
{
    let u = ts.update(i, t);
    if i == 0 {
        assert(u[0] == t);
        assert(u.drop_first() =~= ts.drop_first());
    } else {
        assert(u[0] == ts[0]);
        if ts[0].name == n {
        } else {
            assert(u.drop_first() =~= ts.drop_first().update(i - 1, t));
            lemma_tree_find_update_other(ts.drop_first(), i - 1, t, n);
        }
    }
}

pub proof fn lemma_tree_find_remove(ts: Seq<TreeView>, i: int, n: Seq<char>)
    requires
        0 <= i < ts.len(),
        n != ts[i].name,
    ensures
        spec_tree_find(ts.remove(i), n) == spec_tree_find(ts, n),
    decreases i,
{
    let u = ts.remove(i);
    if i == 0 {
        assert(u =~= ts.drop_first());
    } else {
        assert(u[0] == ts[0]);
        if ts[0].name == n {
        } else {
            assert(u.drop_first() =~= ts.drop_first().remove(i - 1));
            lemma_tree_find_remove(ts.drop_first(), i - 1, n);
        }
    }
}

pub proof fn lemma_tree_find_remove_gone(ts: Seq<TreeView>, i: int)
    requires
        0 <= i < ts.len(),
        forall|k: int|
            0 <= k < ts.len() && k != i ==> (#[trigger] ts[k]).name != ts[i].name,
    ensures
        spec_tree_find(ts.remove(i), ts[i].name) is None,
    decreases ts.len(),
{
    let u = ts.remove(i);
    if i == 0 {
        assert(u =~= ts.drop_first());
        lemma_tree_find_none_from_all(ts.drop_first(), ts[0].name);
    } else {
        assert(u[0] == ts[0]);
        assert(ts[0].name != ts[i].name);
        assert(u.drop_first() =~= ts.drop_first().remove(i - 1));
        assert(ts.drop_first()[i - 1] == ts[i]);
        lemma_tree_find_remove_gone(ts.drop_first(), i - 1);
    }
}

pub proof fn lemma_tree_find_none_from_all(ts: Seq<TreeView>, name: Seq<char>)
    requires
        forall|i: int| 0 <= i < ts.len() ==> (#[trigger] ts[i]).name != name,
    ensures
        spec_tree_find(ts, name) is None,
    decreases ts.len(),
{
    if ts.len() > 0 {
        assert(forall|i: int|
            0 <= i < ts.drop_first().len() ==> (#[trigger] ts.drop_first()[i]).name != name);
        lemma_tree_find_none_from_all(ts.drop_first(), name);
    }
}

pub proof fn lemma_row_find_none(rows: Seq<RowView>, profile: Seq<char>, name: Seq<char>)
    requires
        spec_row_find(rows, profile, name) is None,
    ensures
        forall|i: int|
            0 <= i < rows.len() ==> !((#[trigger] rows[i]).profile == profile && rows[i].name
                == name),
    decreases rows.len(),
{
    if rows.len() > 0 {
        lemma_row_find_none(rows.drop_first(), profile, name);
        assert forall|i: int|
            0 <= i < rows.len() implies !((#[trigger] rows[i]).profile == profile && rows[i].name
            == name) by {
            if i > 0 {
                assert(rows.drop_first()[i - 1] == rows[i]);
            }
        };
    }
}

pub proof fn lemma_row_position_find(rows: Seq<RowView>, i: int)
    requires
        0 <= i < rows.len(),
        forall|k: int|
            0 <= k < i ==> !((#[trigger] rows[k]).profile == rows[i].profile && rows[k].name
                == rows[i].name),
    ensures
        spec_row_find(rows, rows[i].profile, rows[i].name) == Some(rows[i]),
    decreases i,
{
    if i > 0 {
        assert(rows.drop_first()[i - 1] == rows[i]);
        lemma_row_position_find(rows.drop_first(), i - 1);
    }
}

pub proof fn lemma_row_find_push_other(
    rows: Seq<RowView>,
    r: RowView,
    profile: Seq<char>,
    name: Seq<char>,
)
    requires
        !(r.profile == profile && r.name == name),
    ensures
        spec_row_find(rows.push(r), profile, name) == spec_row_find(rows, profile, name),
    decreases rows.len(),
{
    let u = rows.push(r);
    if rows.len() == 0 {
        assert(u[0] == r);
        assert(u.drop_first() =~= Seq::<RowView>::empty());
        assert(spec_row_find(Seq::<RowView>::empty(), profile, name) is None);
    } else {
        assert(u[0] == rows[0]);
        if rows[0].profile == profile && rows[0].name == name {
        } else {
            assert(u.drop_first() =~= rows.drop_first().push(r));
            lemma_row_find_push_other(rows.drop_first(), r, profile, name);
        }
    }
}

pub proof fn lemma_row_find_update_at(rows: Seq<RowView>, i: int, r: RowView)
    requires
        0 <= i < rows.len(),
        forall|k: int|
            0 <= k < i ==> !((#[trigger] rows[k]).profile == r.profile && rows[k].name == r.name),
    ensures
        spec_row_find(rows.update(i, r), r.profile, r.name) == Some(r),
    decreases i,
{
    let u = rows.update(i, r);
    if i == 0 {
        assert(u[0] == r);
    } else {
        assert(u[0] == rows[0]);
        assert(u.drop_first() =~= rows.drop_first().update(i - 1, r));
        lemma_row_find_update_at(rows.drop_first(), i - 1, r);
    }
}

pub proof fn lemma_row_find_update_other(
    rows: Seq<RowView>,
    i: int,
    r: RowView,
    profile: Seq<char>,
    name: Seq<char>,
)
    requires
        0 <= i < rows.len(),
        rows[i].profile == r.profile && rows[i].name == r.name,
        !(r.profile == profile && r.name == name),
    ensures
        spec_row_find(rows.update(i, r), profile, name) == spec_row_find(rows, profile, name),
    decreases i,
{
    let u = rows.update(i, r);
    if i == 0 {
        assert(u[0] == r);
        assert(u.drop_first() =~= rows.drop_first());
    } else {
        assert(u[0] == rows[0]);
        if rows[0].profile == profile && rows[0].name == name {
        } else {
            assert(u.drop_first() =~= rows.drop_first().update(i - 1, r));
            lemma_row_find_update_other(rows.drop_first(), i - 1, r, profile, name);
        }
    }
}

/// The position of the tree named `name`, if any.
fn tree_position(ts: &Vec<Tree>, name: &str) -> (r: Option<usize>)
    ensures
        match r {
            Some(i) => {
                &&& i < ts.deep_view().len()
                &&& ts.deep_view()[i as int].name == name@
                &&& forall|k: int| 0 <= k < i ==> (#[trigger] ts.deep_view()[k]).name != name@
                &&& spec_tree_find(ts.deep_view(), name@) == Some(ts.deep_view()[i as int])
            },
            None => spec_tree_find(ts.deep_view(), name@) is None,
        },
{
    let n = ts.len();
    let mut i: usize = 0;
    while i < n
        invariant
            0 <= i <= n,
            n == ts.deep_view().len(),
            forall|k: int| 0 <= k < i ==> (#[trigger] ts.deep_view()[k]).name != name@,
        decreases n - i,
    {
        proof {
            assert(ts.deep_view()[i as int] == ts@[i as int]@);
        }
        if str_eq(ts[i].name.as_str(), name) {
            proof {
                lemma_tree_position_find(ts.deep_view(), i as int);
            }
            return Some(i);
        }
        i = i + 1;
    }
    proof {
        lemma_tree_find_none_from_all(ts.deep_view(), name@);
    }
    None
}

/// The position of the installed row keyed `(profile, name)`, if any.
pub fn row_position(rows: &Vec<InstalledRow>, profile: &str, name: &str) -> (r: Option<usize>)
    ensures
        match r {
            Some(i) => {
                &&& i < rows.deep_view().len()
                &&& rows.deep_view()[i as int].profile == profile@
                &&& rows.deep_view()[i as int].name == name@
                &&& forall|k: int|
                    0 <= k < i ==> !((#[trigger] rows.deep_view()[k]).profile == profile@
                        && rows.deep_view()[k].name == name@)
                &&& spec_row_find(rows.deep_view(), profile@, name@) == Some(
                    rows.deep_view()[i as int],
                )
            },
            None => spec_row_find(rows.deep_view(), profile@, name@) is None,
        },
{
    let n = rows.len();
    let mut i: usize = 0;
    while i < n
        invariant
            0 <= i <= n,
            n == rows.deep_view().len(),
            forall|k: int|
                0 <= k < i ==> !((#[trigger] rows.deep_view()[k]).profile == profile@
                    && rows.deep_view()[k].name == name@),
        decreases n - i,
    {
        proof {
            assert(rows.deep_view()[i as int] == rows@[i as int]@);
        }
        if str_eq(rows[i].profile.as_str(), profile) && str_eq(rows[i].name.as_str(), name) {
            proof {
                lemma_row_position_find(rows.deep_view(), i as int);
            }
            return Some(i);
        }
        i = i + 1;
    }
    proof {
        lemma_row_find_none_from_all(rows.deep_view(), profile@, name@);
    }
    None
}

pub proof fn lemma_row_find_none_from_all(
    rows: Seq<RowView>,
    profile: Seq<char>,
    name: Seq<char>,
)
    requires
        forall|i: int|
            0 <= i < rows.len() ==> !((#[trigger] rows[i]).profile == profile && rows[i].name
                == name),
    ensures
        spec_row_find(rows, profile, name) is None,
    decreases rows.len(),
{
    if rows.len() > 0 {
        assert(forall|i: int|
            0 <= i < rows.drop_first().len() ==> rows.drop_first()[i] == rows[i + 1]);
        lemma_row_find_none_from_all(rows.drop_first(), profile, name);
    }
}

/// Scanning concatenated tables finds the left part's row first.
pub proof fn lemma_row_find_concat(
    a: Seq<RowView>,
    b: Seq<RowView>,
    profile: Seq<char>,
    name: Seq<char>,
)
    ensures
        spec_row_find(a + b, profile, name) == match spec_row_find(a, profile, name) {
            Some(r) => Some(r),
            None => spec_row_find(b, profile, name),
        },
    decreases a.len(),
{
    if a.len() == 0 {
        assert(a + b =~= b);
    } else {
        assert((a + b)[0] == a[0]);
        if a[0].profile == profile && a[0].name == name {
        } else {
            assert((a + b).drop_first() =~= a.drop_first() + b);
            lemma_row_find_concat(a.drop_first(), b, profile, name);
        }
    }
}

pub proof fn lemma_row_find_snoc(rows: Seq<RowView>, profile: Seq<char>, name: Seq<char>)
    requires
        rows.len() > 0,
    ensures
        spec_row_find(rows, profile, name) == match spec_row_find(
            rows.drop_last(),
            profile,
            name,
        ) {
            Some(r) => Some(r),
            None => {
                if rows.last().profile == profile && rows.last().name == name {
                    Some(rows.last())
                } else {
                    None
                }
            },
        },
{
    assert(rows =~= rows.drop_last() + seq![rows.last()]);
    lemma_row_find_concat(rows.drop_last(), seq![rows.last()], profile, name);
    let single = seq![rows.last()];
    assert(single.drop_first() =~= Seq::<RowView>::empty());
    assert(spec_row_find(Seq::<RowView>::empty(), profile, name) is None);
}

/// What dropping a profile's rows leaves: membership, uniqueness, lookup.
pub proof fn lemma_rows_without_profile_props(rows: Seq<RowView>, p: Seq<char>)
    ensures
        forall|i: int|
            0 <= i < spec_rows_without_profile(rows, p).len() ==> rows.contains(
                #[trigger] spec_rows_without_profile(rows, p)[i],
            ) && spec_rows_without_profile(rows, p)[i].profile != p,
        forall|profile: Seq<char>, name: Seq<char>|
            #![trigger spec_row_find(spec_rows_without_profile(rows, p), profile, name)]
            spec_row_find(spec_rows_without_profile(rows, p), profile, name) == (if profile == p {
                None
            } else {
                spec_row_find(rows, profile, name)
            }),
    decreases rows.len(),
{
    let f = spec_rows_without_profile(rows, p);
    if rows.len() == 0 {
    } else {
        let fd = spec_rows_without_profile(rows.drop_last(), p);
        lemma_rows_without_profile_props(rows.drop_last(), p);
        assert forall|i: int| 0 <= i < f.len() implies rows.contains(#[trigger] f[i])
            && f[i].profile != p by {
            if i < fd.len() {
                assert(f[i] == fd[i]);
                assert(rows.drop_last().contains(fd[i]));
                let j = choose|j: int|
                    0 <= j < rows.drop_last().len() && rows.drop_last()[j] == fd[i];
                assert(rows[j] == fd[i]);
            } else {
                assert(f[i] == rows.last());
                assert(rows[rows.len() - 1] == rows.last());
            }
        };
        assert forall|profile: Seq<char>, name: Seq<char>|
            #![trigger spec_row_find(f, profile, name)]
            spec_row_find(f, profile, name) == (if profile == p {
                None
            } else {
                spec_row_find(rows, profile, name)
            }) by {
            lemma_row_find_snoc(rows, profile, name);
            if rows.last().profile != p {
                assert(f =~= fd + seq![rows.last()]);
                lemma_row_find_concat(fd, seq![rows.last()], profile, name);
                assert(seq![rows.last()].drop_first() =~= Seq::<RowView>::empty());
                assert(spec_row_find(Seq::<RowView>::empty(), profile, name) is None);
            } else {
                assert(f =~= fd);
            }
        };
    }
}

/// Keeping a profile's rows: each kept row has the profile, and lookups
/// within that profile are unchanged.
pub proof fn lemma_rows_of_profile_props(rows: Seq<RowView>, p: Seq<char>)
    ensures
        forall|i: int|
            0 <= i < spec_rows_of_profile(rows, p).len() ==> rows.contains(
                #[trigger] spec_rows_of_profile(rows, p)[i],
            ) && spec_rows_of_profile(rows, p)[i].profile == p,
        forall|name: Seq<char>|
            #![trigger spec_row_find(spec_rows_of_profile(rows, p), p, name)]
            spec_row_find(spec_rows_of_profile(rows, p), p, name) == spec_row_find(rows, p, name),
    decreases rows.len(),
{
    let f = spec_rows_of_profile(rows, p);
    if rows.len() == 0 {
    } else {
        let fd = spec_rows_of_profile(rows.drop_last(), p);
        lemma_rows_of_profile_props(rows.drop_last(), p);
        assert forall|i: int| 0 <= i < f.len() implies rows.contains(#[trigger] f[i])
            && f[i].profile == p by {
            if i < fd.len() {
                assert(f[i] == fd[i]);
                assert(rows.drop_last().contains(fd[i]));
                let j = choose|j: int|
                    0 <= j < rows.drop_last().len() && rows.drop_last()[j] == fd[i];
                assert(rows[j] == fd[i]);
            } else {
                assert(f[i] == rows.last());
                assert(rows[rows.len() - 1] == rows.last());
            }
        };
        assert forall|name: Seq<char>|
            #![trigger spec_row_find(f, p, name)]
            spec_row_find(f, p, name) == spec_row_find(rows, p, name) by {
            lemma_row_find_snoc(rows, p, name);
            if rows.last().profile == p {
                assert(f =~= fd + seq![rows.last()]);
                lemma_row_find_concat(fd, seq![rows.last()], p, name);
                assert(seq![rows.last()].drop_first() =~= Seq::<RowView>::empty());
                assert(spec_row_find(Seq::<RowView>::empty(), p, name) is None);
            } else {
                assert(f =~= fd);
            }
        };
    }
}

/// A row at any position makes the keyed lookup succeed.
pub proof fn lemma_row_position_some(rows: Seq<RowView>, x: int)
    requires
        0 <= x < rows.len(),
    ensures
        spec_row_find(rows, rows[x].profile, rows[x].name) is Some,
    decreases x,
{
    if rows[0].profile == rows[x].profile && rows[0].name == rows[x].name {
    } else {
        assert(x > 0);
        assert(rows.drop_first()[x - 1] == rows[x]);
        lemma_row_position_some(rows.drop_first(), x - 1);
    }
}

pub proof fn lemma_row_find_remove_other(
    rows: Seq<RowView>,
    j: int,
    profile: Seq<char>,
    name: Seq<char>,
)
    requires
        0 <= j < rows.len(),
        !(rows[j].profile == profile && rows[j].name == name),
    ensures
        spec_row_find(rows.remove(j), profile, name) == spec_row_find(rows, profile, name),
    decreases j,
{
    let u = rows.remove(j);
    if j == 0 {
        assert(u =~= rows.drop_first());
    } else {
        assert(u[0] == rows[0]);
        if rows[0].profile == profile && rows[0].name == name {
        } else {
            assert(u.drop_first() =~= rows.drop_first().remove(j - 1));
            lemma_row_find_remove_other(rows.drop_first(), j - 1, profile, name);
        }
    }
}

pub proof fn lemma_row_find_remove_gone(rows: Seq<RowView>, j: int)
    requires
        0 <= j < rows.len(),
        forall|k: int|
            0 <= k < rows.len() && k != j ==> !((#[trigger] rows[k]).profile == rows[j].profile
                && rows[k].name == rows[j].name),
    ensures
        spec_row_find(rows.remove(j), rows[j].profile, rows[j].name) is None,
    decreases rows.len(),
{
    let u = rows.remove(j);
    if j == 0 {
        assert(u =~= rows.drop_first());
        assert forall|k: int|
            0 <= k < u.len() implies !((#[trigger] u[k]).profile == rows[0].profile && u[k].name
            == rows[0].name) by {
            assert(u[k] == rows[k + 1]);
        };
        lemma_row_find_none_from_all(u, rows[0].profile, rows[0].name);
    } else {
        assert(u[0] == rows[0]);
        assert(!(rows[0].profile == rows[j].profile && rows[0].name == rows[j].name));
        assert(u.drop_first() =~= rows.drop_first().remove(j - 1));
        assert(rows.drop_first()[j - 1] == rows[j]);
        assert forall|k: int|
            0 <= k < rows.drop_first().len() && k != j - 1 implies !((
        #[trigger] rows.drop_first()[k]).profile == rows.drop_first()[j - 1].profile
            && rows.drop_first()[k].name == rows.drop_first()[j - 1].name) by {
            assert(rows.drop_first()[k] == rows[k + 1]);
        };
        lemma_row_find_remove_gone(rows.drop_first(), j - 1);
    }
}

/// Filtering a unique-keyed table keeps its keys unique.
pub proof fn lemma_rows_without_profile_unique(rows: Seq<RowView>, p: Seq<char>)
    requires
        forall|i: int, j: int|
            0 <= i < j < rows.len() ==> !((#[trigger] rows[i]).profile == (
            #[trigger] rows[j]).profile && rows[i].name == rows[j].name),
    ensures
        forall|i: int, j: int|
            0 <= i < j < spec_rows_without_profile(rows, p).len() ==> !((
            #[trigger] spec_rows_without_profile(rows, p)[i]).profile == (
            #[trigger] spec_rows_without_profile(rows, p)[j]).profile
                && spec_rows_without_profile(rows, p)[i].name == spec_rows_without_profile(
                rows,
                p,
            )[j].name),
    decreases rows.len(),
{
    let f = spec_rows_without_profile(rows, p);
    if rows.len() > 0 {
        let rd = rows.drop_last();
        let fd = spec_rows_without_profile(rd, p);
        assert(forall|i: int| 0 <= i < rd.len() ==> rd[i] == rows[i]);
        lemma_rows_without_profile_unique(rd, p);
        lemma_rows_without_profile_props(rd, p);
        assert forall|i: int, j: int|
            0 <= i < j < f.len() implies !((#[trigger] f[i]).profile == (#[trigger] f[j]).profile
            && f[i].name == f[j].name) by {
            if j < fd.len() {
                assert(f[i] == fd[i] && f[j] == fd[j]);
            } else {
                assert(f[j] == rows.last());
                assert(f[i] == fd[i]);
                assert(rd.contains(fd[i]));
                let x = choose|x: int| 0 <= x < rd.len() && rd[x] == fd[i];
                assert(rows[x] == fd[i]);
                assert(x < rows.len() - 1);
                assert(rows.last() == rows[rows.len() - 1]);
            }
        };
    }
}

/// Membership and names of a backup name's rows.
pub proof fn lemma_backup_rows_of_props(rows: Seq<BackupRowView>, bn: Seq<char>)
    ensures
        forall|i: int|
            0 <= i < spec_backup_rows_of(rows, bn).len() ==> rows.contains(
                #[trigger] spec_backup_rows_of(rows, bn)[i],
            ) && spec_backup_rows_of(rows, bn)[i].backup_name == bn,
    decreases rows.len(),
{
    let f = spec_backup_rows_of(rows, bn);
    if rows.len() > 0 {
        let fd = spec_backup_rows_of(rows.drop_last(), bn);
        lemma_backup_rows_of_props(rows.drop_last(), bn);
        assert forall|i: int| 0 <= i < f.len() implies rows.contains(#[trigger] f[i])
            && f[i].backup_name == bn by {
            if i < fd.len() {
                assert(f[i] == fd[i]);
                assert(rows.drop_last().contains(fd[i]));
                let j = choose|j: int|
                    0 <= j < rows.drop_last().len() && rows.drop_last()[j] == fd[i];
                assert(rows[j] == fd[i]);
            } else {
                assert(f[i] == rows.last());
                assert(rows[rows.len() - 1] == rows.last());
            }
        };
    }
}

/// A unique-keyed backups table gives each backup unique package names.
pub proof fn lemma_backup_rows_of_unique(rows: Seq<BackupRowView>, bn: Seq<char>)
    requires
        forall|i: int, j: int|
            0 <= i < j < rows.len() ==> !((#[trigger] rows[i]).backup_name == (
            #[trigger] rows[j]).backup_name && rows[i].name == rows[j].name),
    ensures
        forall|i: int, j: int|
            0 <= i < j < spec_backup_rows_of(rows, bn).len() ==> (
            #[trigger] spec_backup_rows_of(rows, bn)[i]).name != (#[trigger] spec_backup_rows_of(
                rows,
                bn,
            )[j]).name,
    decreases rows.len(),
{
    let f = spec_backup_rows_of(rows, bn);
    if rows.len() > 0 {
        let rd = rows.drop_last();
        let fd = spec_backup_rows_of(rd, bn);
        assert(forall|i: int| 0 <= i < rd.len() ==> rd[i] == rows[i]);
        lemma_backup_rows_of_unique(rd, bn);
        lemma_backup_rows_of_props(rd, bn);
        assert forall|i: int, j: int|
            0 <= i < j < f.len() implies (#[trigger] f[i]).name != (#[trigger] f[j]).name by {
            if j < fd.len() {
                assert(f[i] == fd[i] && f[j] == fd[j]);
            } else {
                assert(f[j] == rows.last());
                assert(f[i] == fd[i]);
                assert(rd.contains(fd[i]));
                let x = choose|x: int| 0 <= x < rd.len() && rd[x] == fd[i];
                assert(rows[x] == fd[i]);
                assert(x < rows.len() - 1);
                assert(rows.last() == rows[rows.len() - 1]);
                assert(fd[i].backup_name == bn && rows.last().backup_name == bn);
            }
        };
    }
}

/// When every row bears the name, filtering keeps the table whole.
pub proof fn lemma_backup_rows_of_full(rows: Seq<BackupRowView>, bn: Seq<char>)
    requires
        forall|i: int| 0 <= i < rows.len() ==> (#[trigger] rows[i]).backup_name == bn,
    ensures
        spec_backup_rows_of(rows, bn) == rows,
    decreases rows.len(),
{
    if rows.len() > 0 {
        assert(forall|i: int|
            0 <= i < rows.drop_last().len() ==> rows.drop_last()[i] == rows[i]);
        lemma_backup_rows_of_full(rows.drop_last(), bn);
        assert(spec_backup_rows_of(rows, bn) =~= rows.drop_last() + seq![rows.last()]);
        assert(rows.drop_last() + seq![rows.last()] =~= rows);
    }
}

/// When no row bears the name, filtering leaves nothing.
pub proof fn lemma_backup_rows_of_empty(rows: Seq<BackupRowView>, bn: Seq<char>)
    requires
        forall|i: int| 0 <= i < rows.len() ==> (#[trigger] rows[i]).backup_name != bn,
    ensures
        spec_backup_rows_of(rows, bn) == Seq::<BackupRowView>::empty(),
    decreases rows.len(),
{
    if rows.len() > 0 {
        assert(forall|i: int|
            0 <= i < rows.drop_last().len() ==> rows.drop_last()[i] == rows[i]);
        lemma_backup_rows_of_empty(rows.drop_last(), bn);
        assert(spec_backup_rows_of(rows, bn) =~= Seq::<BackupRowView>::empty());
    }
}

/// Filtering distributes over concatenation of tables.
pub proof fn lemma_backup_rows_of_concat(
    a: Seq<BackupRowView>,
    b: Seq<BackupRowView>,
    bn: Seq<char>,
)
    ensures
        spec_backup_rows_of(a + b, bn) == spec_backup_rows_of(a, bn) + spec_backup_rows_of(b, bn),
    decreases b.len(),
{
    if b.len() == 0 {
        assert(a + b =~= a);
        assert(spec_backup_rows_of(a, bn) + spec_backup_rows_of(b, bn) =~= spec_backup_rows_of(
            a,
            bn,
        ));
    } else {
        assert((a + b).drop_last() =~= a + b.drop_last());
        assert((a + b).last() == b.last());
        lemma_backup_rows_of_concat(a, b.drop_last(), bn);
        assert(spec_backup_rows_of(a + b, bn) =~= spec_backup_rows_of(a, bn)
            + spec_backup_rows_of(b, bn));
    }
}

/// Membership and names of the rows a backup's removal leaves.
pub proof fn lemma_backup_rows_without_props(rows: Seq<BackupRowView>, bn: Seq<char>)
    ensures
        forall|i: int|
            0 <= i < spec_backup_rows_without(rows, bn).len() ==> rows.contains(
                #[trigger] spec_backup_rows_without(rows, bn)[i],
            ) && spec_backup_rows_without(rows, bn)[i].backup_name != bn,
    decreases rows.len(),
{
    let f = spec_backup_rows_without(rows, bn);
    if rows.len() > 0 {
        let fd = spec_backup_rows_without(rows.drop_last(), bn);
        lemma_backup_rows_without_props(rows.drop_last(), bn);
        assert forall|i: int| 0 <= i < f.len() implies rows.contains(#[trigger] f[i])
            && f[i].backup_name != bn by {
            if i < fd.len() {
                assert(f[i] == fd[i]);
                assert(rows.drop_last().contains(fd[i]));
                let j = choose|j: int|
                    0 <= j < rows.drop_last().len() && rows.drop_last()[j] == fd[i];
                assert(rows[j] == fd[i]);
            } else {
                assert(f[i] == rows.last());
                assert(rows[rows.len() - 1] == rows.last());
            }
        };
    }
}

pub proof fn lemma_backup_rows_without_unique(rows: Seq<BackupRowView>, bn: Seq<char>)
    requires
        forall|i: int, j: int|
            0 <= i < j < rows.len() ==> !((#[trigger] rows[i]).backup_name == (
            #[trigger] rows[j]).backup_name && rows[i].name == rows[j].name),
    ensures
        forall|i: int, j: int|
            0 <= i < j < spec_backup_rows_without(rows, bn).len() ==> !((
            #[trigger] spec_backup_rows_without(rows, bn)[i]).backup_name == (
            #[trigger] spec_backup_rows_without(rows, bn)[j]).backup_name
                && spec_backup_rows_without(rows, bn)[i].name == spec_backup_rows_without(
                rows,
                bn,
            )[j].name),
    decreases rows.len(),
{
    let f = spec_backup_rows_without(rows, bn);
    if rows.len() > 0 {
        let rd = rows.drop_last();
        let fd = spec_backup_rows_without(rd, bn);
        assert(forall|i: int| 0 <= i < rd.len() ==> rd[i] == rows[i]);
        lemma_backup_rows_without_unique(rd, bn);
        lemma_backup_rows_without_props(rd, bn);
        assert forall|i: int, j: int|
            0 <= i < j < f.len() implies !((#[trigger] f[i]).backup_name == (
        #[trigger] f[j]).backup_name && f[i].name == f[j].name) by {
            if j < fd.len() {
                assert(f[i] == fd[i] && f[j] == fd[j]);
            } else {
                assert(f[j] == rows.last());
                assert(f[i] == fd[i]);
                assert(rd.contains(fd[i]));
                let x = choose|x: int| 0 <= x < rd.len() && rd[x] == fd[i];
                assert(rows[x] == fd[i]);
                assert(x < rows.len() - 1);
                assert(rows.last() == rows[rows.len() - 1]);
            }
        };
    }
}

/// `rows_of_profile` keeps names unique when the table's keys are unique.
pub proof fn lemma_rows_of_profile_unique(rows: Seq<RowView>, p: Seq<char>)
    requires
        forall|i: int, j: int|
            0 <= i < j < rows.len() ==> !((#[trigger] rows[i]).profile == (
            #[trigger] rows[j]).profile && rows[i].name == rows[j].name),
    ensures
        forall|i: int, j: int|
            0 <= i < j < spec_rows_of_profile(rows, p).len() ==> (
            #[trigger] spec_rows_of_profile(rows, p)[i]).name != (#[trigger] spec_rows_of_profile(
                rows,
                p,
            )[j]).name,
    decreases rows.len(),
{
    let f = spec_rows_of_profile(rows, p);
    if rows.len() > 0 {
        let rd = rows.drop_last();
        let fd = spec_rows_of_profile(rd, p);
        assert(forall|i: int| 0 <= i < rd.len() ==> rd[i] == rows[i]);
        lemma_rows_of_profile_unique(rd, p);
        lemma_rows_of_profile_props(rd, p);
        assert forall|i: int, j: int|
            0 <= i < j < f.len() implies (#[trigger] f[i]).name != (#[trigger] f[j]).name by {
            if j < fd.len() {
                assert(f[i] == fd[i] && f[j] == fd[j]);
            } else {
                assert(f[j] == rows.last());
                assert(f[i] == fd[i]);
                assert(rd.contains(fd[i]));
                let x = choose|x: int| 0 <= x < rd.len() && rd[x] == fd[i];
                assert(rows[x] == fd[i]);
                assert(x < rows.len() - 1);
                assert(rows.last() == rows[rows.len() - 1]);
                assert(fd[i].profile == p && rows.last().profile == p);
            }
        };
    }
}

/// What `clean` keeps and removes: exactly the non-`.xz` names survive.
pub proof fn lemma_clean_files_membership(files: Seq<Seq<char>>)
    ensures
        forall|f: Seq<char>|
            #[trigger] spec_clean_files(files).contains(f) <==> (files.contains(f)
                && !spec_is_xz(f)),
    decreases files.len(),
{
    let r = spec_clean_files(files);
    if files.len() > 0 {
        let ed = files.drop_last();
        let rd = spec_clean_files(ed);
        lemma_clean_files_membership(ed);
        assert forall|f: Seq<char>| #[trigger] r.contains(f) implies (files.contains(f)
            && !spec_is_xz(f)) by {
            let i = choose|i: int| 0 <= i < r.len() && r[i] == f;
            if i < rd.len() {
                assert(rd[i] == f);
                assert(rd.contains(f));
                assert(ed.contains(f));
                let j = choose|j: int| 0 <= j < ed.len() && ed[j] == f;
                assert(files[j] == f);
            } else {
                assert(f == files.last());
                assert(files[files.len() - 1] == f);
            }
        };
        assert forall|f: Seq<char>| files.contains(f) && !spec_is_xz(f) implies #[trigger] r.contains(
            f,
        ) by {
            let i = choose|i: int| 0 <= i < files.len() && files[i] == f;
            if i < files.len() - 1 {
                assert(ed[i] == f);
                assert(ed.contains(f));
                assert(rd.contains(f));
                let j = choose|j: int| 0 <= j < rd.len() && rd[j] == f;
                assert(r[j] == f);
            } else {
                assert(files.last() == f);
                assert(r[r.len() - 1] == f);
            }
        };
    }
}

/// The split-truth law: in a well-formed store — and every transition
/// returns one — each row `(profile, name, revision)` of the installed
/// table has the directory `<name>-r<revision>` in that profile's tree.
pub proof fn lemma_rows_have_directories(st: &TexState)
    requires
        st.wf(),
    ensures
        forall|i: int|
            0 <= i < st@.installed.len() ==> {
                let row = #[trigger] st@.installed[i];
                match spec_tree_find(st@.profiles, row.profile) {
                    Some(t) => t.entries.contains(spec_store_dir(row.name, row.revision)),
                    None => false,
                }
            },
{
}

/// The round-trip law of backup and restore: restoring a backup taken of
/// an unchanged profile puts back exactly the rows the profile had, and
/// the restored tree is the copied tree.  Rows of other profiles are
/// untouched.
pub proof fn lemma_backup_restore_round_trip(
    rows: Seq<RowView>,
    backups: Seq<BackupRowView>,
    a: Seq<char>,
    bn: Seq<char>,
    now: int,
)
    requires
        forall|i: int, j: int|
            0 <= i < j < rows.len() ==> !((#[trigger] rows[i]).profile == (
            #[trigger] rows[j]).profile && rows[i].name == rows[j].name),
        forall|i: int| 0 <= i < backups.len() ==> (#[trigger] backups[i]).backup_name != bn,
    ensures
        spec_backup_rows_of(
            backups + spec_mk_backup_rows(spec_rows_of_profile(rows, a), bn, now),
            bn,
        ) == spec_mk_backup_rows(spec_rows_of_profile(rows, a), bn, now),
        spec_restore_rows(spec_mk_backup_rows(spec_rows_of_profile(rows, a), bn, now), a)
            == spec_rows_of_profile(rows, a),
        forall|nm: Seq<char>|
            #[trigger] spec_row_find(
                spec_rows_without_profile(rows, a) + spec_rows_of_profile(rows, a),
                a,
                nm,
            ) == spec_row_find(rows, a, nm),
        forall|pr: Seq<char>, nm: Seq<char>|
            pr != a ==> #[trigger] spec_row_find(
                spec_rows_without_profile(rows, a) + spec_rows_of_profile(rows, a),
                pr,
                nm,
            ) == spec_row_find(rows, pr, nm),
{
    let kept = spec_rows_of_profile(rows, a);
    let mk = spec_mk_backup_rows(kept, bn, now);
    lemma_rows_of_profile_props(rows, a);
    assert forall|i: int| 0 <= i < mk.len() implies (#[trigger] mk[i]).backup_name == bn by {
        assert(mk[i] == spec_mk_backup_rows(kept, bn, now)[i]);
    };
    lemma_backup_rows_of_concat(backups, mk, bn);
    lemma_backup_rows_of_empty(backups, bn);
    lemma_backup_rows_of_full(mk, bn);
    assert(spec_backup_rows_of(backups + mk, bn) =~= mk);
    assert(spec_restore_rows(mk, a) =~= kept);
    let without = spec_rows_without_profile(rows, a);
    lemma_rows_without_profile_props(rows, a);
    assert forall|nm: Seq<char>| #[trigger] spec_row_find(without + kept, a, nm) == spec_row_find(
        rows,
        a,
        nm,
    ) by {
        lemma_row_find_concat(without, kept, a, nm);
        assert(spec_row_find(without, a, nm) is None);
        assert(spec_row_find(kept, a, nm) == spec_row_find(rows, a, nm));
    };
    assert forall|pr: Seq<char>, nm: Seq<char>| pr != a implies #[trigger] spec_row_find(
        without + kept,
        pr,
        nm,
    ) == spec_row_find(rows, pr, nm) by {
        lemma_row_find_concat(without, kept, pr, nm);
        assert(spec_row_find(without, pr, nm) == spec_row_find(rows, pr, nm));
        if spec_row_find(without, pr, nm) is None {
            lemma_rows_of_profile_props(rows, a);
            assert forall|k: int|
                0 <= k < kept.len() implies !((#[trigger] kept[k]).profile == pr && kept[k].name
                == nm) by {
                assert(kept[k].profile == a);
            };
            lemma_row_find_none_from_all(kept, pr, nm);
        }
    };
}

/// Directory entries with one name taken out.
pub open spec fn spec_entries_without(entries: Seq<Seq<char>>, x: Seq<char>) -> Seq<Seq<char>>
    decreases entries.len(),
{
    if entries.len() == 0 {
        Seq::empty()
    } else {
        spec_entries_without(entries.drop_last(), x) + (if entries.last() != x {
            seq![entries.last()]
        } else {
            Seq::empty()
        })
    }
}

pub proof fn lemma_entries_without_membership(entries: Seq<Seq<char>>, x: Seq<char>)
    ensures
        forall|e: Seq<char>|
            #[trigger] spec_entries_without(entries, x).contains(e) <==> (entries.contains(e) && e
                != x),
    decreases entries.len(),
{
    let f = spec_entries_without(entries, x);
    if entries.len() == 0 {
    } else {
        let ed = entries.drop_last();
        let fd = spec_entries_without(ed, x);
        lemma_entries_without_membership(ed, x);
        assert forall|e: Seq<char>| #[trigger] f.contains(e) implies (entries.contains(e) && e
            != x) by {
            let i = choose|i: int| 0 <= i < f.len() && f[i] == e;
            if i < fd.len() {
                assert(fd[i] == e);
                assert(fd.contains(e));
                assert(ed.contains(e));
                let j = choose|j: int| 0 <= j < ed.len() && ed[j] == e;
                assert(entries[j] == e);
            } else {
                assert(e == entries.last());
                assert(entries[entries.len() - 1] == e);
            }
        };
        assert forall|e: Seq<char>| entries.contains(e) && e != x implies #[trigger] f.contains(
            e,
        ) by {
            let i = choose|i: int| 0 <= i < entries.len() && entries[i] == e;
            if i < entries.len() - 1 {
                assert(ed[i] == e);
                assert(ed.contains(e));
                assert(fd.contains(e));
                let j = choose|j: int| 0 <= j < fd.len() && fd[j] == e;
                assert(f[j] == e);
            } else {
                assert(entries.last() == e);
                assert(f[f.len() - 1] == e);
            }
        };
    }
}

/// Build the entry list without `x`.
fn entries_without(v: &Vec<String>, x: &str) -> (r: Vec<String>)
    ensures
        r.deep_view() == spec_entries_without(v.deep_view(), x@),
{
    let ghost dv = v.deep_view();
    let mut r: Vec<String> = Vec::new();
    let mut i: usize = 0;
    proof {
        assert(dv.subrange(0, 0) =~= Seq::<Seq<char>>::empty());
        assert(r.deep_view() =~= spec_entries_without(dv.subrange(0, 0), x@));
    }
    while i < v.len()
        invariant
            0 <= i <= v.len(),
            dv == v.deep_view(),
            r.deep_view() == spec_entries_without(dv.subrange(0, i as int), x@),
        decreases v.len() - i,
    {
        proof {
            assert(v[i as int]@ == dv[i as int]);
            assert(dv.subrange(0, i + 1).drop_last() =~= dv.subrange(0, i as int));
            assert(dv.subrange(0, i + 1).last() == dv[i as int]);
        }
        if !str_eq(v[i].as_str(), x) {
            let ghost old_dv = r.deep_view();
            r.push(v[i].clone());
            proof {
                assert(r.deep_view() =~= old_dv.push(dv[i as int]));
                assert(old_dv.push(dv[i as int]) =~= old_dv + seq![dv[i as int]]);
            }
        } else {
            proof {
                assert(r.deep_view() =~= r.deep_view() + Seq::<Seq<char>>::empty());
            }
        }
        i = i + 1;
    }
    proof {
        assert(dv.subrange(0, v.len() as int) =~= dv);
    }
    r
}

/// Whether any row of `profile` occupies `dir`.
pub open spec fn spec_any_row_uses(rows: Seq<RowView>, profile: Seq<char>, dir: Seq<char>) -> bool {
    exists|i: int|
        0 <= i < rows.len() && (#[trigger] rows[i]).profile == profile && spec_store_dir(
            rows[i].name,
            rows[i].revision,
        ) == dir
}

/// Whether a row other than `(profile, name)` in `rows` occupies `dir`.
pub open spec fn spec_other_row_uses(
    rows: Seq<RowView>,
    profile: Seq<char>,
    name: Seq<char>,
    dir: Seq<char>,
) -> bool {
    exists|i: int|
        0 <= i < rows.len() && (#[trigger] rows[i]).profile == profile && rows[i].name != name
            && spec_store_dir(rows[i].name, rows[i].revision) == dir
}

/// One row upserted: the first row bearing the key is replaced in place;
/// absent the key, the row goes to the end — as the table's
/// `INSERT OR REPLACE` behaves.
pub open spec fn spec_row_upsert(rows: Seq<RowView>, row: RowView) -> Seq<RowView>
    decreases rows.len(),
{
    if rows.len() == 0 {
        seq![row]
    } else if rows[0].profile == row.profile && rows[0].name == row.name {
        seq![row] + rows.drop_first()
    } else {
        seq![rows[0]] + spec_row_upsert(rows.drop_first(), row)
    }
}

/// Replacing the first occurrence of the key is the upsert.
pub proof fn lemma_upsert_is_update(rows: Seq<RowView>, j: int, row: RowView)
    requires
        0 <= j < rows.len(),
        rows[j].profile == row.profile && rows[j].name == row.name,
        forall|k: int|
            0 <= k < j ==> !((#[trigger] rows[k]).profile == row.profile && rows[k].name
                == row.name),
    ensures
        spec_row_upsert(rows, row) == rows.update(j, row),
    decreases j,
{
    if j == 0 {
        assert(spec_row_upsert(rows, row) =~= rows.update(0, row));
    } else {
        assert(!(rows[0].profile == row.profile && rows[0].name == row.name));
        assert(rows.drop_first()[j - 1] == rows[j]);
        assert forall|k: int|
            0 <= k < j - 1 implies !((#[trigger] rows.drop_first()[k]).profile == row.profile
            && rows.drop_first()[k].name == row.name) by {
            assert(rows.drop_first()[k] == rows[k + 1]);
        };
        lemma_upsert_is_update(rows.drop_first(), j - 1, row);
        assert(spec_row_upsert(rows, row) =~= rows.update(j, row));
    }
}

/// With the key absent, the upsert is an append.
pub proof fn lemma_upsert_is_push(rows: Seq<RowView>, row: RowView)
    requires
        forall|k: int|
            0 <= k < rows.len() ==> !((#[trigger] rows[k]).profile == row.profile && rows[k].name
                == row.name),
    ensures
        spec_row_upsert(rows, row) == rows.push(row),
    decreases rows.len(),
{
    if rows.len() == 0 {
        assert(spec_row_upsert(rows, row) =~= rows.push(row));
    } else {
        assert(forall|k: int|
            0 <= k < rows.drop_first().len() ==> rows.drop_first()[k] == rows[k + 1]);
        lemma_upsert_is_push(rows.drop_first(), row);
        assert(spec_row_upsert(rows, row) =~= rows.push(row));
    }
}

/// In a unique-keyed table, every row the upsert leaves is the new row
/// or an old row of another key.
pub proof fn lemma_upsert_elements(rows: Seq<RowView>, row: RowView)
    requires
        forall|i: int, j: int|
            0 <= i < j < rows.len() ==> !((#[trigger] rows[i]).profile == (
            #[trigger] rows[j]).profile && rows[i].name == rows[j].name),
    ensures
        forall|k: int|
            0 <= k < spec_row_upsert(rows, row).len() ==> (#[trigger] spec_row_upsert(
                rows,
                row,
            )[k] == row || (rows.contains(spec_row_upsert(rows, row)[k]) && !(spec_row_upsert(
                rows,
                row,
            )[k].profile == row.profile && spec_row_upsert(rows, row)[k].name == row.name))),
    decreases rows.len(),
{
    let u = spec_row_upsert(rows, row);
    if rows.len() == 0 {
        assert(u[0] == row);
    } else if rows[0].profile == row.profile && rows[0].name == row.name {
        assert forall|k: int|
            0 <= k < u.len() implies (#[trigger] u[k] == row || (rows.contains(u[k]) && !(
        u[k].profile == row.profile && u[k].name == row.name))) by {
            if k == 0 {
                assert(u[0] == row);
            } else {
                assert(u[k] == rows[k]);
                assert(rows.contains(rows[k]));
                // keys are unique, so no later row repeats the matched key
                assert(!(rows[k].profile == rows[0].profile && rows[k].name == rows[0].name));
            }
        };
    } else {
        let ud = spec_row_upsert(rows.drop_first(), row);
        assert forall|i: int, j: int|
            0 <= i < j < rows.drop_first().len() implies !((
        #[trigger] rows.drop_first()[i]).profile == (#[trigger] rows.drop_first()[j]).profile
            && rows.drop_first()[i].name == rows.drop_first()[j].name) by {
            assert(rows.drop_first()[i] == rows[i + 1]);
            assert(rows.drop_first()[j] == rows[j + 1]);
        };
        lemma_upsert_elements(rows.drop_first(), row);
        assert forall|k: int|
            0 <= k < u.len() implies (#[trigger] u[k] == row || (rows.contains(u[k]) && !(
        u[k].profile == row.profile && u[k].name == row.name))) by {
            if k == 0 {
                assert(u[0] == rows[0]);
                assert(rows.contains(rows[0]));
            } else {
                assert(u[k] == ud[k - 1]);
                if ud[k - 1] == row {
                } else {
                    assert(rows.drop_first().contains(ud[k - 1]));
                    let x = choose|x: int|
                        0 <= x < rows.drop_first().len() && rows.drop_first()[x] == ud[k - 1];
                    assert(rows[x + 1] == ud[k - 1]);
                }
            }
        };
    }
}

/// The row an upsert put in is found under its key.
pub proof fn lemma_upsert_find_same(rows: Seq<RowView>, row: RowView)
    ensures
        spec_row_find(spec_row_upsert(rows, row), row.profile, row.name) == Some(row),
    decreases rows.len(),
{
    let u = spec_row_upsert(rows, row);
    if rows.len() == 0 {
        assert(u[0] == row);
    } else if rows[0].profile == row.profile && rows[0].name == row.name {
        assert(u[0] == row);
    } else {
        assert(u[0] == rows[0]);
        assert(u.drop_first() =~= spec_row_upsert(rows.drop_first(), row));
        lemma_upsert_find_same(rows.drop_first(), row);
    }
}

/// An upsert leaves every other key's lookup alone.
pub proof fn lemma_upsert_find_other(
    rows: Seq<RowView>,
    row: RowView,
    profile: Seq<char>,
    name: Seq<char>,
)
    requires
        !(profile == row.profile && name == row.name),
    ensures
        spec_row_find(spec_row_upsert(rows, row), profile, name) == spec_row_find(
            rows,
            profile,
            name,
        ),
    decreases rows.len(),
{
    let u = spec_row_upsert(rows, row);
    if rows.len() == 0 {
        assert(u[0] == row);
        assert(u.drop_first() =~= Seq::<RowView>::empty());
        assert(spec_row_find(Seq::<RowView>::empty(), profile, name) is None);
    } else if rows[0].profile == row.profile && rows[0].name == row.name {
        assert(u[0] == row);
        assert(u.drop_first() =~= rows.drop_first());
    } else {
        assert(u[0] == rows[0]);
        if rows[0].profile == profile && rows[0].name == name {
        } else {
            assert(u.drop_first() =~= spec_row_upsert(rows.drop_first(), row));
            lemma_upsert_find_other(rows.drop_first(), row, profile, name);
        }
    }
}

/// The rows after a whole install plan is recorded, entry by entry.
pub open spec fn spec_record_rows(rows: Seq<RowView>, entries: Seq<RowView>) -> Seq<RowView>
    decreases entries.len(),
{
    if entries.len() == 0 {
        rows
    } else {
        spec_row_upsert(spec_record_rows(rows, entries.drop_last()), entries.last())
    }
}

/// The last plan entry bearing a name, which a later upsert lets win.
pub open spec fn spec_last_entry(entries: Seq<RowView>, name: Seq<char>) -> Option<RowView>
    decreases entries.len(),
{
    if entries.len() == 0 {
        None
    } else if entries.last().name == name {
        Some(entries.last())
    } else {
        spec_last_entry(entries.drop_last(), name)
    }
}

/// The install law: recording a plan's entries in order gives the profile
/// one row per planned name — the last planned revision of that name —
/// and touches no other profile's rows.  Into a profile with no rows, the
/// table afterwards lists exactly the planned names.
pub proof fn lemma_install_plan_rows(
    rows: Seq<RowView>,
    entries: Seq<RowView>,
    profile: Seq<char>,
    nm: Seq<char>,
)
    requires
        forall|i: int| 0 <= i < entries.len() ==> (#[trigger] entries[i]).profile == profile,
    ensures
        spec_row_find(spec_record_rows(rows, entries), profile, nm) == match spec_last_entry(
            entries,
            nm,
        ) {
            Some(e) => Some(e),
            None => spec_row_find(rows, profile, nm),
        },
        forall|pr: Seq<char>, x: Seq<char>|
            pr != profile ==> #[trigger] spec_row_find(spec_record_rows(rows, entries), pr, x)
                == spec_row_find(rows, pr, x),
    decreases entries.len(),
{
    if entries.len() > 0 {
        let ed = entries.drop_last();
        let last = entries.last();
        assert(forall|i: int| 0 <= i < ed.len() ==> ed[i] == entries[i]);
        lemma_install_plan_rows(rows, ed, profile, nm);
        assert(entries[entries.len() - 1] == last);
        assert(last.profile == profile);
        let folded = spec_record_rows(rows, ed);
        if last.name == nm {
            lemma_upsert_find_same(folded, last);
        } else {
            lemma_upsert_find_other(folded, last, profile, nm);
        }
        assert forall|pr: Seq<char>, x: Seq<char>|
            pr != profile implies #[trigger] spec_row_find(
            spec_record_rows(rows, entries),
            pr,
            x,
        ) == spec_row_find(rows, pr, x) by {
            lemma_upsert_find_other(folded, last, pr, x);
        };
    }
}

/// The update law: upserting the new revision's row and then dropping the
/// old revision's directory — which `remove_old_store_dir` does exactly
/// when no row still occupies it — leaves the profile on the new
/// revision, the new directory kept and the old one gone.
pub proof fn lemma_update_replaces_revision(
    rows: Seq<RowView>,
    entries: Seq<Seq<char>>,
    profile: Seq<char>,
    name: Seq<char>,
    old_rev: Seq<char>,
    new_rev: Seq<char>,
)
    requires
        forall|i: int, j: int|
            0 <= i < j < rows.len() ==> !((#[trigger] rows[i]).profile == (
            #[trigger] rows[j]).profile && rows[i].name == rows[j].name),
        old_rev != new_rev,
        !spec_other_row_uses(rows, profile, name, spec_store_dir(name, old_rev)),
        entries.contains(spec_store_dir(name, new_rev)),
    ensures
        ({
            let row_new = RowView { profile: profile, name: name, revision: new_rev };
            let rows1 = spec_row_upsert(rows, row_new);
            let old_dir = spec_store_dir(name, old_rev);
            let new_dir = spec_store_dir(name, new_rev);
            &&& spec_row_find(rows1, profile, name) == Some(row_new)
            &&& !spec_any_row_uses(rows1, profile, old_dir)
            &&& !spec_entries_without(entries, old_dir).contains(old_dir)
            &&& spec_entries_without(entries, old_dir).contains(new_dir)
        }),
{
    let row_new = RowView { profile: profile, name: name, revision: new_rev };
    let rows1 = spec_row_upsert(rows, row_new);
    let old_dir = spec_store_dir(name, old_rev);
    let new_dir = spec_store_dir(name, new_rev);
    lemma_upsert_find_same(rows, row_new);
    assert(new_dir != old_dir) by {
        if new_dir == old_dir {
            crate::pkg::lemma_store_dir_injective(name, new_rev, old_rev);
        }
    };
    assert(!spec_any_row_uses(rows1, profile, old_dir)) by {
        if spec_any_row_uses(rows1, profile, old_dir) {
            let k = choose|k: int|
                0 <= k < rows1.len() && (#[trigger] rows1[k]).profile == profile
                    && spec_store_dir(rows1[k].name, rows1[k].revision) == old_dir;
            lemma_upsert_elements(rows, row_new);
            if rows1[k] == row_new {
                assert(spec_store_dir(name, new_rev) == old_dir);
            } else {
                assert(rows.contains(rows1[k]));
                assert(!(rows1[k].profile == profile && rows1[k].name == name));
                assert(rows1[k].name != name);
                let x = choose|x: int| 0 <= x < rows.len() && rows[x] == rows1[k];
                assert((rows[x]).profile == profile && rows[x].name != name && spec_store_dir(
                    rows[x].name,
                    rows[x].revision,
                ) == old_dir);
                assert(spec_other_row_uses(rows, profile, name, old_dir));
            }
        }
    };
    lemma_entries_without_membership(entries, old_dir);
}

impl TexState {
    /// The store's invariant: keys are unique; the active profile exists;
    /// every installed row's store directory stands in its profile's tree;
    /// every backup row's store directory stands in its backup's tree.
    pub open spec fn wf(&self) -> bool {
        let s = self@;
        &&& forall|i: int, j: int|
            0 <= i < j < s.installed.len() ==> !((#[trigger] s.installed[i]).profile == (
            #[trigger] s.installed[j]).profile && s.installed[i].name == s.installed[j].name)
        &&& forall|i: int, j: int|
            0 <= i < j < s.backups.len() ==> !((#[trigger] s.backups[i]).backup_name == (
            #[trigger] s.backups[j]).backup_name && s.backups[i].name == s.backups[j].name)
        &&& forall|i: int, j: int|
            0 <= i < j < s.profiles.len() ==> (#[trigger] s.profiles[i]).name != (
            #[trigger] s.profiles[j]).name
        &&& forall|i: int, j: int|
            0 <= i < j < s.backup_trees.len() ==> (#[trigger] s.backup_trees[i]).name != (
            #[trigger] s.backup_trees[j]).name
        &&& match s.active {
            Some(a) => spec_tree_find(s.profiles, a) is Some,
            None => true,
        }
        &&& forall|i: int|
            0 <= i < s.installed.len() ==> match spec_tree_find(
                s.profiles,
                (#[trigger] s.installed[i]).profile,
            ) {
                Some(t) => t.entries.contains(
                    spec_store_dir(s.installed[i].name, s.installed[i].revision),
                ),
                None => false,
            }
        &&& forall|i: int|
            0 <= i < s.backups.len() ==> match spec_tree_find(
                s.backup_trees,
                (#[trigger] s.backups[i]).backup_name,
            ) {
                Some(t) => t.entries.contains(
                    spec_store_dir(s.backups[i].name, s.backups[i].revision),
                ),
                None => false,
            }
    }

    /// `profile create`: make the named profile's directory; idempotent.
    pub fn create_profile(&mut self, name: &str)
        requires
            old(self).wf(),
        ensures
            final(self).wf(),
            spec_tree_find(final(self)@.profiles, name@) is Some,
            match spec_tree_find(old(self)@.profiles, name@) {
                Some(_) => final(self)@ == old(self)@,
                None => {
                    &&& spec_tree_find(final(self)@.profiles, name@) == Some(
                        TreeView { name: name@, entries: Seq::empty() },
                    )
                    &&& forall|n: Seq<char>|
                        n != name@ ==> #[trigger] spec_tree_find(final(self)@.profiles, n)
                            == spec_tree_find(old(self)@.profiles, n)
                    &&& final(self)@.installed == old(self)@.installed
                    &&& final(self)@.backups == old(self)@.backups
                    &&& final(self)@.backup_trees == old(self)@.backup_trees
                    &&& final(self)@.active == old(self)@.active
                    &&& final(self)@.root_files == old(self)@.root_files
                },
            },
    {
        let ghost old_trees = self@.profiles;
        match tree_position(&self.profiles, name) {
            Some(_) => {
                proof {
                    assert(self@ =~= old(self)@);
                }
            },
            None => {
                let t = Tree { name: name.to_owned(), entries: Vec::new() };
                let ghost tv = t@;
                self.profiles.push(t);
                proof {
                    assert(tv.entries =~= Seq::<Seq<char>>::empty());
                    assert(self@.profiles =~= old_trees.push(tv));
                    lemma_tree_find_none(old_trees, name@);
                    lemma_tree_position_find(self@.profiles, old_trees.len() as int);
                    assert(self@.profiles[old_trees.len() as int] == tv);
                    assert forall|n: Seq<char>| n != name@ implies #[trigger] spec_tree_find(
                        self@.profiles,
                        n,
                    ) == spec_tree_find(old_trees, n) by {
                        lemma_tree_find_push_other(old_trees, tv, n);
                    };
                    assert(self.wf()) by {
                        assert(forall|i: int|
                            0 <= i < old_trees.len() ==> #[trigger] self@.profiles[i]
                                == old_trees[i]);
                        assert(self@.installed == old(self)@.installed);
                        assert forall|i: int| 0 <= i < self@.installed.len() implies match
                            spec_tree_find(
                            self@.profiles,
                            (#[trigger] self@.installed[i]).profile,
                        ) {
                            Some(t) => t.entries.contains(
                                spec_store_dir(
                                    self@.installed[i].name,
                                    self@.installed[i].revision,
                                ),
                            ),
                            None => false,
                        } by {
                            assert(spec_tree_find(old_trees, old(self)@.installed[i].profile)
                                is Some);
                            assert(self@.installed[i].profile != name@);
                        };
                        match self@.active {
                            Some(a) => {
                                if a != name@ {
                                    assert(spec_tree_find(self@.profiles, a) == spec_tree_find(
                                        old_trees,
                                        a,
                                    ));
                                }
                            },
                            None => {},
                        }
                    };
                }
            },
        }
    }

    /// `profile switch`: point the active pointer at an existing profile.
    pub fn switch_profile(&mut self, name: &str) -> (r: Result<(), TexError>)
        requires
            old(self).wf(),
        ensures
            final(self).wf(),
            match r {
                Ok(()) => {
                    &&& spec_tree_find(old(self)@.profiles, name@) is Some
                    &&& final(self)@ == (StateView { active: Some(name@), ..old(self)@ })
                },
                Err(TexError::ProfileMissing(n)) => n@ == name@ && spec_tree_find(
                    old(self)@.profiles,
                    name@,
                ) is None && final(self)@ == old(self)@,
                Err(_) => false,
            },
    {
        match tree_position(&self.profiles, name) {
            None => {
                proof {
                    assert(self@ =~= old(self)@);
                }
                Err(TexError::ProfileMissing(name.to_owned()))
            },
            Some(_) => {
                self.active = Some(name.to_owned());
                proof {
                    assert(self@ =~= (StateView { active: Some(name@), ..old(self)@ }));
                }
                Ok(())
            },
        }
    }

    /// The installer's final step when no profile was active: designate
    /// the (existing) target profile active.
    pub fn set_active_if_unset(&mut self, profile: &str)
        requires
            old(self).wf(),
            spec_tree_find(old(self)@.profiles, profile@) is Some,
        ensures
            final(self).wf(),
            final(self)@ == (StateView {
                active: match old(self)@.active {
                    Some(a) => Some(a),
                    None => Some(profile@),
                },
                ..old(self)@
            }),
    {
        if self.active.is_none() {
            self.active = Some(profile.to_owned());
        }
        proof {
            assert(self@ =~= (StateView {
                active: match old(self)@.active {
                    Some(a) => Some(a),
                    None => Some(profile@),
                },
                ..old(self)@
            }));
        }
    }

    /// One plan entry installed: the store directory `<name>-r<revision>`
    /// appears in the profile's tree (the extraction), and the row is
    /// upserted (the index write).  The profile's directory is created on
    /// the way when missing, as extraction's `create_dir_all` does.
    pub fn record_install(&mut self, profile: &str, pkg_name: &str, revision: &str)
        requires
            old(self).wf(),
        ensures
            final(self).wf(),
            spec_row_find(final(self)@.installed, profile@, pkg_name@) == Some(
                RowView { profile: profile@, name: pkg_name@, revision: revision@ },
            ),
            final(self)@.installed == spec_row_upsert(
                old(self)@.installed,
                RowView { profile: profile@, name: pkg_name@, revision: revision@ },
            ),
            forall|pr: Seq<char>, nm: Seq<char>|
                #![trigger spec_row_find(final(self)@.installed, pr, nm)]
                !(pr == profile@ && nm == pkg_name@) ==> spec_row_find(
                    final(self)@.installed,
                    pr,
                    nm,
                ) == spec_row_find(old(self)@.installed, pr, nm),
            match (
                spec_tree_find(old(self)@.profiles, profile@),
                spec_tree_find(final(self)@.profiles, profile@),
            ) {
                (Some(t0), Some(t1)) => t1.name == profile@ && t1.entries == (if t0.entries.contains(
                    spec_store_dir(pkg_name@, revision@),
                ) {
                    t0.entries
                } else {
                    t0.entries.push(spec_store_dir(pkg_name@, revision@))
                }),
                (None, Some(t1)) => t1.name == profile@ && t1.entries =~= seq![
                    spec_store_dir(pkg_name@, revision@),
                ],
                _ => false,
            },
            forall|n: Seq<char>|
                n != profile@ ==> #[trigger] spec_tree_find(final(self)@.profiles, n)
                    == spec_tree_find(old(self)@.profiles, n),
            final(self)@.backups == old(self)@.backups,
            final(self)@.backup_trees == old(self)@.backup_trees,
            final(self)@.active == old(self)@.active,
            final(self)@.root_files == old(self)@.root_files,
    {
        let dir = store_dir_name(pkg_name, revision);
        let ghost dirv = spec_store_dir(pkg_name@, revision@);
        let ghost old_trees = self@.profiles;
        match tree_position(&self.profiles, profile) {
            Some(i) => {
                let mut t = self.profiles.remove(i);
                let ghost t0 = t@;
                if !vec_contains_str(&t.entries, dir.as_str()) {
                    t.entries.push(dir);
                    proof {
                        assert(t@.entries =~= t0.entries.push(dirv));
                        assert(t@.entries[t0.entries.len() as int] == dirv);
                        assert(t@.entries.contains(dirv));
                    }
                }
                let ghost t1 = t@;
                self.profiles.insert(i, t);
                proof {
                    assert(self@.profiles =~= old_trees.update(i as int, t1));
                    assert(t1.name == profile@);
                    lemma_tree_find_update_at(old_trees, i as int, t1);
                    assert forall|n: Seq<char>| n != profile@ implies #[trigger] spec_tree_find(
                        self@.profiles,
                        n,
                    ) == spec_tree_find(old_trees, n) by {
                        lemma_tree_find_update_other(old_trees, i as int, t1, n);
                    };
                    assert forall|e: Seq<char>| t0.entries.contains(e) implies t1.entries.contains(
                        e,
                    ) by {
                        let k = choose|k: int| 0 <= k < t0.entries.len() && t0.entries[k] == e;
                        assert(t1.entries[k] == e);
                    };
                    assert(t1.entries.contains(dirv));
                }
            },
            None => {
                let mut entries: Vec<String> = Vec::new();
                entries.push(dir);
                let t = Tree { name: profile.to_owned(), entries };
                let ghost t1 = t@;
                self.profiles.push(t);
                proof {
                    assert(t1.entries =~= seq![dirv]);
                    assert(t1.entries[0] == dirv);
                    assert(t1.entries.contains(dirv));
                    assert(self@.profiles =~= old_trees.push(t1));
                    lemma_tree_find_none(old_trees, profile@);
                    lemma_tree_position_find(self@.profiles, old_trees.len() as int);
                    assert(self@.profiles[old_trees.len() as int] == t1);
                    assert forall|n: Seq<char>| n != profile@ implies #[trigger] spec_tree_find(
                        self@.profiles,
                        n,
                    ) == spec_tree_find(old_trees, n) by {
                        lemma_tree_find_push_other(old_trees, t1, n);
                    };
                }
            },
        }
        proof {
            // every old row's directory is still in its profile's tree
            assert forall|i: int| 0 <= i < self@.installed.len() implies match spec_tree_find(
                self@.profiles,
                (#[trigger] self@.installed[i]).profile,
            ) {
                Some(t) => t.entries.contains(
                    spec_store_dir(self@.installed[i].name, self@.installed[i].revision),
                ),
                None => false,
            } by {
                let pr = self@.installed[i].profile;
                assert(self@.installed[i] == old(self)@.installed[i]);
                if pr != profile@ {
                    assert(spec_tree_find(self@.profiles, pr) == spec_tree_find(old_trees, pr));
                }
            };
        }
        let ghost mid_trees = self@.profiles;
        let ghost old_rows = self@.installed;
        let row = InstalledRow {
            profile: profile.to_owned(),
            name: pkg_name.to_owned(),
            revision: revision.to_owned(),
        };
        let ghost rv = row@;
        match row_position(&self.installed, profile, pkg_name) {
            Some(j) => {
                self.installed.remove(j);
                self.installed.insert(j, row);
                proof {
                    assert(self@.installed =~= old_rows.update(j as int, rv));
                    lemma_upsert_is_update(old_rows, j as int, rv);
                    lemma_row_find_update_at(old_rows, j as int, rv);
                    assert forall|pr: Seq<char>, nm: Seq<char>|
                        #![trigger spec_row_find(self@.installed, pr, nm)]
                        !(pr == profile@ && nm == pkg_name@) implies spec_row_find(
                        self@.installed,
                        pr,
                        nm,
                    ) == spec_row_find(old_rows, pr, nm) by {
                        lemma_row_find_update_other(old_rows, j as int, rv, pr, nm);
                    };
                    assert forall|a: int, b: int|
                        0 <= a < b < self@.installed.len() implies !((
                        #[trigger] self@.installed[a]).profile == (
                        #[trigger] self@.installed[b]).profile && self@.installed[a].name
                        == self@.installed[b].name) by {
                        assert(self@.installed[a].profile == old_rows[a].profile
                            && self@.installed[a].name == old_rows[a].name);
                        assert(self@.installed[b].profile == old_rows[b].profile
                            && self@.installed[b].name == old_rows[b].name);
                    };
                }
            },
            None => {
                self.installed.push(row);
                proof {
                    assert(self@.installed =~= old_rows.push(rv));
                    lemma_row_find_none(old_rows, profile@, pkg_name@);
                    lemma_upsert_is_push(old_rows, rv);
                    lemma_row_position_find(self@.installed, old_rows.len() as int);
                    assert(self@.installed[old_rows.len() as int] == rv);
                    assert forall|pr: Seq<char>, nm: Seq<char>|
                        #![trigger spec_row_find(self@.installed, pr, nm)]
                        !(pr == profile@ && nm == pkg_name@) implies spec_row_find(
                        self@.installed,
                        pr,
                        nm,
                    ) == spec_row_find(old_rows, pr, nm) by {
                        lemma_row_find_push_other(old_rows, rv, pr, nm);
                    };
                }
            },
        }
        proof {
            assert(spec_tree_find(self@.profiles, profile@) is Some);
            let t_now = spec_tree_find(self@.profiles, profile@).unwrap();
            assert(t_now.entries.contains(dirv));
            assert forall|i: int| 0 <= i < self@.installed.len() implies match spec_tree_find(
                self@.profiles,
                (#[trigger] self@.installed[i]).profile,
            ) {
                Some(t) => t.entries.contains(
                    spec_store_dir(self@.installed[i].name, self@.installed[i].revision),
                ),
                None => false,
            } by {
                if i < old_rows.len() && self@.installed[i] == old_rows[i] {
                } else {
                    assert(self@.installed[i] == rv);
                }
            };
            match self@.active {
                Some(a) => {
                    if a != profile@ {
                        assert(spec_tree_find(self@.profiles, a) == spec_tree_find(old_trees, a));
                    }
                },
                None => {},
            }
        }
    }

    /// After an update extracted a new revision, drop the old revision's
    /// directory from the profile's tree — unless some installed row (the
    /// updated one, when the name did not change, or any other) still
    /// occupies it.  Returns whether the directory was dropped.
    pub fn remove_old_store_dir(&mut self, profile: &str, dir: &str) -> (r: bool)
        requires
            old(self).wf(),
        ensures
            final(self).wf(),
            r == !spec_any_row_uses(old(self)@.installed, profile@, dir@),
            match (
                spec_tree_find(old(self)@.profiles, profile@),
                spec_tree_find(final(self)@.profiles, profile@),
            ) {
                (Some(t0), Some(t1)) => t1.name == profile@ && t1.entries == (if r {
                    spec_entries_without(t0.entries, dir@)
                } else {
                    t0.entries
                }),
                (None, None) => true,
                _ => false,
            },
            forall|n: Seq<char>|
                n != profile@ ==> #[trigger] spec_tree_find(final(self)@.profiles, n)
                    == spec_tree_find(old(self)@.profiles, n),
            final(self)@.installed == old(self)@.installed,
            final(self)@.backups == old(self)@.backups,
            final(self)@.backup_trees == old(self)@.backup_trees,
            final(self)@.active == old(self)@.active,
            final(self)@.root_files == old(self)@.root_files,
    {
        let ghost all = self@.installed;
        let mut uses = false;
        let n = self.installed.len();
        let mut k: usize = 0;
        while k < n
            invariant
                0 <= k <= n,
                n == all.len(),
                all == self@.installed,
                self@ == old(self)@,
                old(self).wf(),
                uses == exists|x: int|
                    0 <= x < k && (#[trigger] all[x]).profile == profile@ && spec_store_dir(
                        all[x].name,
                        all[x].revision,
                    ) == dir@,
            decreases n - k,
        {
            proof {
                assert(self.installed@[k as int]@ == all[k as int]);
            }
            let rowk_dir = store_dir_name(
                self.installed[k].name.as_str(),
                self.installed[k].revision.as_str(),
            );
            if str_eq(self.installed[k].profile.as_str(), profile) && str_eq(
                rowk_dir.as_str(),
                dir,
            ) {
                uses = true;
                proof {
                    assert((all[k as int]).profile == profile@ && spec_store_dir(
                        all[k as int].name,
                        all[k as int].revision,
                    ) == dir@);
                }
            }
            k = k + 1;
        }
        if uses {
            proof {
                assert(self@ =~= old(self)@);
                if spec_tree_find(self@.profiles, profile@) is Some {
                    lemma_tree_find_name(self@.profiles, profile@);
                }
            }
            return false;
        }
        let ghost old_trees = self@.profiles;
        match tree_position(&self.profiles, profile) {
            None => {
                proof {
                    assert(self@ =~= old(self)@);
                }
                true
            },
            Some(i) => {
                let mut t = self.profiles.remove(i);
                let ghost t0 = t@;
                t.entries = entries_without(&t.entries, dir);
                let ghost t1 = t@;
                self.profiles.insert(i, t);
                proof {
                    assert(self@.profiles =~= old_trees.update(i as int, t1));
                    assert(t1.name == profile@);
                    assert(t1.entries == spec_entries_without(t0.entries, dir@));
                    lemma_tree_find_update_at(old_trees, i as int, t1);
                    assert forall|nm: Seq<char>| nm != profile@ implies #[trigger] spec_tree_find(
                        self@.profiles,
                        nm,
                    ) == spec_tree_find(old_trees, nm) by {
                        lemma_tree_find_update_other(old_trees, i as int, t1, nm);
                    };
                    lemma_entries_without_membership(t0.entries, dir@);
                    assert forall|x: int| 0 <= x < self@.installed.len() implies match
                        spec_tree_find(
                        self@.profiles,
                        (#[trigger] self@.installed[x]).profile,
                    ) {
                        Some(t) => t.entries.contains(
                            spec_store_dir(self@.installed[x].name, self@.installed[x].revision),
                        ),
                        None => false,
                    } by {
                        let pr = self@.installed[x].profile;
                        if pr == profile@ {
                            assert(spec_store_dir(
                                self@.installed[x].name,
                                self@.installed[x].revision,
                            ) != dir@);
                        } else {
                            assert(spec_tree_find(self@.profiles, pr) == spec_tree_find(
                                old_trees,
                                pr,
                            ));
                        }
                    };
                    match self@.active {
                        Some(act) => {
                            if act != profile@ {
                                assert(spec_tree_find(self@.profiles, act) == spec_tree_find(
                                    old_trees,
                                    act,
                                ));
                            }
                        },
                        None => {},
                    }
                }
                true
            },
        }
    }

    /// `remove <package>` against the active profile.  A package that is
    /// not installed fails with `PackageNotFound` and nothing changes.
    /// The store directory leaves the tree only when no other installed
    /// row of the profile occupies the same directory name.
    pub fn remove_package(&mut self, name: &str) -> (r: Result<String, TexError>)
        requires
            old(self).wf(),
        ensures
            final(self).wf(),
            match r {
                Err(TexError::NoActiveProfile) => old(self)@.active is None && final(self)@
                    == old(self)@,
                Err(TexError::PackageNotFound(n)) => {
                    &&& n@ == name@
                    &&& old(self)@.active is Some
                    &&& spec_row_find(
                        old(self)@.installed,
                        old(self)@.active.unwrap(),
                        name@,
                    ) is None
                    &&& final(self)@ == old(self)@
                },
                Ok(rev) => {
                    let a = old(self)@.active.unwrap();
                    let dir = spec_store_dir(name@, rev@);
                    &&& old(self)@.active is Some
                    &&& spec_row_find(old(self)@.installed, a, name@) == Some(
                        RowView { profile: a, name: name@, revision: rev@ },
                    )
                    &&& spec_row_find(final(self)@.installed, a, name@) is None
                    &&& forall|pr: Seq<char>, nm: Seq<char>|
                        #![trigger spec_row_find(final(self)@.installed, pr, nm)]
                        !(pr == a && nm == name@) ==> spec_row_find(
                            final(self)@.installed,
                            pr,
                            nm,
                        ) == spec_row_find(old(self)@.installed, pr, nm)
                    &&& match (
                        spec_tree_find(old(self)@.profiles, a),
                        spec_tree_find(final(self)@.profiles, a),
                    ) {
                        (Some(t0), Some(t1)) => t1.name == a && t1.entries == (
                        if spec_other_row_uses(final(self)@.installed, a, name@, dir) {
                            t0.entries
                        } else {
                            spec_entries_without(t0.entries, dir)
                        }),
                        _ => false,
                    }
                    &&& forall|n: Seq<char>|
                        n != a ==> #[trigger] spec_tree_find(final(self)@.profiles, n)
                            == spec_tree_find(old(self)@.profiles, n)
                    &&& final(self)@.backups == old(self)@.backups
                    &&& final(self)@.backup_trees == old(self)@.backup_trees
                    &&& final(self)@.active == old(self)@.active
                    &&& final(self)@.root_files == old(self)@.root_files
                },
                Err(_) => false,
            },
    {
        let a: String = match &self.active {
            None => {
                proof {
                    assert(self@ =~= old(self)@);
                }
                return Err(TexError::NoActiveProfile);
            },
            Some(x) => x.clone(),
        };
        proof {
            assert(a@ == old(self)@.active.unwrap());
        }
        let j = match row_position(&self.installed, a.as_str(), name) {
            None => {
                proof {
                    assert(self@ =~= old(self)@);
                }
                return Err(TexError::PackageNotFound(name.to_owned()));
            },
            Some(j) => j,
        };
        let ghost old_rows = self@.installed;
        let row = self.installed.remove(j);
        let ghost rv = row@;
        let dir = store_dir_name(name, row.revision.as_str());
        let ghost dirv = spec_store_dir(name@, rv.revision);
        proof {
            assert(self@.installed == old_rows.remove(j as int));
            assert(rv == old_rows[j as int]);
            assert forall|k: int|
                0 <= k < old_rows.len() && k != j implies !((#[trigger] old_rows[k]).profile
                == rv.profile && old_rows[k].name == rv.name) by {};
            lemma_row_find_remove_gone(old_rows, j as int);
            assert forall|pr: Seq<char>, nm: Seq<char>|
                #![trigger spec_row_find(self@.installed, pr, nm)]
                !(pr == a@ && nm == name@) implies spec_row_find(self@.installed, pr, nm)
                == spec_row_find(old_rows, pr, nm) by {
                lemma_row_find_remove_other(old_rows, j as int, pr, nm);
            };
            assert forall|x: int, y: int|
                0 <= x < y < self@.installed.len() implies !((
            #[trigger] self@.installed[x]).profile == (#[trigger] self@.installed[y]).profile
                && self@.installed[x].name == self@.installed[y].name) by {
                let x0 = if x < j { x } else { x + 1 };
                let y0 = if y < j { y } else { y + 1 };
                assert(self@.installed[x] == old_rows[x0]);
                assert(self@.installed[y] == old_rows[y0]);
            };
        }
        // does any remaining row of this profile still occupy the directory?
        let mut uses = false;
        let n = self.installed.len();
        let mut k: usize = 0;
        while k < n
            invariant
                0 <= k <= n,
                n == self@.installed.len(),
                dir@ == dirv,
                a@ == old(self)@.active.unwrap(),
                uses == exists|x: int|
                    0 <= x < k && (#[trigger] self@.installed[x]).profile == a@ && spec_store_dir(
                        self@.installed[x].name,
                        self@.installed[x].revision,
                    ) == dirv,
            decreases n - k,
        {
            proof {
                assert(self@.installed[k as int] == self.installed@[k as int]@);
            }
            let rowk_dir = store_dir_name(
                self.installed[k].name.as_str(),
                self.installed[k].revision.as_str(),
            );
            if str_eq(self.installed[k].profile.as_str(), a.as_str()) && str_eq(
                rowk_dir.as_str(),
                dir.as_str(),
            ) {
                uses = true;
                proof {
                    assert((self@.installed[k as int]).profile == a@ && spec_store_dir(
                        self@.installed[k as int].name,
                        self@.installed[k as int].revision,
                    ) == dirv);
                }
            }
            k = k + 1;
        }
        proof {
            // a remaining row of this profile cannot be named `name`
            assert(uses == spec_other_row_uses(self@.installed, a@, name@, dirv)) by {
                if uses {
                    let x = choose|x: int|
                        0 <= x < self@.installed.len() && (
                        #[trigger] self@.installed[x]).profile == a@ && spec_store_dir(
                            self@.installed[x].name,
                            self@.installed[x].revision,
                        ) == dirv;
                    assert(self@.installed[x].name != name@) by {
                        if self@.installed[x].name == name@ {
                            lemma_row_position_some(self@.installed, x);
                        }
                    };
                    assert(spec_other_row_uses(self@.installed, a@, name@, dirv));
                }
                if spec_other_row_uses(self@.installed, a@, name@, dirv) {
                    let x = choose|x: int|
                        0 <= x < self@.installed.len() && (
                        #[trigger] self@.installed[x]).profile == a@ && self@.installed[x].name
                            != name@ && spec_store_dir(
                            self@.installed[x].name,
                            self@.installed[x].revision,
                        ) == dirv;
                    assert(uses);
                }
            };
        }
        let ghost old_trees = self@.profiles;
        if !uses {
            let i = match tree_position(&self.profiles, a.as_str()) {
                None => {
                    proof {
                        assert(spec_tree_find(old(self)@.profiles, a@) is Some);
                        assert(false);
                    }
                    0
                },
                Some(i) => i,
            };
            let mut t = self.profiles.remove(i);
            let ghost t0 = t@;
            t.entries = entries_without(&t.entries, dir.as_str());
            let ghost t1 = t@;
            self.profiles.insert(i, t);
            proof {
                assert(self@.profiles =~= old_trees.update(i as int, t1));
                assert(t1.name == a@);
                assert(t1.entries == spec_entries_without(t0.entries, dirv));
                lemma_tree_find_update_at(old_trees, i as int, t1);
                assert forall|nm: Seq<char>| nm != a@ implies #[trigger] spec_tree_find(
                    self@.profiles,
                    nm,
                ) == spec_tree_find(old_trees, nm) by {
                    lemma_tree_find_update_other(old_trees, i as int, t1, nm);
                };
                lemma_entries_without_membership(t0.entries, dirv);
                // every remaining row's directory survives
                assert forall|x: int| 0 <= x < self@.installed.len() implies match spec_tree_find(
                    self@.profiles,
                    (#[trigger] self@.installed[x]).profile,
                ) {
                    Some(t) => t.entries.contains(
                        spec_store_dir(self@.installed[x].name, self@.installed[x].revision),
                    ),
                    None => false,
                } by {
                    let x0 = if x < j { x } else { x + 1 };
                    assert(self@.installed[x] == old_rows[x0]);
                    let pr = self@.installed[x].profile;
                    if pr == a@ {
                        assert(spec_store_dir(
                            self@.installed[x].name,
                            self@.installed[x].revision,
                        ) != dirv);
                    } else {
                        assert(spec_tree_find(self@.profiles, pr) == spec_tree_find(
                            old_trees,
                            pr,
                        ));
                    }
                };
                match self@.active {
                    Some(act) => {
                        if act != a@ {
                            assert(spec_tree_find(self@.profiles, act) == spec_tree_find(
                                old_trees,
                                act,
                            ));
                        }
                    },
                    None => {},
                }
            }
        } else {
            proof {
                assert forall|x: int| 0 <= x < self@.installed.len() implies match spec_tree_find(
                    self@.profiles,
                    (#[trigger] self@.installed[x]).profile,
                ) {
                    Some(t) => t.entries.contains(
                        spec_store_dir(self@.installed[x].name, self@.installed[x].revision),
                    ),
                    None => false,
                } by {
                    let x0 = if x < j { x } else { x + 1 };
                    assert(self@.installed[x] == old_rows[x0]);
                };
            }
        }
        proof {
            assert(rv =~= (RowView { profile: a@, name: name@, revision: rv.revision }));
            lemma_tree_find_name(self@.profiles, a@);
        }
        Ok(row.revision)
    }

    /// `profile remove`: refuse for a missing profile and for the active
    /// one; otherwise drop the tree and the profile's rows.
    pub fn remove_profile(&mut self, name: &str) -> (r: Result<(), TexError>)
        requires
            old(self).wf(),
        ensures
            final(self).wf(),
            match r {
                Ok(()) => {
                    &&& spec_tree_find(old(self)@.profiles, name@) is Some
                    &&& old(self)@.active != Some(name@)
                    &&& spec_tree_find(final(self)@.profiles, name@) is None
                    &&& forall|n: Seq<char>|
                        n != name@ ==> #[trigger] spec_tree_find(final(self)@.profiles, n)
                            == spec_tree_find(old(self)@.profiles, n)
                    &&& final(self)@.installed == spec_rows_without_profile(
                        old(self)@.installed,
                        name@,
                    )
                    &&& final(self)@.backups == old(self)@.backups
                    &&& final(self)@.backup_trees == old(self)@.backup_trees
                    &&& final(self)@.active == old(self)@.active
                    &&& final(self)@.root_files == old(self)@.root_files
                },
                Err(TexError::ProfileMissing(n)) => n@ == name@ && spec_tree_find(
                    old(self)@.profiles,
                    name@,
                ) is None && final(self)@ == old(self)@,
                Err(TexError::ProfileInUse(n)) => n@ == name@ && spec_tree_find(
                    old(self)@.profiles,
                    name@,
                ) is Some && old(self)@.active == Some(name@) && final(self)@ == old(self)@,
                Err(_) => false,
            },
    {
        let i = match tree_position(&self.profiles, name) {
            None => {
                proof {
                    assert(self@ =~= old(self)@);
                }
                return Err(TexError::ProfileMissing(name.to_owned()));
            },
            Some(i) => i,
        };
        let is_active = match &self.active {
            Some(act) => str_eq(act.as_str(), name),
            None => false,
        };
        if is_active {
            proof {
                assert(self@ =~= old(self)@);
                assert(old(self)@.active == Some(name@));
            }
            return Err(TexError::ProfileInUse(name.to_owned()));
        }
        let ghost old_trees = self@.profiles;
        let ghost old_rows = self@.installed;
        self.profiles.remove(i);
        proof {
            assert(self@.profiles == old_trees.remove(i as int));
            assert forall|k: int|
                0 <= k < old_trees.len() && k != i implies (#[trigger] old_trees[k]).name
                != old_trees[i as int].name by {};
            lemma_tree_find_remove_gone(old_trees, i as int);
            assert forall|n: Seq<char>| n != name@ implies #[trigger] spec_tree_find(
                self@.profiles,
                n,
            ) == spec_tree_find(old_trees, n) by {
                lemma_tree_find_remove(old_trees, i as int, n);
            };
            assert forall|x: int, y: int|
                0 <= x < y < self@.profiles.len() implies (#[trigger] self@.profiles[x]).name != (
            #[trigger] self@.profiles[y]).name by {
                let x0 = if x < i { x } else { x + 1 };
                let y0 = if y < i { y } else { y + 1 };
                assert(self@.profiles[x] == old_trees[x0]);
                assert(self@.profiles[y] == old_trees[y0]);
            };
        }
        // drop this profile's rows
        let ghost mid_trees = self@.profiles;
        let mut old_list: Vec<InstalledRow> = Vec::new();
        core::mem::swap(&mut old_list, &mut self.installed);
        let ghost all = old_list.deep_view();
        proof {
            assert(all == old_rows);
            assert(all.skip(0) =~= all);
            assert(all.subrange(0, 0) =~= Seq::<RowView>::empty());
            assert(self@.installed =~= spec_rows_without_profile(all.subrange(0, 0), name@));
        }
        let total = old_list.len();
        let mut idx: usize = 0;
        while idx < total
            invariant
                0 <= idx <= total,
                total == all.len(),
                old_list.deep_view() == all.skip(idx as int),
                self@.installed == spec_rows_without_profile(all.subrange(0, idx as int), name@),
                self@.profiles == mid_trees,
                self@.backups == old(self)@.backups,
                self@.backup_trees == old(self)@.backup_trees,
                self@.active == old(self)@.active,
                self@.root_files == old(self)@.root_files,
            decreases total - idx,
        {
            let ghost prev_dv = old_list.deep_view();
            proof {
                assert(prev_dv.len() == all.len() - idx);
                assert(old_list@.len() == prev_dv.len());
            }
            let r = old_list.remove(0);
            proof {
                assert(r@ == prev_dv[0]);
                assert(prev_dv[0] == all[idx as int]);
                assert forall|q: int| 0 <= q < old_list.deep_view().len() implies old_list.deep_view(
                )[q] == all.skip(idx as int + 1)[q] by {
                    assert(old_list.deep_view()[q] == prev_dv[q + 1]);
                    assert(prev_dv[q + 1] == all.skip(idx as int)[q + 1]);
                };
                assert(old_list.deep_view() =~= all.skip(idx as int + 1));
                assert(all.subrange(0, idx as int + 1).drop_last() =~= all.subrange(0, idx as int));
                assert(all.subrange(0, idx as int + 1).last() == all[idx as int]);
            }
            let ghost kept = self@.installed;
            if !str_eq(r.profile.as_str(), name) {
                self.installed.push(r);
                proof {
                    assert(self@.installed =~= kept.push(all[idx as int]));
                    assert(kept.push(all[idx as int]) =~= kept + seq![all[idx as int]]);
                }
            } else {
                proof {
                    assert(self@.installed =~= kept + Seq::<RowView>::empty());
                }
            }
            idx = idx + 1;
        }
        proof {
            assert(all.subrange(0, total as int) =~= all);
            assert(self@.profiles == mid_trees);
            assert(self@.installed == spec_rows_without_profile(old_rows, name@));
            lemma_rows_without_profile_unique(old_rows, name@);
            lemma_rows_without_profile_props(old_rows, name@);
            assert forall|x: int| 0 <= x < self@.installed.len() implies match spec_tree_find(
                self@.profiles,
                (#[trigger] self@.installed[x]).profile,
            ) {
                Some(t) => t.entries.contains(
                    spec_store_dir(self@.installed[x].name, self@.installed[x].revision),
                ),
                None => false,
            } by {
                assert(old_rows.contains(self@.installed[x]) && self@.installed[x].profile
                    != name@);
                let y = choose|y: int| 0 <= y < old_rows.len() && old_rows[y] == self@.installed[x];
                assert(spec_tree_find(self@.profiles, self@.installed[x].profile)
                    == spec_tree_find(old_trees, self@.installed[x].profile));
            };
            match self@.active {
                Some(act) => {
                    assert(act != name@);
                    assert(spec_tree_find(self@.profiles, act) == spec_tree_find(old_trees, act));
                },
                None => {},
            }
        }
        Ok(())
    }

    /// `backup create`: copy the active profile's tree under the backup's
    /// name and insert one backups row per installed row, stamped `now`.
    /// A backup name whose rows already exist is refused, as the table's
    /// primary key refuses it.
    pub fn backup_create(&mut self, backup_name: &str, now: i64) -> (r: Result<(), TexError>)
        requires
            old(self).wf(),
        ensures
            final(self).wf(),
            match r {
                Err(TexError::NoActiveProfile) => old(self)@.active is None && final(self)@
                    == old(self)@,
                Err(TexError::Database(_)) => (exists|i: int|
                    0 <= i < old(self)@.backups.len() && (
                    #[trigger] old(self)@.backups[i]).backup_name == backup_name@) && final(self)@
                    == old(self)@,
                Ok(()) => {
                    let a = old(self)@.active.unwrap();
                    &&& old(self)@.active is Some
                    &&& forall|i: int|
                        0 <= i < old(self)@.backups.len() ==> (
                        #[trigger] old(self)@.backups[i]).backup_name != backup_name@
                    &&& final(self)@.backups == old(self)@.backups + spec_mk_backup_rows(
                        spec_rows_of_profile(old(self)@.installed, a),
                        backup_name@,
                        now as int,
                    )
                    &&& match spec_tree_find(old(self)@.profiles, a) {
                        Some(t) => spec_tree_find(final(self)@.backup_trees, backup_name@)
                            == Some(TreeView { name: backup_name@, entries: t.entries }),
                        None => false,
                    }
                    &&& forall|n: Seq<char>|
                        n != backup_name@ ==> #[trigger] spec_tree_find(
                            final(self)@.backup_trees,
                            n,
                        ) == spec_tree_find(old(self)@.backup_trees, n)
                    &&& final(self)@.installed == old(self)@.installed
                    &&& final(self)@.profiles == old(self)@.profiles
                    &&& final(self)@.active == old(self)@.active
                    &&& final(self)@.root_files == old(self)@.root_files
                },
                Err(_) => false,
            },
    {
        let a: String = match &self.active {
            None => {
                proof {
                    assert(self@ =~= old(self)@);
                }
                return Err(TexError::NoActiveProfile);
            },
            Some(x) => x.clone(),
        };
        // the table's primary key: a second backup of the same name fails
        let n = self.backups.len();
        let mut k: usize = 0;
        while k < n
            invariant
                0 <= k <= n,
                n == self@.backups.len(),
                self@ == old(self)@,
                self.wf(),
                old(self)@.active is Some,
                a@ == old(self)@.active.unwrap(),
                forall|i: int|
                    0 <= i < k ==> (#[trigger] self@.backups[i]).backup_name != backup_name@,
            decreases n - k,
        {
            proof {
                assert(self@.backups[k as int] == self.backups@[k as int]@);
            }
            if str_eq(self.backups[k].backup_name.as_str(), backup_name) {
                return Err(TexError::Database(String::from_str(
                    "UNIQUE constraint failed: backups.backup_name, backups.name",
                )));
            }
            k = k + 1;
        }
        let i = match tree_position(&self.profiles, a.as_str()) {
            None => {
                proof {
                    assert(spec_tree_find(old(self)@.profiles, a@) is Some);
                    assert(false);
                }
                0
            },
            Some(i) => i,
        };
        let copied = clone_string_vec(&self.profiles[i].entries);
        proof {
            assert(self.profiles@[i as int]@ == self@.profiles[i as int]);
        }
        let bt = Tree { name: backup_name.to_owned(), entries: copied };
        let ghost btv = bt@;
        let ghost old_btrees = self@.backup_trees;
        match tree_position(&self.backup_trees, backup_name) {
            Some(b) => {
                self.backup_trees.remove(b);
                self.backup_trees.insert(b, bt);
                proof {
                    assert(self@.backup_trees =~= old_btrees.update(b as int, btv));
                    lemma_tree_find_update_at(old_btrees, b as int, btv);
                    assert forall|nm: Seq<char>| nm != backup_name@ implies #[trigger] spec_tree_find(
                        self@.backup_trees,
                        nm,
                    ) == spec_tree_find(old_btrees, nm) by {
                        lemma_tree_find_update_other(old_btrees, b as int, btv, nm);
                    };
                    assert forall|x: int, y: int|
                        0 <= x < y < self@.backup_trees.len() implies (
                    #[trigger] self@.backup_trees[x]).name != (
                    #[trigger] self@.backup_trees[y]).name by {
                        assert(self@.backup_trees[x].name == old_btrees[x].name);
                        assert(self@.backup_trees[y].name == old_btrees[y].name);
                    };
                }
            },
            None => {
                self.backup_trees.push(bt);
                proof {
                    assert(self@.backup_trees =~= old_btrees.push(btv));
                    lemma_tree_find_none(old_btrees, backup_name@);
                    lemma_tree_position_find(self@.backup_trees, old_btrees.len() as int);
                    assert(self@.backup_trees[old_btrees.len() as int] == btv);
                    assert forall|nm: Seq<char>| nm != backup_name@ implies #[trigger] spec_tree_find(
                        self@.backup_trees,
                        nm,
                    ) == spec_tree_find(old_btrees, nm) by {
                        lemma_tree_find_push_other(old_btrees, btv, nm);
                    };
                }
            },
        }
        proof {
            // the old backup rows (none named `backup_name`) keep their trees
            assert forall|x: int| 0 <= x < self@.backups.len() implies match spec_tree_find(
                self@.backup_trees,
                (#[trigger] self@.backups[x]).backup_name,
            ) {
                Some(t) => t.entries.contains(
                    spec_store_dir(self@.backups[x].name, self@.backups[x].revision),
                ),
                None => false,
            } by {
                assert(self@.backups[x] == old(self)@.backups[x]);
                assert(self@.backups[x].backup_name != backup_name@);
                assert(spec_tree_find(self@.backup_trees, self@.backups[x].backup_name)
                    == spec_tree_find(old_btrees, self@.backups[x].backup_name));
            };
        }
        // one backups row per installed row of the active profile
        let ghost rows_all = self@.installed;
        let ghost old_backups = self@.backups;
        let mut fresh: Vec<BackupRow> = Vec::new();
        let total = self.installed.len();
        let mut x: usize = 0;
        proof {
            assert(rows_all.subrange(0, 0) =~= Seq::<RowView>::empty());
            assert(fresh.deep_view() =~= spec_mk_backup_rows(
                spec_rows_of_profile(rows_all.subrange(0, 0), a@),
                backup_name@,
                now as int,
            ));
        }
        while x < total
            invariant
                0 <= x <= total,
                total == rows_all.len(),
                rows_all == self@.installed,
                a@ == old(self)@.active.unwrap(),
                fresh.deep_view() == spec_mk_backup_rows(
                    spec_rows_of_profile(rows_all.subrange(0, x as int), a@),
                    backup_name@,
                    now as int,
                ),
            decreases total - x,
        {
            proof {
                assert(self.installed@[x as int]@ == rows_all[x as int]);
                assert(rows_all.subrange(0, x as int + 1).drop_last() =~= rows_all.subrange(
                    0,
                    x as int,
                ));
                assert(rows_all.subrange(0, x as int + 1).last() == rows_all[x as int]);
            }
            if str_eq(self.installed[x].profile.as_str(), a.as_str()) {
                let ghost old_fresh = fresh.deep_view();
                let brow = BackupRow {
                    backup_name: backup_name.to_owned(),
                    profile: self.installed[x].profile.clone(),
                    name: self.installed[x].name.clone(),
                    revision: self.installed[x].revision.clone(),
                    created_at: now,
                };
                fresh.push(brow);
                proof {
                    let kept = spec_rows_of_profile(rows_all.subrange(0, x as int), a@);
                    let kept1 = spec_rows_of_profile(rows_all.subrange(0, x as int + 1), a@);
                    assert(kept1 == kept + seq![rows_all[x as int]]);
                    assert(fresh.deep_view() =~= old_fresh.push(
                        BackupRowView {
                            backup_name: backup_name@,
                            profile: rows_all[x as int].profile,
                            name: rows_all[x as int].name,
                            revision: rows_all[x as int].revision,
                            created_at: now as int,
                        },
                    ));
                    assert(fresh.deep_view() =~= spec_mk_backup_rows(
                        kept1,
                        backup_name@,
                        now as int,
                    ));
                }
            } else {
                proof {
                    assert(spec_rows_of_profile(rows_all.subrange(0, x as int + 1), a@)
                        =~= spec_rows_of_profile(rows_all.subrange(0, x as int), a@));
                }
            }
            x = x + 1;
        }
        proof {
            assert(rows_all.subrange(0, total as int) =~= rows_all);
        }
        let ghost fresh_dv = fresh.deep_view();
        self.backups.append(&mut fresh);
        proof {
            assert(self@.backups =~= old_backups + fresh_dv);
            let kept = spec_rows_of_profile(rows_all, a@);
            let mk = spec_mk_backup_rows(kept, backup_name@, now as int);
            lemma_rows_of_profile_props(rows_all, a@);
            lemma_rows_of_profile_unique(rows_all, a@);
            // new rows are uniquely keyed and their directories are in the
            // copied tree
            assert forall|p: int, q: int|
                0 <= p < q < self@.backups.len() implies !((
            #[trigger] self@.backups[p]).backup_name == (#[trigger] self@.backups[q]).backup_name
                && self@.backups[p].name == self@.backups[q].name) by {
                if q < old_backups.len() {
                    assert(self@.backups[p] == old_backups[p]);
                    assert(self@.backups[q] == old_backups[q]);
                } else {
                    assert(self@.backups[q] == mk[q - old_backups.len()]);
                    assert(mk[q - old_backups.len()].backup_name == backup_name@);
                    if p < old_backups.len() {
                        assert(self@.backups[p] == old_backups[p]);
                        assert(old_backups[p].backup_name != backup_name@);
                    } else {
                        assert(self@.backups[p] == mk[p - old_backups.len()]);
                        assert(mk[p - old_backups.len()].name == kept[p - old_backups.len()].name);
                        assert(mk[q - old_backups.len()].name == kept[q - old_backups.len()].name);
                    }
                }
            };
            assert forall|y: int| 0 <= y < self@.backups.len() implies match spec_tree_find(
                self@.backup_trees,
                (#[trigger] self@.backups[y]).backup_name,
            ) {
                Some(t) => t.entries.contains(
                    spec_store_dir(self@.backups[y].name, self@.backups[y].revision),
                ),
                None => false,
            } by {
                if y < old_backups.len() {
                    assert(self@.backups[y] == old_backups[y]);
                } else {
                    let z = y - old_backups.len();
                    assert(self@.backups[y] == mk[z]);
                    assert(mk[z].backup_name == backup_name@);
                    assert(mk[z].name == kept[z].name && mk[z].revision == kept[z].revision);
                    assert(rows_all.contains(kept[z]) && kept[z].profile == a@);
                    let w = choose|w: int| 0 <= w < rows_all.len() && rows_all[w] == kept[z];
                    assert(spec_tree_find(self@.profiles, a@).unwrap().entries.contains(
                        spec_store_dir(kept[z].name, kept[z].revision),
                    ));
                    assert(spec_tree_find(self@.backup_trees, backup_name@) == Some(btv));
                    assert(btv.entries == spec_tree_find(self@.profiles, a@).unwrap().entries);
                }
            };
        }
        Ok(())
    }

    /// `restore <backup>`: the active profile's tree is replaced by the
    /// backup's tree, and its rows by rows materialized from the backup's
    /// rows.
    pub fn restore(&mut self, backup_name: &str) -> (r: Result<(), TexError>)
        requires
            old(self).wf(),
        ensures
            final(self).wf(),
            match r {
                Err(TexError::NoActiveProfile) => old(self)@.active is None && final(self)@
                    == old(self)@,
                Err(TexError::BackupMissing(n)) => n@ == backup_name@ && spec_tree_find(
                    old(self)@.backup_trees,
                    backup_name@,
                ) is None && final(self)@ == old(self)@,
                Ok(()) => {
                    let a = old(self)@.active.unwrap();
                    let bt = spec_tree_find(old(self)@.backup_trees, backup_name@).unwrap();
                    &&& old(self)@.active is Some
                    &&& spec_tree_find(old(self)@.backup_trees, backup_name@) is Some
                    &&& final(self)@.installed == spec_rows_without_profile(
                        old(self)@.installed,
                        a,
                    ) + spec_restore_rows(
                        spec_backup_rows_of(old(self)@.backups, backup_name@),
                        a,
                    )
                    &&& match (
                        spec_tree_find(old(self)@.profiles, a),
                        spec_tree_find(final(self)@.profiles, a),
                    ) {
                        (Some(t0), Some(t1)) => t1.name == a && t1.entries == bt.entries,
                        _ => false,
                    }
                    &&& forall|n: Seq<char>|
                        n != a ==> #[trigger] spec_tree_find(final(self)@.profiles, n)
                            == spec_tree_find(old(self)@.profiles, n)
                    &&& final(self)@.backups == old(self)@.backups
                    &&& final(self)@.backup_trees == old(self)@.backup_trees
                    &&& final(self)@.active == old(self)@.active
                    &&& final(self)@.root_files == old(self)@.root_files
                },
                Err(_) => false,
            },
    {
        let a: String = match &self.active {
            None => {
                proof {
                    assert(self@ =~= old(self)@);
                }
                return Err(TexError::NoActiveProfile);
            },
            Some(x) => x.clone(),
        };
        let b = match tree_position(&self.backup_trees, backup_name) {
            None => {
                proof {
                    assert(self@ =~= old(self)@);
                }
                return Err(TexError::BackupMissing(backup_name.to_owned()));
            },
            Some(b) => b,
        };
        let ghost btv = self@.backup_trees[b as int];
        let copied = clone_string_vec(&self.backup_trees[b].entries);
        proof {
            assert(self.backup_trees@[b as int]@ == self@.backup_trees[b as int]);
        }
        // the active profile's tree becomes the backup's tree
        let i = match tree_position(&self.profiles, a.as_str()) {
            None => {
                proof {
                    assert(spec_tree_find(old(self)@.profiles, a@) is Some);
                    assert(false);
                }
                0
            },
            Some(i) => i,
        };
        let ghost old_trees = self@.profiles;
        let mut t = self.profiles.remove(i);
        t.entries = copied;
        let ghost t1 = t@;
        self.profiles.insert(i, t);
        proof {
            assert(self@.profiles =~= old_trees.update(i as int, t1));
            assert(t1.name == a@ && t1.entries == btv.entries);
            lemma_tree_find_update_at(old_trees, i as int, t1);
            assert forall|nm: Seq<char>| nm != a@ implies #[trigger] spec_tree_find(
                self@.profiles,
                nm,
            ) == spec_tree_find(old_trees, nm) by {
                lemma_tree_find_update_other(old_trees, i as int, t1, nm);
            };
            assert forall|x: int, y: int|
                0 <= x < y < self@.profiles.len() implies (#[trigger] self@.profiles[x]).name != (
            #[trigger] self@.profiles[y]).name by {
                assert(self@.profiles[x].name == old_trees[x].name);
                assert(self@.profiles[y].name == old_trees[y].name);
            };
        }
        // the profile's rows are replaced by the backup's rows
        let ghost old_rows = self@.installed;
        let mut old_list: Vec<InstalledRow> = Vec::new();
        core::mem::swap(&mut old_list, &mut self.installed);
        let ghost all = old_list.deep_view();
        proof {
            assert(all == old_rows);
            assert(all.skip(0) =~= all);
            assert(all.subrange(0, 0) =~= Seq::<RowView>::empty());
            assert(self@.installed =~= spec_rows_without_profile(all.subrange(0, 0), a@));
        }
        let total = old_list.len();
        let mut idx: usize = 0;
        while idx < total
            invariant
                0 <= idx <= total,
                total == all.len(),
                old_list.deep_view() == all.skip(idx as int),
                a@ == old(self)@.active.unwrap(),
                self@.installed == spec_rows_without_profile(all.subrange(0, idx as int), a@),
                self@.profiles == old_trees.update(i as int, t1),
                self@.backups == old(self)@.backups,
                self@.backup_trees == old(self)@.backup_trees,
                self@.active == old(self)@.active,
                self@.root_files == old(self)@.root_files,
            decreases total - idx,
        {
            let ghost prev_dv = old_list.deep_view();
            proof {
                assert(prev_dv.len() == all.len() - idx);
                assert(old_list@.len() == prev_dv.len());
            }
            let r = old_list.remove(0);
            proof {
                assert(r@ == prev_dv[0]);
                assert(prev_dv[0] == all[idx as int]);
                assert forall|q: int| 0 <= q < old_list.deep_view().len() implies old_list.deep_view(
                )[q] == all.skip(idx as int + 1)[q] by {
                    assert(old_list.deep_view()[q] == prev_dv[q + 1]);
                    assert(prev_dv[q + 1] == all.skip(idx as int)[q + 1]);
                };
                assert(old_list.deep_view() =~= all.skip(idx as int + 1));
                assert(all.subrange(0, idx as int + 1).drop_last() =~= all.subrange(
                    0,
                    idx as int,
                ));
                assert(all.subrange(0, idx as int + 1).last() == all[idx as int]);
            }
            let ghost kept = self@.installed;
            if !str_eq(r.profile.as_str(), a.as_str()) {
                self.installed.push(r);
                proof {
                    assert(self@.installed =~= kept.push(all[idx as int]));
                    assert(kept.push(all[idx as int]) =~= kept + seq![all[idx as int]]);
                }
            } else {
                proof {
                    assert(self@.installed =~= kept + Seq::<RowView>::empty());
                }
            }
            idx = idx + 1;
        }
        proof {
            assert(all.subrange(0, total as int) =~= all);
            assert(self@.installed == spec_rows_without_profile(old_rows, a@));
        }
        // materialize the backup's rows into the profile
        let ghost old_backups = self@.backups;
        let ghost without = self@.installed;
        let btotal = self.backups.len();
        let mut y: usize = 0;
        proof {
            assert(old_backups.subrange(0, 0) =~= Seq::<BackupRowView>::empty());
            assert(self@.installed =~= without + spec_restore_rows(
                spec_backup_rows_of(old_backups.subrange(0, 0), backup_name@),
                a@,
            ));
        }
        while y < btotal
            invariant
                0 <= y <= btotal,
                btotal == old_backups.len(),
                old_backups == self@.backups,
                a@ == old(self)@.active.unwrap(),
                self@.installed == without + spec_restore_rows(
                    spec_backup_rows_of(old_backups.subrange(0, y as int), backup_name@),
                    a@,
                ),
                self@.profiles == old_trees.update(i as int, t1),
                self@.backup_trees == old(self)@.backup_trees,
                self@.active == old(self)@.active,
                self@.root_files == old(self)@.root_files,
            decreases btotal - y,
        {
            proof {
                assert(self.backups@[y as int]@ == old_backups[y as int]);
                assert(old_backups.subrange(0, y as int + 1).drop_last() =~= old_backups.subrange(
                    0,
                    y as int,
                ));
                assert(old_backups.subrange(0, y as int + 1).last() == old_backups[y as int]);
            }
            if str_eq(self.backups[y].backup_name.as_str(), backup_name) {
                let ghost before = self@.installed;
                let row = InstalledRow {
                    profile: a.clone(),
                    name: self.backups[y].name.clone(),
                    revision: self.backups[y].revision.clone(),
                };
                self.installed.push(row);
                proof {
                    let of0 = spec_backup_rows_of(
                        old_backups.subrange(0, y as int),
                        backup_name@,
                    );
                    let of1 = spec_backup_rows_of(
                        old_backups.subrange(0, y as int + 1),
                        backup_name@,
                    );
                    assert(of1 == of0 + seq![old_backups[y as int]]);
                    assert(self@.installed =~= before.push(
                        RowView {
                            profile: a@,
                            name: old_backups[y as int].name,
                            revision: old_backups[y as int].revision,
                        },
                    ));
                    assert(self@.installed =~= without + spec_restore_rows(of1, a@));
                }
            } else {
                proof {
                    assert(spec_backup_rows_of(
                        old_backups.subrange(0, y as int + 1),
                        backup_name@,
                    ) =~= spec_backup_rows_of(old_backups.subrange(0, y as int), backup_name@));
                    assert(spec_restore_rows(
                        spec_backup_rows_of(old_backups.subrange(0, y as int + 1), backup_name@),
                        a@,
                    ) =~= spec_restore_rows(
                        spec_backup_rows_of(old_backups.subrange(0, y as int), backup_name@),
                        a@,
                    ));
                }
            }
            y = y + 1;
        }
        proof {
            assert(old_backups.subrange(0, btotal as int) =~= old_backups);
            let ofb = spec_backup_rows_of(old_backups, backup_name@);
            let restored = spec_restore_rows(ofb, a@);
            assert(self@.installed == without + restored);
            lemma_rows_without_profile_props(old_rows, a@);
            lemma_rows_without_profile_unique(old_rows, a@);
            lemma_backup_rows_of_props(old_backups, backup_name@);
            lemma_backup_rows_of_unique(old_backups, backup_name@);
            // unique keys in the rebuilt table
            assert forall|p: int, q: int|
                0 <= p < q < self@.installed.len() implies !((
            #[trigger] self@.installed[p]).profile == (#[trigger] self@.installed[q]).profile
                && self@.installed[p].name == self@.installed[q].name) by {
                if q < without.len() {
                    assert(self@.installed[p] == without[p]);
                    assert(self@.installed[q] == without[q]);
                } else {
                    assert(self@.installed[q] == restored[q - without.len()]);
                    assert(restored[q - without.len()].profile == a@);
                    if p < without.len() {
                        assert(self@.installed[p] == without[p]);
                        assert(without[p].profile != a@);
                    } else {
                        assert(self@.installed[p] == restored[p - without.len()]);
                        assert(restored[p - without.len()].name == ofb[p - without.len()].name);
                        assert(restored[q - without.len()].name == ofb[q - without.len()].name);
                    }
                }
            };
            // every row's directory is in its tree
            lemma_tree_find_name(old(self)@.backup_trees, backup_name@);
            assert(spec_tree_find(old(self)@.backup_trees, backup_name@) == Some(btv)) by {
                assert(btv.name == backup_name@) by {
                    lemma_tree_position_find(old(self)@.backup_trees, b as int);
                };
                lemma_tree_position_find(old(self)@.backup_trees, b as int);
            };
            assert forall|x: int| 0 <= x < self@.installed.len() implies match spec_tree_find(
                self@.profiles,
                (#[trigger] self@.installed[x]).profile,
            ) {
                Some(t) => t.entries.contains(
                    spec_store_dir(self@.installed[x].name, self@.installed[x].revision),
                ),
                None => false,
            } by {
                if x < without.len() {
                    assert(self@.installed[x] == without[x]);
                    assert(old_rows.contains(without[x]) && without[x].profile != a@);
                    let w = choose|w: int| 0 <= w < old_rows.len() && old_rows[w] == without[x];
                    assert(spec_tree_find(self@.profiles, without[x].profile) == spec_tree_find(
                        old_trees,
                        without[x].profile,
                    ));
                } else {
                    let z = x - without.len();
                    assert(self@.installed[x] == restored[z]);
                    assert(restored[z].profile == a@);
                    assert(restored[z].name == ofb[z].name && restored[z].revision
                        == ofb[z].revision);
                    assert(old_backups.contains(ofb[z]) && ofb[z].backup_name == backup_name@);
                    let w = choose|w: int| 0 <= w < old_backups.len() && old_backups[w] == ofb[z];
                    assert(spec_tree_find(old(self)@.backup_trees, backup_name@).unwrap(
                    ).entries.contains(spec_store_dir(ofb[z].name, ofb[z].revision)));
                    assert(spec_tree_find(self@.profiles, a@) == Some(t1));
                }
            };
            match self@.active {
                Some(act) => {
                    if act != a@ {
                        assert(spec_tree_find(self@.profiles, act) == spec_tree_find(
                            old_trees,
                            act,
                        ));
                    }
                },
                None => {},
            }
            assert(spec_tree_find(self@.profiles, a@) is Some);
        }
        Ok(())
    }

    /// `backup remove`: drop the backup's tree and rows.
    pub fn remove_backup(&mut self, name: &str) -> (r: Result<(), TexError>)
        requires
            old(self).wf(),
        ensures
            final(self).wf(),
            match r {
                Ok(()) => {
                    &&& spec_tree_find(old(self)@.backup_trees, name@) is Some
                    &&& spec_tree_find(final(self)@.backup_trees, name@) is None
                    &&& forall|n: Seq<char>|
                        n != name@ ==> #[trigger] spec_tree_find(final(self)@.backup_trees, n)
                            == spec_tree_find(old(self)@.backup_trees, n)
                    &&& final(self)@.backups == spec_backup_rows_without(
                        old(self)@.backups,
                        name@,
                    )
                    &&& final(self)@.installed == old(self)@.installed
                    &&& final(self)@.profiles == old(self)@.profiles
                    &&& final(self)@.active == old(self)@.active
                    &&& final(self)@.root_files == old(self)@.root_files
                },
                Err(TexError::BackupMissing(n)) => n@ == name@ && spec_tree_find(
                    old(self)@.backup_trees,
                    name@,
                ) is None && final(self)@ == old(self)@,
                Err(_) => false,
            },
    {
        let i = match tree_position(&self.backup_trees, name) {
            None => {
                proof {
                    assert(self@ =~= old(self)@);
                }
                return Err(TexError::BackupMissing(name.to_owned()));
            },
            Some(i) => i,
        };
        let ghost old_btrees = self@.backup_trees;
        let ghost old_backups = self@.backups;
        self.backup_trees.remove(i);
        proof {
            assert(self@.backup_trees == old_btrees.remove(i as int));
            assert forall|k: int|
                0 <= k < old_btrees.len() && k != i implies (#[trigger] old_btrees[k]).name
                != old_btrees[i as int].name by {};
            lemma_tree_find_remove_gone(old_btrees, i as int);
            assert forall|n: Seq<char>| n != name@ implies #[trigger] spec_tree_find(
                self@.backup_trees,
                n,
            ) == spec_tree_find(old_btrees, n) by {
                lemma_tree_find_remove(old_btrees, i as int, n);
            };
            assert forall|x: int, y: int|
                0 <= x < y < self@.backup_trees.len() implies (
            #[trigger] self@.backup_trees[x]).name != (#[trigger] self@.backup_trees[y]).name by {
                let x0 = if x < i { x } else { x + 1 };
                let y0 = if y < i { y } else { y + 1 };
                assert(self@.backup_trees[x] == old_btrees[x0]);
                assert(self@.backup_trees[y] == old_btrees[y0]);
            };
        }
        let ghost mid_btrees = self@.backup_trees;
        let mut old_list: Vec<BackupRow> = Vec::new();
        core::mem::swap(&mut old_list, &mut self.backups);
        let ghost all = old_list.deep_view();
        proof {
            assert(all == old_backups);
            assert(all.skip(0) =~= all);
            assert(all.subrange(0, 0) =~= Seq::<BackupRowView>::empty());
            assert(self@.backups =~= spec_backup_rows_without(all.subrange(0, 0), name@));
        }
        let total = old_list.len();
        let mut idx: usize = 0;
        while idx < total
            invariant
                0 <= idx <= total,
                total == all.len(),
                old_list.deep_view() == all.skip(idx as int),
                self@.backups == spec_backup_rows_without(all.subrange(0, idx as int), name@),
                self@.backup_trees == mid_btrees,
                self@.installed == old(self)@.installed,
                self@.profiles == old(self)@.profiles,
                self@.active == old(self)@.active,
                self@.root_files == old(self)@.root_files,
            decreases total - idx,
        {
            let ghost prev_dv = old_list.deep_view();
            proof {
                assert(prev_dv.len() == all.len() - idx);
                assert(old_list@.len() == prev_dv.len());
            }
            let r = old_list.remove(0);
            proof {
                assert(r@ == prev_dv[0]);
                assert(prev_dv[0] == all[idx as int]);
                assert forall|q: int| 0 <= q < old_list.deep_view().len() implies old_list.deep_view(
                )[q] == all.skip(idx as int + 1)[q] by {
                    assert(old_list.deep_view()[q] == prev_dv[q + 1]);
                    assert(prev_dv[q + 1] == all.skip(idx as int)[q + 1]);
                };
                assert(old_list.deep_view() =~= all.skip(idx as int + 1));
                assert(all.subrange(0, idx as int + 1).drop_last() =~= all.subrange(
                    0,
                    idx as int,
                ));
                assert(all.subrange(0, idx as int + 1).last() == all[idx as int]);
            }
            let ghost kept = self@.backups;
            if !str_eq(r.backup_name.as_str(), name) {
                self.backups.push(r);
                proof {
                    assert(self@.backups =~= kept.push(all[idx as int]));
                    assert(kept.push(all[idx as int]) =~= kept + seq![all[idx as int]]);
                }
            } else {
                proof {
                    assert(self@.backups =~= kept + Seq::<BackupRowView>::empty());
                }
            }
            idx = idx + 1;
        }
        proof {
            assert(all.subrange(0, total as int) =~= all);
            assert(self@.backups == spec_backup_rows_without(old_backups, name@));
            lemma_backup_rows_without_unique(old_backups, name@);
            lemma_backup_rows_without_props(old_backups, name@);
            assert forall|x: int| 0 <= x < self@.backups.len() implies match spec_tree_find(
                self@.backup_trees,
                (#[trigger] self@.backups[x]).backup_name,
            ) {
                Some(t) => t.entries.contains(
                    spec_store_dir(self@.backups[x].name, self@.backups[x].revision),
                ),
                None => false,
            } by {
                assert(old_backups.contains(self@.backups[x]) && self@.backups[x].backup_name
                    != name@);
                let w = choose|w: int|
                    0 <= w < old_backups.len() && old_backups[w] == self@.backups[x];
                assert(spec_tree_find(self@.backup_trees, self@.backups[x].backup_name)
                    == spec_tree_find(old_btrees, self@.backups[x].backup_name));
            };
        }
        Ok(())
    }

    /// `clean`: remove every `.xz` staging leftover directly under the
    /// root; with `remove_backups`, also drop every backup tree and row.
    pub fn clean(&mut self, remove_backups: bool)
        requires
            old(self).wf(),
        ensures
            final(self).wf(),
            final(self)@.root_files == spec_clean_files(old(self)@.root_files),
            forall|f: Seq<char>|
                #[trigger] final(self)@.root_files.contains(f) <==> (old(
                    self,
                )@.root_files.contains(f) && !spec_is_xz(f)),
            if remove_backups {
                final(self)@.backups =~= Seq::<BackupRowView>::empty()
                    && final(self)@.backup_trees =~= Seq::<TreeView>::empty()
            } else {
                final(self)@.backups == old(self)@.backups && final(self)@.backup_trees == old(
                    self,
                )@.backup_trees
            },
            final(self)@.installed == old(self)@.installed,
            final(self)@.profiles == old(self)@.profiles,
            final(self)@.active == old(self)@.active,
    {
        let ghost old_files = self@.root_files;
        let mut old_list: Vec<String> = Vec::new();
        core::mem::swap(&mut old_list, &mut self.root_files);
        let ghost all = old_list.deep_view();
        proof {
            assert(all == old_files);
            assert(all.skip(0) =~= all);
            assert(all.subrange(0, 0) =~= Seq::<Seq<char>>::empty());
            assert(self@.root_files =~= spec_clean_files(all.subrange(0, 0)));
        }
        let total = old_list.len();
        let mut idx: usize = 0;
        while idx < total
            invariant
                0 <= idx <= total,
                total == all.len(),
                old_list.deep_view() == all.skip(idx as int),
                self@.root_files == spec_clean_files(all.subrange(0, idx as int)),
                self@.installed == old(self)@.installed,
                self@.profiles == old(self)@.profiles,
                self@.backups == old(self)@.backups,
                self@.backup_trees == old(self)@.backup_trees,
                self@.active == old(self)@.active,
            decreases total - idx,
        {
            let ghost prev_dv = old_list.deep_view();
            proof {
                assert(prev_dv.len() == all.len() - idx);
                assert(old_list@.len() == prev_dv.len());
            }
            let f = old_list.remove(0);
            proof {
                assert(f@ == prev_dv[0]);
                assert(prev_dv[0] == all[idx as int]);
                assert forall|q: int| 0 <= q < old_list.deep_view().len() implies old_list.deep_view(
                )[q] == all.skip(idx as int + 1)[q] by {
                    assert(old_list.deep_view()[q] == prev_dv[q + 1]);
                    assert(prev_dv[q + 1] == all.skip(idx as int)[q + 1]);
                };
                assert(old_list.deep_view() =~= all.skip(idx as int + 1));
                assert(all.subrange(0, idx as int + 1).drop_last() =~= all.subrange(
                    0,
                    idx as int,
                ));
                assert(all.subrange(0, idx as int + 1).last() == all[idx as int]);
            }
            let is_xz = f.as_str().unicode_len() >= 4 && str_ends_with(f.as_str(), ".xz");
            proof {
                reveal_strlit(".xz");
                assert(is_xz == spec_is_xz(all[idx as int]));
            }
            let ghost kept = self@.root_files;
            if !is_xz {
                self.root_files.push(f);
                proof {
                    assert(self@.root_files =~= kept.push(all[idx as int]));
                    assert(kept.push(all[idx as int]) =~= kept + seq![all[idx as int]]);
                }
            } else {
                proof {
                    assert(self@.root_files =~= kept + Seq::<Seq<char>>::empty());
                }
            }
            idx = idx + 1;
        }
        proof {
            assert(all.subrange(0, total as int) =~= all);
            assert(self@.root_files == spec_clean_files(old_files));
            lemma_clean_files_membership(old_files);
        }
        if remove_backups {
            self.backups = Vec::new();
            self.backup_trees = Vec::new();
            proof {
                assert(self@.backups =~= Seq::<BackupRowView>::empty());
                assert(self@.backup_trees =~= Seq::<TreeView>::empty());
            }
        }
    }

    /// Decide the store invariant.  A caller that rebuilt a state from
    /// the filesystem and the database tests it here before trusting the
    /// model: a hand-edited store (a dangling active pointer, a deleted
    /// store directory) is reported rather than assumed away.
    pub fn check_wf(&self) -> (r: bool)
        ensures
            r == self.wf(),
    {
        let s_installed = self.installed.len();
        let mut i: usize = 0;
        while i < s_installed
            invariant
                0 <= i <= s_installed,
                s_installed == self@.installed.len(),
                forall|a: int, b: int|
                    0 <= a < b < s_installed && a < i ==> !((
                    #[trigger] self@.installed[a]).profile == (
                    #[trigger] self@.installed[b]).profile && self@.installed[a].name
                        == self@.installed[b].name),
            decreases s_installed - i,
        {
            let mut j: usize = i + 1;
            while j < s_installed
                invariant
                    i < j <= s_installed,
                    i < s_installed,
                    s_installed == self@.installed.len(),
                    forall|b: int|
                        i < b < j ==> !((#[trigger] self@.installed[b]).profile
                            == self@.installed[i as int].profile && self@.installed[b].name
                            == self@.installed[i as int].name),
                decreases s_installed - j,
            {
                proof {
                    assert(self.installed@[i as int]@ == self@.installed[i as int]);
                    assert(self.installed@[j as int]@ == self@.installed[j as int]);
                }
                if str_eq(self.installed[i].profile.as_str(), self.installed[j].profile.as_str())
                    && str_eq(self.installed[i].name.as_str(), self.installed[j].name.as_str()) {
                    proof {
                        assert(!self.wf());
                    }
                    return false;
                }
                j = j + 1;
            }
            i = i + 1;
        }
        let s_backups = self.backups.len();
        let mut i: usize = 0;
        while i < s_backups
            invariant
                0 <= i <= s_backups,
                s_backups == self@.backups.len(),
                forall|a: int, b: int|
                    0 <= a < b < s_backups && a < i ==> !((
                    #[trigger] self@.backups[a]).backup_name == (
                    #[trigger] self@.backups[b]).backup_name && self@.backups[a].name
                        == self@.backups[b].name),
            decreases s_backups - i,
        {
            let mut j: usize = i + 1;
            while j < s_backups
                invariant
                    i < j <= s_backups,
                    i < s_backups,
                    s_backups == self@.backups.len(),
                    forall|b: int|
                        i < b < j ==> !((#[trigger] self@.backups[b]).backup_name
                            == self@.backups[i as int].backup_name && self@.backups[b].name
                            == self@.backups[i as int].name),
                decreases s_backups - j,
            {
                proof {
                    assert(self.backups@[i as int]@ == self@.backups[i as int]);
                    assert(self.backups@[j as int]@ == self@.backups[j as int]);
                }
                if str_eq(
                    self.backups[i].backup_name.as_str(),
                    self.backups[j].backup_name.as_str(),
                ) && str_eq(self.backups[i].name.as_str(), self.backups[j].name.as_str()) {
                    proof {
                        assert(!self.wf());
                    }
                    return false;
                }
                j = j + 1;
            }
            i = i + 1;
        }
        let s_profiles = self.profiles.len();
        let mut i: usize = 0;
        while i < s_profiles
            invariant
                0 <= i <= s_profiles,
                s_profiles == self@.profiles.len(),
                forall|a: int, b: int|
                    0 <= a < b < s_profiles && a < i ==> (#[trigger] self@.profiles[a]).name != (
                    #[trigger] self@.profiles[b]).name,
            decreases s_profiles - i,
        {
            let mut j: usize = i + 1;
            while j < s_profiles
                invariant
                    i < j <= s_profiles,
                    i < s_profiles,
                    s_profiles == self@.profiles.len(),
                    forall|b: int|
                        i < b < j ==> (#[trigger] self@.profiles[b]).name
                            != self@.profiles[i as int].name,
                decreases s_profiles - j,
            {
                proof {
                    assert(self.profiles@[i as int]@ == self@.profiles[i as int]);
                    assert(self.profiles@[j as int]@ == self@.profiles[j as int]);
                }
                if str_eq(self.profiles[i].name.as_str(), self.profiles[j].name.as_str()) {
                    proof {
                        assert(!self.wf());
                    }
                    return false;
                }
                j = j + 1;
            }
            i = i + 1;
        }
        let s_btrees = self.backup_trees.len();
        let mut i: usize = 0;
        while i < s_btrees
            invariant
                0 <= i <= s_btrees,
                s_btrees == self@.backup_trees.len(),
                forall|a: int, b: int|
                    0 <= a < b < s_btrees && a < i ==> (#[trigger] self@.backup_trees[a]).name != (
                    #[trigger] self@.backup_trees[b]).name,
            decreases s_btrees - i,
        {
            let mut j: usize = i + 1;
            while j < s_btrees
                invariant
                    i < j <= s_btrees,
                    i < s_btrees,
                    s_btrees == self@.backup_trees.len(),
                    forall|b: int|
                        i < b < j ==> (#[trigger] self@.backup_trees[b]).name
                            != self@.backup_trees[i as int].name,
                decreases s_btrees - j,
            {
                proof {
                    assert(self.backup_trees@[i as int]@ == self@.backup_trees[i as int]);
                    assert(self.backup_trees@[j as int]@ == self@.backup_trees[j as int]);
                }
                if str_eq(self.backup_trees[i].name.as_str(), self.backup_trees[j].name.as_str()) {
                    proof {
                        assert(!self.wf());
                    }
                    return false;
                }
                j = j + 1;
            }
            i = i + 1;
        }
        match &self.active {
            Some(a) => {
                if tree_position(&self.profiles, a.as_str()).is_none() {
                    proof {
                        assert(!self.wf());
                    }
                    return false;
                }
            },
            None => {},
        }
        let mut i: usize = 0;
        while i < s_installed
            invariant
                0 <= i <= s_installed,
                s_installed == self@.installed.len(),
                forall|k: int|
                    0 <= k < i ==> match spec_tree_find(
                        self@.profiles,
                        (#[trigger] self@.installed[k]).profile,
                    ) {
                        Some(t) => t.entries.contains(
                            spec_store_dir(self@.installed[k].name, self@.installed[k].revision),
                        ),
                        None => false,
                    },
            decreases s_installed - i,
        {
            proof {
                assert(self.installed@[i as int]@ == self@.installed[i as int]);
            }
            let dir = store_dir_name(
                self.installed[i].name.as_str(),
                self.installed[i].revision.as_str(),
            );
            match tree_position(&self.profiles, self.installed[i].profile.as_str()) {
                None => {
                    proof {
                        assert(!self.wf());
                    }
                    return false;
                },
                Some(t) => {
                    proof {
                        assert(self.profiles@[t as int]@ == self@.profiles[t as int]);
                    }
                    if !vec_contains_str(&self.profiles[t].entries, dir.as_str()) {
                        proof {
                            assert(!self.wf());
                        }
                        return false;
                    }
                },
            }
            i = i + 1;
        }
        let mut i: usize = 0;
        while i < s_backups
            invariant
                0 <= i <= s_backups,
                s_backups == self@.backups.len(),
                forall|k: int|
                    0 <= k < i ==> match spec_tree_find(
                        self@.backup_trees,
                        (#[trigger] self@.backups[k]).backup_name,
                    ) {
                        Some(t) => t.entries.contains(
                            spec_store_dir(self@.backups[k].name, self@.backups[k].revision),
                        ),
                        None => false,
                    },
            decreases s_backups - i,
        {
            proof {
                assert(self.backups@[i as int]@ == self@.backups[i as int]);
            }
            let dir = store_dir_name(
                self.backups[i].name.as_str(),
                self.backups[i].revision.as_str(),
            );
            match tree_position(&self.backup_trees, self.backups[i].backup_name.as_str()) {
                None => {
                    proof {
                        assert(!self.wf());
                    }
                    return false;
                },
                Some(t) => {
                    proof {
                        assert(self.backup_trees@[t as int]@ == self@.backup_trees[t as int]);
                    }
                    if !vec_contains_str(&self.backup_trees[t].entries, dir.as_str()) {
                        proof {
                            assert(!self.wf());
                        }
                        return false;
                    }
                },
            }
            i = i + 1;
        }
        proof {
            assert(self.wf());
        }
        true
    }

    /// A fresh store: nothing installed, no profiles, no active pointer.
    pub fn new() -> (r: TexState)
        ensures
            r.wf(),
            r@.installed =~= Seq::<RowView>::empty(),
            r@.backups =~= Seq::<BackupRowView>::empty(),
            r@.profiles =~= Seq::<TreeView>::empty(),
            r@.backup_trees =~= Seq::<TreeView>::empty(),
            r@.active is None,
            r@.root_files =~= Seq::<Seq<char>>::empty(),
    {
        TexState {
            installed: Vec::new(),
            backups: Vec::new(),
            profiles: Vec::new(),
            backup_trees: Vec::new(),
            active: None,
            root_files: Vec::new(),
        }
    }
}

} // verus!
