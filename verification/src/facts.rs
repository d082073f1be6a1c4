//! Facts about the rows of the mirror and the operations on them, from which
//! the laws of the mirror are proved.

use crate::database::Error;
use crate::fetch::{ChangeView, ItemView};
use crate::model::drive::DriveView;
use crate::model::file::{FileChangelogView, FileView};
use crate::model::folder::{FolderChangelogView, FolderView};
use crate::model::path::{ChangedPathView, PathChangelogView};
use crate::reach::{in_scope, lemma_row_link, linked, one_each};
use crate::rows::{
    distinct, holds, lemma_filter, lemma_position, lemma_put, lemma_put_keeps, lemma_written,
    position, put, table,
};
use crate::state::{
    attached, file_log_key, file_op_key, folder_id_key, folder_key, folder_log_key,
    folder_op_key, in_order, latest_by_path, listed_files, listed_folders, listing_links,
    not_of_file, not_of_folder, of_file, of_folder, parents_first, path_key, reached,
    top_folder, FileChangeView, FolderChangeView, Plan, State,
};
use crate::tree::{
    below, climb, lemma_below_child, lemma_below_parent, lemma_climb_stops, lemma_climb_sum,
    lemma_last_link,
};
use vstd::prelude::*;

verus! {

/// Filtering by a condition that no row meets leaves nothing.
pub proof fn lemma_filter_none<A>(rows: Seq<A>, pick: spec_fn(A) -> bool)
    requires
        forall|i: int| 0 <= i < rows.len() ==> !pick(#[trigger] rows[i]),
    ensures
        rows.filter(pick) == Seq::<A>::empty(),
    decreases rows.len(),
{
    reveal(Seq::filter);
    if rows.len() > 0 {
        assert forall|i: int| 0 <= i < rows.drop_last().len() implies !pick(
            #[trigger] rows.drop_last()[i],
        ) by {
            assert(rows.drop_last()[i] == rows[i]);
        }
        lemma_filter_none(rows.drop_last(), pick);
    }
}

/// Emptying the changelog of a drive keeps the rows keyed, and leaves no
/// changelog row of the drive.
pub proof fn lemma_changelog_clear(s: State, drive: Seq<char>)
    requires
        s.keyed(),
    ensures
        s.changelog_clear(drive).keyed(),
        s.changelog_clear(drive).consistent() == s.consistent(),
        forall|i: int|
            0 <= i < s.changelog_clear(drive).folder_changelog.len() ==> (
            #[trigger] s.changelog_clear(drive).folder_changelog[i]).folder.drive_id != drive,
        forall|i: int|
            0 <= i < s.changelog_clear(drive).file_changelog.len() ==> (
            #[trigger] s.changelog_clear(drive).file_changelog[i]).file.drive_id != drive,
{
    let t = s.changelog_clear(drive);
    lemma_filter(s.folder_changelog, folder_log_key(), not_of_folder(drive));
    lemma_filter(s.file_changelog, file_log_key(), not_of_file(drive));
    assert forall|i: int| 0 <= i < t.folder_changelog.len() implies (
    #[trigger] t.folder_changelog[i]).folder.drive_id != drive by {
        s.folder_changelog.lemma_filter_pred(not_of_folder(drive), i);
    }
    assert forall|i: int| 0 <= i < t.file_changelog.len() implies (
    #[trigger] t.file_changelog[i]).file.drive_id != drive by {
        s.file_changelog.lemma_filter_pred(not_of_file(drive), i);
    }
    lemma_same_tables(s, t);
}

/// Whether the rows are consistent depends on the three tables alone.
pub proof fn lemma_same_tables(s: State, t: State)
    requires
        s.drives == t.drives,
        s.folders == t.folders,
        s.files == t.files,
    ensures
        s.consistent() == t.consistent(),
{
    if s.consistent() {
        assert(t.consistent());
    }
    if t.consistent() {
        assert(s.consistent());
    }
}

/// Where the folder changelog has no row of a drive, none of its rows has a
/// path in that drive.
pub proof fn lemma_no_folder_paths(s: State, log: Seq<FolderChangelogView>, drive: Seq<char>)
    requires
        forall|i: int| 0 <= i < log.len() ==> (#[trigger] log[i]).folder.drive_id != drive,
    ensures
        s.folder_paths(log, drive) == Seq::<PathChangelogView>::empty(),
    decreases log.len(),
{
    if log.len() > 0 {
        assert forall|i: int| 0 <= i < log.drop_last().len() implies (
        #[trigger] log.drop_last()[i]).folder.drive_id != drive by {
            assert(log.drop_last()[i] == log[i]);
        }
        lemma_no_folder_paths(s, log.drop_last(), drive);
    }
}

/// Where the file changelog has no row of a drive, none of its rows has a
/// path in that drive.
pub proof fn lemma_no_file_paths(s: State, log: Seq<FileChangelogView>, drive: Seq<char>)
    requires
        forall|i: int| 0 <= i < log.len() ==> (#[trigger] log[i]).file.drive_id != drive,
    ensures
        s.file_paths(log, drive) == Seq::<PathChangelogView>::empty(),
    decreases log.len(),
{
    if log.len() > 0 {
        assert forall|i: int| 0 <= i < log.drop_last().len() implies (
        #[trigger] log.drop_last()[i]).file.drive_id != drive by {
            assert(log.drop_last()[i] == log[i]);
        }
        lemma_no_file_paths(s, log.drop_last(), drive);
    }
}

/// After the changelog of a drive has been emptied, it reports nothing of
/// the drive: no folder, no file and no path.
pub proof fn lemma_cleared_reports_nothing(s: State, drive: Seq<char>)
    requires
        s.keyed(),
    ensures
        s.changelog_clear(drive).changed_folders(drive).len() == 0,
        s.changelog_clear(drive).changed_files(drive).len() == 0,
        s.changelog_clear(drive).changed_paths(drive).len() == 0,
{
    let t = s.changelog_clear(drive);
    lemma_changelog_clear(s, drive);
    lemma_filter_none(t.folder_changelog, of_folder(drive));
    lemma_filter_none(t.file_changelog, of_file(drive));
    lemma_no_folder_paths(t, t.folder_changelog, drive);
    lemma_no_file_paths(t, t.file_changelog, drive);
    assert(t.path_changelog(drive) =~= Seq::empty());
}

/// Writing a folder keeps the rows keyed and touches nothing but the
/// folder's own row and its row in the changelog.
pub proof fn lemma_folder_upsert(s: State, f: FolderView)
    requires
        s.keyed(),
    ensures
        s.folder_upsert(f).keyed(),
        s.folder_upsert(f).folders == s.folders.insert(f.key(), f),
        s.folder_upsert(f).folder_changes() == s.folder_changes().insert(
            f.key(),
            FolderChangelogView { folder: f, deleted: false },
        ),
{
    lemma_written(
        s.folder_changelog,
        folder_log_key(),
        FolderChangelogView { folder: f, deleted: false },
    );
}

/// Writing a file keeps the rows keyed and touches nothing but the file's
/// own row and its row in the changelog.
pub proof fn lemma_file_upsert(s: State, f: FileView)
    requires
        s.keyed(),
    ensures
        s.file_upsert(f).keyed(),
        s.file_upsert(f).files == s.files.insert(f.key(), f),
        s.file_upsert(f).file_changes() == s.file_changes().insert(
            f.key(),
            FileChangelogView { file: f, deleted: false },
        ),
{
    lemma_written(s.file_changelog, file_log_key(), FileChangelogView { file: f, deleted: false });
}

/// Deleting a file keeps the rows keyed; the file is gone, and where it was
/// there the changelog tells of its deletion.
pub proof fn lemma_file_delete(s: State, id: Seq<char>, drive: Seq<char>)
    requires
        s.keyed(),
    ensures
        s.file_delete(id, drive).keyed(),
        s.file_delete(id, drive).files == s.files.remove((id, drive)),
        s.files.contains_key((id, drive)) ==> s.file_delete(id, drive).file_changes()
            == s.file_changes().insert(
            (id, drive),
            FileChangelogView { file: s.files[(id, drive)], deleted: true },
        ),
        !s.files.contains_key((id, drive)) ==> s.file_delete(id, drive) == s,
{
    if s.files.contains_key((id, drive)) {
        lemma_written(
            s.file_changelog,
            file_log_key(),
            FileChangelogView { file: s.files[(id, drive)], deleted: true },
        );
    } else {
        assert(s.files.remove((id, drive)) =~= s.files);
    }
}

/// Deleting a folder keeps the rows keyed. Where the folder was there, it is
/// gone with all that lay below it and with the files in any of these; every
/// other row is as it was, and the changelog tells of the deletion of the
/// folder itself.
pub proof fn lemma_folder_delete(s: State, id: Seq<char>, drive: Seq<char>)
    requires
        s.keyed(),
    ensures
        s.folder_delete(id, drive).keyed(),
        s.folder_delete(id, drive).drives == s.drives,
        !s.folder_delete(id, drive).folders.contains_key((id, drive)),
        forall|k: (Seq<char>, Seq<char>)| #[trigger]
            s.folder_delete(id, drive).folders.contains_key(k) ==> s.folders.contains_key(k)
                && s.folder_delete(id, drive).folders[k] == s.folders[k],
        forall|k: (Seq<char>, Seq<char>)| #[trigger]
            s.folder_delete(id, drive).files.contains_key(k) ==> s.files.contains_key(k)
                && s.folder_delete(id, drive).files[k] == s.files[k],
        s.folders.contains_key((id, drive)) ==> s.folder_delete(id, drive).folder_changes()
            == s.folder_changes().insert(
            (id, drive),
            FolderChangelogView { folder: s.folders[(id, drive)], deleted: true },
        ),
        s.folders.contains_key((id, drive)) ==> forall|k: (Seq<char>, Seq<char>)| #[trigger]
            s.folders.contains_key(k) ==> (s.folder_delete(id, drive).folders.contains_key(k)
                <==> !s.doomed(id, drive).contains(k)),
        s.folders.contains_key((id, drive)) ==> forall|k: (Seq<char>, Seq<char>)| #[trigger]
            s.files.contains_key(k) ==> (s.folder_delete(id, drive).files.contains_key(k)
                <==> !s.doomed(id, drive).contains((s.files[k].parent, k.1))),
        !s.folders.contains_key((id, drive)) ==> s.folder_delete(id, drive) == s,
        s.folder_delete(id, drive).file_changelog == s.file_changelog,
{
    if s.folders.contains_key((id, drive)) {
        lemma_written(
            s.folder_changelog,
            folder_log_key(),
            FolderChangelogView { folder: s.folders[(id, drive)], deleted: true },
        );
        assert(s.doomed(id, drive).contains((id, drive)));
    }
}

/// Renaming a folder keeps the rows keyed and the folder's other fields.
pub proof fn lemma_folder_update_name(s: State, id: Seq<char>, drive: Seq<char>, name: Seq<char>)
    requires
        s.keyed(),
    ensures
        s.folder_update_name(id, drive, name).keyed(),
        s.folder_update_name(id, drive, name).drives == s.drives,
        s.folder_update_name(id, drive, name).files == s.files,
        s.folder_update_name(id, drive, name).folders.dom() == s.folders.dom(),
        forall|k: (Seq<char>, Seq<char>)| #[trigger]
            s.folders.contains_key(k) ==> s.folder_update_name(id, drive, name).folders[k] == (if k
                == (id, drive) {
                FolderView { name, ..s.folders[k] }
            } else {
                s.folders[k]
            }),
{
    if s.folders.contains_key((id, drive)) {
        let f = FolderView { name, ..s.folders[(id, drive)] };
        lemma_folder_upsert(s, f);
        assert(s.folders.insert(f.key(), f).dom() =~= s.folders.dom());
    }
}

/// Noting an operation for an id keeps the other operations and their
/// seats.
pub proof fn lemma_plan_put_folder(
    plan: Plan,
    drive: Seq<char>,
    id: Seq<char>,
    op: FolderChangeView,
)
    requires
        plan.sound(drive),
        op matches FolderChangeView::Update(f) ==> f.id == id && f.drive_id == drive,
    ensures
        (Plan { folders: put(plan.folders, folder_op_key(), (id, op)), ..plan }).sound(
            drive,
        ),
{
    let next = put(plan.folders, folder_op_key(), (id, op));
    lemma_put(plan.folders, folder_op_key(), (id, op));
    assert forall|i: int| 0 <= i < next.len() implies (match (#[trigger] next[i]).1 {
        FolderChangeView::Update(f) => f.id == next[i].0 && f.drive_id == drive,
        FolderChangeView::Remove => true,
    }) by {
        if holds(plan.folders, folder_op_key(), id) {
            let p = position(plan.folders, folder_op_key(), id);
            if i != p {
                assert(next[i] == plan.folders[i]);
            }
        } else {
            if i < plan.folders.len() {
                assert(next[i] == plan.folders[i]);
            }
        }
    }
}

pub proof fn lemma_plan_put_file(plan: Plan, drive: Seq<char>, id: Seq<char>, op: FileChangeView)
    requires
        plan.sound(drive),
        op matches FileChangeView::Update(f) ==> f.id == id && f.drive_id == drive,
    ensures
        (Plan { files: put(plan.files, file_op_key(), (id, op)), ..plan }).sound(drive),
{
    let next = put(plan.files, file_op_key(), (id, op));
    lemma_put(plan.files, file_op_key(), (id, op));
    assert forall|i: int| 0 <= i < next.len() implies (match (#[trigger] next[i]).1 {
        FileChangeView::Update(f) => f.id == next[i].0 && f.drive_id == drive,
        FileChangeView::Remove => true,
    }) by {
        if holds(plan.files, file_op_key(), id) {
            let p = position(plan.files, file_op_key(), id);
            if i != p {
                assert(next[i] == plan.files[i]);
            }
        } else {
            if i < plan.files.len() {
                assert(next[i] == plan.files[i]);
            }
        }
    }
}

/// What a page asks for names no id twice, and every row that it wants
/// written sits under its own id and belongs to the drive.
pub proof fn lemma_plan_sound(drive: Seq<char>, changes: Seq<ChangeView>)
    ensures
        Plan::of(drive, changes).sound(drive),
    decreases changes.len(),
{
    if changes.len() > 0 {
        lemma_plan_sound(drive, changes.drop_last());
        let plan = Plan::of(drive, changes.drop_last());
        match changes.last() {
            ChangeView::DriveChanged { .. } => {},
            ChangeView::DriveRemoved(_) => {},
            ChangeView::ItemChanged(item) => {
                if item.drive_id() == drive {
                    match item {
                        ItemView::Folder(f) => {
                            lemma_plan_put_folder(plan, drive, f.id, FolderChangeView::Update(f));
                        },
                        ItemView::File(f) => {
                            lemma_plan_put_file(plan, drive, f.id, FileChangeView::Update(f));
                        },
                    }
                } else {
                    lemma_plan_put_folder(plan, drive, item.id(), FolderChangeView::Remove);
                    lemma_plan_put_file(plan, drive, item.id(), FileChangeView::Remove);
                }
            },
            ChangeView::ItemRemoved(id) => {
                lemma_plan_put_folder(plan, drive, id, FolderChangeView::Remove);
                lemma_plan_put_file(plan, drive, id, FileChangeView::Remove);
            },
        }
    }
}

/// The operation writes the folder with the key `k`.
pub open spec fn writes_folder(
    op: (Seq<char>, FolderChangeView),
    k: (Seq<char>, Seq<char>),
) -> bool {
    op.1 matches FolderChangeView::Update(f) && f.key() == k
}

/// The key that a folder operation touches.
pub open spec fn folder_op_touches(drive: Seq<char>, op: (Seq<char>, FolderChangeView)) -> (
    Seq<char>,
    Seq<char>,
) {
    match op.1 {
        FolderChangeView::Update(f) => f.key(),
        FolderChangeView::Remove => (op.0, drive),
    }
}

/// The key that a file operation touches.
pub open spec fn file_op_touches(drive: Seq<char>, op: (Seq<char>, FileChangeView)) -> (
    Seq<char>,
    Seq<char>,
) {
    match op.1 {
        FileChangeView::Update(f) => f.key(),
        FileChangeView::Remove => (op.0, drive),
    }
}

/// Renaming the top folder keeps the rows keyed and touches no drive, no
/// file and no folder but the top folder of the drive.
pub proof fn lemma_renamed(s: State, drive: Seq<char>, changes: Seq<ChangeView>)
    requires
        s.keyed(),
    ensures
        s.renamed(drive, changes).keyed(),
        s.renamed(drive, changes).drives == s.drives,
        s.renamed(drive, changes).files == s.files,
        s.renamed(drive, changes).folders.dom() == s.folders.dom(),
        forall|k: (Seq<char>, Seq<char>)| #[trigger]
            s.folders.contains_key(k) && k != (drive, drive) ==> s.renamed(
                drive,
                changes,
            ).folders[k] == s.folders[k],
        s.folders.contains_key((drive, drive)) ==> s.renamed(drive, changes).folders[(
            drive,
            drive,
        )].parent == s.folders[(drive, drive)].parent,
    decreases changes.len(),
{
    if changes.len() > 0 {
        lemma_renamed(s, drive, changes.drop_last());
        let t = s.renamed(drive, changes.drop_last());
        match changes.last() {
            ChangeView::DriveChanged { name, .. } => {
                lemma_folder_update_name(t, drive, drive, name);
            },
            _ => {},
        }
    }
}

/// Applying folder operations keeps the rows keyed and touches no drive and
/// no row of the file changelog.
pub proof fn lemma_folder_ops(s: State, drive: Seq<char>, ops: Seq<(Seq<char>, FolderChangeView)>)
    requires
        s.keyed(),
    ensures
        s.with_folder_ops(drive, ops).keyed(),
        s.with_folder_ops(drive, ops).drives == s.drives,
        s.with_folder_ops(drive, ops).file_changelog == s.file_changelog,
    decreases ops.len(),
{
    if ops.len() > 0 {
        lemma_folder_ops(s, drive, ops.drop_last());
        let t = s.with_folder_ops(drive, ops.drop_last());
        match ops.last().1 {
            FolderChangeView::Update(f) => {
                lemma_folder_upsert(t, f);
            },
            FolderChangeView::Remove => {
                lemma_folder_delete(t, ops.last().0, drive);
            },
        }
    }
}

/// Applying file operations keeps the rows keyed and touches no drive, no
/// folder and no row of the folder changelog.
pub proof fn lemma_file_ops(s: State, drive: Seq<char>, ops: Seq<(Seq<char>, FileChangeView)>)
    requires
        s.keyed(),
    ensures
        s.with_file_ops(drive, ops).keyed(),
        s.with_file_ops(drive, ops).drives == s.drives,
        s.with_file_ops(drive, ops).folders == s.folders,
        s.with_file_ops(drive, ops).folder_changelog == s.folder_changelog,
    decreases ops.len(),
{
    if ops.len() > 0 {
        lemma_file_ops(s, drive, ops.drop_last());
        let t = s.with_file_ops(drive, ops.drop_last());
        match ops.last().1 {
            FileChangeView::Update(f) => {
                lemma_file_upsert(t, f);
            },
            FileChangeView::Remove => {
                lemma_file_delete(t, ops.last().0, drive);
            },
        }
    }
}

/// Applying operations is applying the first of them and then the rest.
pub proof fn lemma_folder_ops_split(
    s: State,
    drive: Seq<char>,
    ops: Seq<(Seq<char>, FolderChangeView)>,
    n: int,
)
    requires
        0 <= n <= ops.len(),
    ensures
        s.with_folder_ops(drive, ops) == s.with_folder_ops(drive, ops.take(n)).with_folder_ops(
            drive,
            ops.skip(n),
        ),
    decreases ops.len(),
{
    if n == ops.len() {
        assert(ops.take(n) =~= ops);
        assert(ops.skip(n) =~= Seq::empty());
    } else {
        lemma_folder_ops_split(s, drive, ops.drop_last(), n);
        assert(ops.drop_last().take(n) =~= ops.take(n));
        assert(ops.drop_last().skip(n) =~= ops.skip(n).drop_last());
        assert(ops.skip(n).last() == ops.last());
    }
}

/// Applying operations is applying the first of them and then the rest.
pub proof fn lemma_file_ops_split(
    s: State,
    drive: Seq<char>,
    ops: Seq<(Seq<char>, FileChangeView)>,
    n: int,
)
    requires
        0 <= n <= ops.len(),
    ensures
        s.with_file_ops(drive, ops) == s.with_file_ops(drive, ops.take(n)).with_file_ops(
            drive,
            ops.skip(n),
        ),
    decreases ops.len(),
{
    if n == ops.len() {
        assert(ops.take(n) =~= ops);
        assert(ops.skip(n) =~= Seq::empty());
    } else {
        lemma_file_ops_split(s, drive, ops.drop_last(), n);
        assert(ops.drop_last().take(n) =~= ops.take(n));
        assert(ops.drop_last().skip(n) =~= ops.skip(n).drop_last());
        assert(ops.skip(n).last() == ops.last());
    }
}

/// A folder that is not there and that no operation writes is not there
/// afterwards.
pub proof fn lemma_folder_ops_absent(
    s: State,
    drive: Seq<char>,
    ops: Seq<(Seq<char>, FolderChangeView)>,
    k: (Seq<char>, Seq<char>),
)
    requires
        s.keyed(),
        !s.folders.contains_key(k),
        forall|i: int|
            0 <= i < ops.len() ==> !writes_folder(#[trigger] ops[i], k),
    ensures
        !s.with_folder_ops(drive, ops).folders.contains_key(k),
    decreases ops.len(),
{
    if ops.len() > 0 {
        assert forall|i: int|
            0 <= i < ops.drop_last().len() implies !writes_folder(
            #[trigger] ops.drop_last()[i],
            k,
        ) by {
            assert(ops.drop_last()[i] == ops[i]);
        }
        lemma_folder_ops_absent(s, drive, ops.drop_last(), k);
        lemma_folder_ops(s, drive, ops.drop_last());
        let t = s.with_folder_ops(drive, ops.drop_last());
        match ops.last().1 {
            FolderChangeView::Update(f) => {
                assert(ops[ops.len() - 1].1 == FolderChangeView::Update(f));
            },
            FolderChangeView::Remove => {
                lemma_folder_delete(t, ops.last().0, drive);
            },
        }
    }
}

/// A changelog row of a folder that no operation touches stays as it is.
pub proof fn lemma_folder_ops_log(
    s: State,
    drive: Seq<char>,
    ops: Seq<(Seq<char>, FolderChangeView)>,
    k: (Seq<char>, Seq<char>),
)
    requires
        s.keyed(),
        forall|i: int| 0 <= i < ops.len() ==> folder_op_touches(drive, #[trigger] ops[i]) != k,
    ensures
        s.with_folder_ops(drive, ops).folder_changes().contains_key(k)
            == s.folder_changes().contains_key(k),
        s.folder_changes().contains_key(k) ==> s.with_folder_ops(drive, ops).folder_changes()[k]
            == s.folder_changes()[k],
    decreases ops.len(),
{
    if ops.len() > 0 {
        assert forall|i: int| 0 <= i < ops.drop_last().len() implies folder_op_touches(
            drive,
            #[trigger] ops.drop_last()[i],
        ) != k by {
            assert(ops.drop_last()[i] == ops[i]);
        }
        lemma_folder_ops_log(s, drive, ops.drop_last(), k);
        lemma_folder_ops(s, drive, ops.drop_last());
        let t = s.with_folder_ops(drive, ops.drop_last());
        assert(folder_op_touches(drive, ops[ops.len() - 1]) != k);
        match ops.last().1 {
            FolderChangeView::Update(f) => {
                lemma_folder_upsert(t, f);
            },
            FolderChangeView::Remove => {
                lemma_folder_delete(t, ops.last().0, drive);
            },
        }
    }
}

/// A file and its changelog row that no operation touches stay as they
/// are.
pub proof fn lemma_file_ops_kept(
    s: State,
    drive: Seq<char>,
    ops: Seq<(Seq<char>, FileChangeView)>,
    k: (Seq<char>, Seq<char>),
)
    requires
        s.keyed(),
        forall|i: int| 0 <= i < ops.len() ==> file_op_touches(drive, #[trigger] ops[i]) != k,
    ensures
        s.with_file_ops(drive, ops).files.contains_key(k) == s.files.contains_key(k),
        s.files.contains_key(k) ==> s.with_file_ops(drive, ops).files[k] == s.files[k],
        s.with_file_ops(drive, ops).file_changes().contains_key(k) == s.file_changes().contains_key(
            k,
        ),
        s.file_changes().contains_key(k) ==> s.with_file_ops(drive, ops).file_changes()[k]
            == s.file_changes()[k],
    decreases ops.len(),
{
    if ops.len() > 0 {
        assert forall|i: int| 0 <= i < ops.drop_last().len() implies file_op_touches(
            drive,
            #[trigger] ops.drop_last()[i],
        ) != k by {
            assert(ops.drop_last()[i] == ops[i]);
        }
        lemma_file_ops_kept(s, drive, ops.drop_last(), k);
        lemma_file_ops(s, drive, ops.drop_last());
        let t = s.with_file_ops(drive, ops.drop_last());
        assert(file_op_touches(drive, ops[ops.len() - 1]) != k);
        match ops.last().1 {
            FileChangeView::Update(f) => {
                lemma_file_upsert(t, f);
            },
            FileChangeView::Remove => {
                lemma_file_delete(t, ops.last().0, drive);
            },
        }
    }
}

/// In a plan every operation but the one for an id touches another key than
/// that id's.
pub proof fn lemma_others_touch_others(plan: Plan, drive: Seq<char>, at: int)
    requires
        plan.sound(drive),
        0 <= at < plan.folders.len(),
    ensures
        forall|i: int|
            0 <= i < plan.folders.len() && i != at ==> folder_op_touches(
                drive,
                #[trigger] plan.folders[i],
            ) != (plan.folders[at].0, drive),
{
    assert forall|i: int| 0 <= i < plan.folders.len() && i != at implies folder_op_touches(
        drive,
        #[trigger] plan.folders[i],
    ) != (plan.folders[at].0, drive) by {
        if i < at {
            assert(folder_op_key()(plan.folders[i]) != folder_op_key()(plan.folders[at]));
        } else {
            assert(folder_op_key()(plan.folders[at]) != folder_op_key()(plan.folders[i]));
        }
    }
}

/// In a plan every file operation but the one for an id touches another key
/// than that id's.
pub proof fn lemma_other_files_touch_others(plan: Plan, drive: Seq<char>, at: int)
    requires
        plan.sound(drive),
        0 <= at < plan.files.len(),
    ensures
        forall|i: int|
            0 <= i < plan.files.len() && i != at ==> file_op_touches(
                drive,
                #[trigger] plan.files[i],
            ) != (plan.files[at].0, drive),
{
    assert forall|i: int| 0 <= i < plan.files.len() && i != at implies file_op_touches(
        drive,
        #[trigger] plan.files[i],
    ) != (plan.files[at].0, drive) by {
        if i < at {
            assert(file_op_key()(plan.files[i]) != file_op_key()(plan.files[at]));
        } else {
            assert(file_op_key()(plan.files[at]) != file_op_key()(plan.files[i]));
        }
    }
}

/// Moving the cursor of a drive keeps the rows keyed and touches nothing
/// but the drive's row.
pub proof fn lemma_drive_update_token(s: State, drive: Seq<char>, page_token: Seq<char>)
    requires
        s.keyed(),
    ensures
        s.drive_update_token(drive, page_token).keyed(),
        s.drive_update_token(drive, page_token).drives.dom() == s.drives.dom(),
{
    if s.drives.contains_key(drive) {
        assert(s.drive_update_token(drive, page_token).drives.dom() =~= s.drives.dom());
    }
}

/// Where the rows are consistent and a folder is not there, nothing lies
/// below it: no folder and no file.
pub proof fn lemma_nothing_below_absent(t: State, drive: Seq<char>, f: Seq<char>)
    requires
        t.keyed(),
        t.consistent(),
        !t.folders.contains_key((f, drive)),
    ensures
        forall|x: Seq<char>| !#[trigger] below(t.links(drive), x, f),
        forall|k: (Seq<char>, Seq<char>)| #[trigger]
            t.files.contains_key(k) && k.1 == drive ==> t.files[k].parent != f,
{
    let links = t.links(drive);
    assert forall|x: Seq<char>| !#[trigger] below(links, x, f) by {
        if below(links, x, f) {
            let k = choose|k: nat| k >= 1 && #[trigger] climb(links, x, k) == Some(f);
            lemma_last_link(links, x, f, k);
            let y = choose|y: Seq<char>| #[trigger] links.contains_key(y) && links[y] == f;
            assert(t.folders.contains_key((y, drive)));
        }
    }
}

/// The rows when the turn of the folder operation at `at` comes.
pub open spec fn before_folder_op(
    s: State,
    drive: Seq<char>,
    changes: Seq<ChangeView>,
    page_token: Seq<char>,
    at: int,
) -> State {
    s.drive_update_token(drive, page_token).renamed(drive, changes).with_folder_ops(
        drive,
        Plan::of(drive, changes).folders.take(at),
    )
}

/// The rows when the turn of the file operation at `at` comes.
pub open spec fn before_file_op(
    s: State,
    drive: Seq<char>,
    changes: Seq<ChangeView>,
    page_token: Seq<char>,
    at: int,
) -> State {
    let plan = Plan::of(drive, changes);
    s.drive_update_token(drive, page_token).renamed(drive, changes).with_folder_ops(
        drive,
        plan.folders,
    ).with_file_ops(drive, plan.files.take(at))
}

/// What the folder operation at `at` leaves stays to the end of the page in
/// what concerns the folder of that operation: whether the folder is
/// there, when the operation is a removal, and its row in the changelog.
pub proof fn lemma_folder_op_lasts(
    s: State,
    drive: Seq<char>,
    changes: Seq<ChangeView>,
    page_token: Seq<char>,
    at: int,
)
    requires
        s.keyed(),
        0 <= at < Plan::of(drive, changes).folders.len(),
    ensures
        ({
            let plan = Plan::of(drive, changes);
            let key = (plan.folders[at].0, drive);
            let before = before_folder_op(s, drive, changes, page_token, at);
            let after = before_folder_op(s, drive, changes, page_token, at + 1);
            let merged = s.merged(drive, changes, page_token);
            &&& before.keyed()
            &&& after.keyed()
            &&& merged.keyed()
            &&& after == match plan.folders[at].1 {
                FolderChangeView::Update(f) => before.folder_upsert(f),
                FolderChangeView::Remove => before.folder_delete(key.0, drive),
            }
            &&& merged.folder_changes().contains_key(key) == after.folder_changes().contains_key(
                key,
            )
            &&& after.folder_changes().contains_key(key) ==> merged.folder_changes()[key]
                == after.folder_changes()[key]
            &&& plan.folders[at].1 is Remove ==> !merged.folders.contains_key(key)
        }),
{
    let plan = Plan::of(drive, changes);
    let ops = plan.folders;
    let key = (ops[at].0, drive);
    lemma_plan_sound(drive, changes);
    lemma_drive_update_token(s, drive, page_token);
    let s1 = s.drive_update_token(drive, page_token);
    lemma_renamed(s1, drive, changes);
    let s2 = s1.renamed(drive, changes);
    let before = s2.with_folder_ops(drive, ops.take(at));
    let after = s2.with_folder_ops(drive, ops.take(at + 1));
    lemma_folder_ops(s2, drive, ops.take(at));
    lemma_folder_ops(s2, drive, ops.take(at + 1));
    assert(ops.take(at + 1).drop_last() =~= ops.take(at));
    assert(ops.take(at + 1).last() == ops[at]);
    let rest = ops.skip(at + 1);
    lemma_folder_ops_split(s2, drive, ops, at + 1);
    let s3 = s2.with_folder_ops(drive, ops);
    assert(s3 == after.with_folder_ops(drive, rest));
    lemma_others_touch_others(plan, drive, at);
    assert forall|i: int| 0 <= i < rest.len() implies folder_op_touches(drive, #[trigger] rest[i])
        != key by {
        assert(rest[i] == ops[at + 1 + i]);
    }
    lemma_folder_ops_log(after, drive, rest, key);
    lemma_folder_ops(after, drive, rest);
    lemma_file_ops(s3, drive, plan.files);
    if ops[at].1 is Remove {
        lemma_folder_delete(before, key.0, drive);
        assert forall|i: int|
            0 <= i < rest.len() implies !writes_folder(#[trigger] rest[i], key) by {
            assert(folder_op_touches(drive, rest[i]) != key);
        }
        lemma_folder_ops_absent(after, drive, rest, key);
    }
}

/// What the file operation at `at` leaves stays to the end of the page in
/// what concerns the file of that operation: the file itself and its row in
/// the changelog.
pub proof fn lemma_file_op_lasts(
    s: State,
    drive: Seq<char>,
    changes: Seq<ChangeView>,
    page_token: Seq<char>,
    at: int,
)
    requires
        s.keyed(),
        0 <= at < Plan::of(drive, changes).files.len(),
    ensures
        ({
            let plan = Plan::of(drive, changes);
            let key = (plan.files[at].0, drive);
            let before = before_file_op(s, drive, changes, page_token, at);
            let after = before_file_op(s, drive, changes, page_token, at + 1);
            let merged = s.merged(drive, changes, page_token);
            &&& before.keyed()
            &&& after.keyed()
            &&& merged.keyed()
            &&& after == match plan.files[at].1 {
                FileChangeView::Update(f) => before.file_upsert(f),
                FileChangeView::Remove => before.file_delete(key.0, drive),
            }
            &&& merged.files.contains_key(key) == after.files.contains_key(key)
            &&& after.files.contains_key(key) ==> merged.files[key] == after.files[key]
            &&& merged.file_changes().contains_key(key) == after.file_changes().contains_key(key)
            &&& after.file_changes().contains_key(key) ==> merged.file_changes()[key]
                == after.file_changes()[key]
        }),
{
    let plan = Plan::of(drive, changes);
    let ops = plan.files;
    let key = (ops[at].0, drive);
    lemma_plan_sound(drive, changes);
    lemma_drive_update_token(s, drive, page_token);
    let s1 = s.drive_update_token(drive, page_token);
    lemma_renamed(s1, drive, changes);
    let s2 = s1.renamed(drive, changes);
    lemma_folder_ops(s2, drive, plan.folders);
    let s3 = s2.with_folder_ops(drive, plan.folders);
    let before = s3.with_file_ops(drive, ops.take(at));
    let after = s3.with_file_ops(drive, ops.take(at + 1));
    lemma_file_ops(s3, drive, ops.take(at));
    lemma_file_ops(s3, drive, ops.take(at + 1));
    assert(ops.take(at + 1).drop_last() =~= ops.take(at));
    assert(ops.take(at + 1).last() == ops[at]);
    let rest = ops.skip(at + 1);
    lemma_file_ops_split(s3, drive, ops, at + 1);
    lemma_other_files_touch_others(plan, drive, at);
    assert forall|i: int| 0 <= i < rest.len() implies file_op_touches(drive, #[trigger] rest[i])
        != key by {
        assert(rest[i] == ops[at + 1 + i]);
    }
    lemma_file_ops_kept(after, drive, rest, key);
    lemma_file_ops(after, drive, rest);
}

/// A folder that hangs from a folder that is not there, and that no
/// operation touches, stays as it is while no operation writes the folder
/// that it hangs from.
pub proof fn lemma_folder_ops_dangling(
    s: State,
    drive: Seq<char>,
    ops: Seq<(Seq<char>, FolderChangeView)>,
    g: FolderView,
    z: Seq<char>,
)
    requires
        s.keyed(),
        g.drive_id == drive,
        g.parent == Some(z),
        s.folders.contains_key(g.key()),
        s.folders[g.key()] == g,
        !s.folders.contains_key((z, drive)),
        forall|i: int|
            0 <= i < ops.len() ==> folder_op_touches(drive, #[trigger] ops[i]) != g.key(),
        forall|i: int|
            0 <= i < ops.len() ==> !writes_folder(#[trigger] ops[i], (z, drive)),
    ensures
        s.with_folder_ops(drive, ops).folders.contains_key(g.key()),
        s.with_folder_ops(drive, ops).folders[g.key()] == g,
        !s.with_folder_ops(drive, ops).folders.contains_key((z, drive)),
    decreases ops.len(),
{
    if ops.len() > 0 {
        let front = ops.drop_last();
        assert forall|i: int| 0 <= i < front.len() implies folder_op_touches(
            drive,
            #[trigger] front[i],
        ) != g.key() by {
            assert(front[i] == ops[i]);
        }
        assert forall|i: int|
            0 <= i < front.len() implies !writes_folder(#[trigger] front[i], (z, drive)) by {
            assert(front[i] == ops[i]);
        }
        lemma_folder_ops_dangling(s, drive, front, g, z);
        lemma_folder_ops(s, drive, front);
        let t = s.with_folder_ops(drive, front);
        assert(folder_op_touches(drive, ops[ops.len() - 1]) != g.key());
        match ops.last().1 {
            FolderChangeView::Update(f) => {
                lemma_folder_upsert(t, f);
                assert(ops[ops.len() - 1].1 == FolderChangeView::Update(f));
            },
            FolderChangeView::Remove => {
                let r = ops.last().0;
                lemma_folder_delete(t, r, drive);
                if t.folders.contains_key((r, drive)) {
                    let links = t.links(drive);
                    if below(links, g.id, r) {
                        lemma_below_parent(links, g.id, r);
                        if z != r {
                            lemma_below_parent(links, z, r);
                        }
                    }
                    assert(!t.doomed(r, drive).contains(g.key()));
                }
            },
        }
    }
}

/// A folder without a parent that no operation touches stays as it is.
pub proof fn lemma_folder_ops_top(
    s: State,
    drive: Seq<char>,
    ops: Seq<(Seq<char>, FolderChangeView)>,
    key: (Seq<char>, Seq<char>),
)
    requires
        s.keyed(),
        key.1 == drive,
        s.folders.contains_key(key),
        s.folders[key].parent is None,
        forall|i: int| 0 <= i < ops.len() ==> folder_op_touches(drive, #[trigger] ops[i]) != key,
    ensures
        s.with_folder_ops(drive, ops).folders.contains_key(key),
        s.with_folder_ops(drive, ops).folders[key] == s.folders[key],
    decreases ops.len(),
{
    if ops.len() > 0 {
        let front = ops.drop_last();
        assert forall|i: int| 0 <= i < front.len() implies folder_op_touches(
            drive,
            #[trigger] front[i],
        ) != key by {
            assert(front[i] == ops[i]);
        }
        lemma_folder_ops_top(s, drive, front, key);
        lemma_folder_ops(s, drive, front);
        let t = s.with_folder_ops(drive, front);
        assert(folder_op_touches(drive, ops[ops.len() - 1]) != key);
        match ops.last().1 {
            FolderChangeView::Update(f) => {
                lemma_folder_upsert(t, f);
            },
            FolderChangeView::Remove => {
                let r = ops.last().0;
                lemma_folder_delete(t, r, drive);
                if t.folders.contains_key((r, drive)) {
                    if below(t.links(drive), key.0, r) {
                        lemma_below_parent(t.links(drive), key.0, r);
                    }
                    assert(!t.doomed(r, drive).contains(key));
                }
            },
        }
    }
}

/// The top folder of a drive has, after the renamings of a page, the name
/// that the last of them gives.
pub proof fn lemma_renamed_last(s: State, drive: Seq<char>, changes: Seq<ChangeView>, at: int)
    requires
        s.keyed(),
        s.folders.contains_key((drive, drive)),
        0 <= at < changes.len(),
        changes[at] is DriveChanged,
        forall|i: int| at < i < changes.len() ==> !(#[trigger] changes[i] is DriveChanged),
    ensures
        s.renamed(drive, changes).folders[(drive, drive)] == (FolderView {
            name: changes[at]->DriveChanged_name,
            ..s.folders[(drive, drive)]
        }),
    decreases changes.len(),
{
    let front = changes.drop_last();
    lemma_renamed(s, drive, front);
    let t = s.renamed(drive, front);
    if at == changes.len() - 1 {
        lemma_folder_update_name(t, drive, drive, changes[at]->DriveChanged_name);
        assert(s.folders.dom().contains((drive, drive)));
        assert(t.folders.dom().contains((drive, drive)));
        lemma_renamed_fields(s, drive, front);
    } else {
        assert forall|i: int|
            at < i < front.len() implies !(#[trigger] front[i] is DriveChanged) by {
            assert(front[i] == changes[i]);
        }
        assert(front[at] == changes[at]);
        lemma_renamed_last(s, drive, front, at);
        assert(!(changes[changes.len() - 1] is DriveChanged));
    }
}

/// The renamings of a page change nothing of the top folder but its name.
pub proof fn lemma_renamed_fields(s: State, drive: Seq<char>, changes: Seq<ChangeView>)
    requires
        s.keyed(),
        s.folders.contains_key((drive, drive)),
    ensures
        s.renamed(drive, changes).folders.contains_key((drive, drive)),
        (FolderView { name: s.folders[(drive, drive)].name, ..s.renamed(drive, changes).folders[(
            drive,
            drive,
        )] }) == s.folders[(drive, drive)],
    decreases changes.len(),
{
    lemma_renamed(s, drive, changes);
    assert(s.folders.dom().contains((drive, drive)));
    assert(s.renamed(drive, changes).folders.dom().contains((drive, drive)));
    if changes.len() > 0 {
        lemma_renamed_fields(s, drive, changes.drop_last());
        lemma_renamed(s, drive, changes.drop_last());
        let t = s.renamed(drive, changes.drop_last());
        match changes.last() {
            ChangeView::DriveChanged { name, .. } => {
                lemma_folder_update_name(t, drive, drive, name);
            },
            _ => {},
        }
    }
}

/// Where `k` links lead from a folder up to a folder without a parent, `k`
/// is the depth of the folder.
pub proof fn lemma_depth(t: State, drive: Seq<char>, x: Seq<char>, k: nat)
    requires
        t.rooted_at(drive, x, k),
    ensures
        t.rooted(drive, x),
        t.depth(drive, x) == k,
{
    let links = t.links(drive);
    let d = t.depth(drive, x);
    assert(t.rooted_at(drive, x, d));
    if d < k {
        lemma_climb_stops(links, x, d, k);
    } else if k < d {
        lemma_climb_stops(links, x, k, d);
    }
}

/// `chain` names folders of `drive` from one of them upwards, each the
/// parent of the one before.
pub open spec fn climbs_up(s: State, drive: Seq<char>, chain: Seq<Seq<char>>) -> bool {
    &&& chain.len() >= 1
    &&& forall|i: int| 0 <= i < chain.len() ==> s.folders.contains_key((#[trigger] chain[i], drive))
    &&& forall|i: int|
        0 <= i < chain.len() - 1 ==> s.folders[(#[trigger] chain[i], drive)].parent == Some(
            chain[i + 1],
        )
}

/// `chain` names the folders of `drive` from one of them upwards, each the
/// parent of the one before, and ends at the top folder of the drive, which
/// has no parent.
pub open spec fn leads_up(s: State, drive: Seq<char>, chain: Seq<Seq<char>>) -> bool {
    &&& climbs_up(s, drive, chain)
    &&& chain.last() == drive
    &&& s.folders[(drive, drive)].parent is None
}

/// `chain` ends without having come to the top folder of `drive`: at a
/// folder without a parent that is not the top folder, or at a folder whose
/// parent is not there.
pub open spec fn breaks_off(s: State, drive: Seq<char>, chain: Seq<Seq<char>>) -> bool {
    &&& climbs_up(s, drive, chain)
    &&& match s.folders[(chain.last(), drive)].parent {
        None => chain.last() != drive,
        Some(z) => !s.folders.contains_key((z, drive)),
    }
}

/// The names of the folders of `chain`, from the last of them down to the
/// first.
pub open spec fn names_down(s: State, drive: Seq<char>, chain: Seq<Seq<char>>) -> Seq<Seq<char>> {
    Seq::new(chain.len(), |i: int| s.folders[(chain[chain.len() - 1 - i], drive)].name)
}

/// Climbing from the first folder of a chain comes by the folders of the
/// chain, one after the other.
pub proof fn lemma_chain_climb(s: State, drive: Seq<char>, chain: Seq<Seq<char>>, j: nat)
    requires
        climbs_up(s, drive, chain),
        j < chain.len(),
    ensures
        climb(s.links(drive), chain[0], j) == Some(chain[j as int]),
    decreases j,
{
    if j > 0 {
        let i = (j - 1) as nat;
        lemma_chain_climb(s, drive, chain, i);
        lemma_climb_sum(s.links(drive), chain[0], i, 1);
        let c = chain[i as int];
        assert(s.links(drive).contains_key(c));
        assert(climb(s.links(drive), s.links(drive)[c], 0) == Some(chain[j as int]));
    }
}

/// Of the rows that have the same path the latest is kept, and no path is
/// kept twice.
pub proof fn lemma_latest_by_path(rows: Seq<PathChangelogView>)
    ensures
        distinct(latest_by_path(rows), path_key()),
        forall|i: int|
            0 <= i < rows.len() ==> table(latest_by_path(rows), path_key()).contains_key(
                (#[trigger] rows[i]).path,
            ),
        forall|i: int|
            0 <= i < rows.len() && (forall|j: int| i < j < rows.len() ==> rows[j].path
                != rows[i].path) ==> table(latest_by_path(rows), path_key())[(
            #[trigger] rows[i]).path] == rows[i],
        forall|p: Seq<char>| #[trigger]
            table(latest_by_path(rows), path_key()).contains_key(p) ==> exists|i: int|
                0 <= i < rows.len() && (#[trigger] rows[i]).path == p,
    decreases rows.len(),
{
    if rows.len() > 0 {
        let front = rows.drop_last();
        let last = rows.last();
        lemma_latest_by_path(front);
        lemma_written(latest_by_path(front), path_key(), last);
        let kept = table(latest_by_path(rows), path_key());
        assert forall|i: int| 0 <= i < rows.len() implies kept.contains_key(
            (#[trigger] rows[i]).path,
        ) by {
            if i < front.len() {
                assert(front[i] == rows[i]);
            }
        }
        assert forall|i: int|
            0 <= i < rows.len() && (forall|j: int| i < j < rows.len() ==> rows[j].path
                != rows[i].path) implies kept[(#[trigger] rows[i]).path] == rows[i] by {
            if i < front.len() {
                assert(front[i] == rows[i]);
                assert forall|j: int| i < j < front.len() implies front[j].path
                    != front[i].path by {
                    assert(front[j] == rows[j]);
                }
                assert(rows[rows.len() - 1].path != rows[i].path);
            }
        }
        assert forall|p: Seq<char>| #[trigger] kept.contains_key(p) implies exists|i: int|
            0 <= i < rows.len() && (#[trigger] rows[i]).path == p by {
            if p == last.path {
                assert(rows[rows.len() - 1].path == p);
            } else {
                let i = choose|i: int| 0 <= i < front.len() && (#[trigger] front[i]).path == p;
                assert(rows[i].path == p);
            }
        }
    } else {
        assert(table(latest_by_path(rows), path_key()) =~= Map::empty());
    }
}

/// Every changelog row of a folder of the drive that has a path has its row
/// in the path changelog of the drive.
pub proof fn lemma_folder_paths_has(
    s: State,
    log: Seq<FolderChangelogView>,
    drive: Seq<char>,
    i: int,
)
    requires
        0 <= i < log.len(),
        log[i].folder.drive_id == drive,
        s.folder_path(log[i]) is Some,
    ensures
        s.folder_paths(log, drive).contains(s.folder_path(log[i])->0),
    decreases log.len(),
{
    let row = s.folder_path(log[i])->0;
    let all = s.folder_paths(log, drive);
    let rest = s.folder_paths(log.drop_last(), drive);
    if i == log.len() - 1 {
        assert(all[all.len() - 1] == row);
    } else {
        assert(log.drop_last()[i] == log[i]);
        lemma_folder_paths_has(s, log.drop_last(), drive, i);
        let j = choose|j: int| 0 <= j < rest.len() && rest[j] == row;
        assert(all[j] == row);
    }
}

/// Every changelog row of a file of the drive that has a path has its row
/// in the path changelog of the drive.
pub proof fn lemma_file_paths_has(s: State, log: Seq<FileChangelogView>, drive: Seq<char>, i: int)
    requires
        0 <= i < log.len(),
        log[i].file.drive_id == drive,
        s.file_path(log[i]) is Some,
    ensures
        s.file_paths(log, drive).contains(s.file_path(log[i])->0),
    decreases log.len(),
{
    let row = s.file_path(log[i])->0;
    let all = s.file_paths(log, drive);
    let rest = s.file_paths(log.drop_last(), drive);
    if i == log.len() - 1 {
        assert(all[all.len() - 1] == row);
    } else {
        assert(log.drop_last()[i] == log[i]);
        lemma_file_paths_has(s, log.drop_last(), drive, i);
        let j = choose|j: int| 0 <= j < rest.len() && rest[j] == row;
        assert(all[j] == row);
    }
}

/// The path of a row of the path changelog is among the paths that are
/// reported.
pub proof fn lemma_reported(s: State, drive: Seq<char>, row: PathChangelogView)
    requires
        s.path_changelog(drive).contains(row),
    ensures
        exists|j: int|
            0 <= j < s.changed_paths(drive).len() && (#[trigger] s.changed_paths(
                drive,
            )[j]).path().inner().path == row.path,
{
    let rows = s.path_changelog(drive);
    let kept = latest_by_path(rows);
    lemma_latest_by_path(rows);
    let i = choose|i: int| 0 <= i < rows.len() && rows[i] == row;
    assert(table(kept, path_key()).contains_key(rows[i].path));
    let j = position(kept, path_key(), row.path);
    assert(path_key()(kept[j]) == row.path);
    assert(s.changed_paths(drive)[j] == kept[j].changed());
}

/// One of the rows has the key `k`.
pub open spec fn wrote_folder(rows: Seq<FolderView>, k: (Seq<char>, Seq<char>)) -> bool {
    exists|q: int| 0 <= q < rows.len() && (#[trigger] rows[q]).key() == k
}

/// None of the rows is there yet, and no two of them have the same key.
pub open spec fn fresh_folders(s: State, rows: Seq<FolderView>) -> bool {
    &&& distinct(rows, folder_key())
    &&& forall|q: int| 0 <= q < rows.len() ==> !s.folders.contains_key((#[trigger] rows[q]).key())
}

/// Writing new folders succeeds where none of them is there yet and no two
/// have the same key. It adds these folders and changes nothing else of the
/// tables.
pub proof fn lemma_with_folders(s: State, rows: Seq<FolderView>)
    requires
        s.keyed(),
    ensures
        match s.with_folders(rows) {
            Ok(t) => {
                &&& fresh_folders(s, rows)
                &&& t.keyed()
                &&& t.drives == s.drives
                &&& t.files == s.files
                &&& forall|k: (Seq<char>, Seq<char>)| #[trigger]
                    t.folders.contains_key(k) <==> s.folders.contains_key(k) || wrote_folder(
                        rows,
                        k,
                    )
                &&& forall|k: (Seq<char>, Seq<char>)| #[trigger]
                    s.folders.contains_key(k) ==> t.folders[k] == s.folders[k]
                &&& forall|q: int|
                    0 <= q < rows.len() ==> t.folders[(#[trigger] rows[q]).key()] == rows[q]
                &&& t.file_changelog == s.file_changelog
                &&& forall|k: (Seq<char>, Seq<char>)| #[trigger]
                    t.folder_changes().contains_key(k) <==> s.folder_changes().contains_key(k)
                        || wrote_folder(rows, k)
                &&& forall|k: (Seq<char>, Seq<char>)| #[trigger]
                    s.folder_changes().contains_key(k) && !wrote_folder(rows, k)
                        ==> t.folder_changes()[k] == s.folder_changes()[k]
                &&& forall|q: int|
                    0 <= q < rows.len() ==> t.folder_changes()[(#[trigger] rows[q]).key()] == (
                    FolderChangelogView { folder: rows[q], deleted: false })
            },
            Err(e) => e == Error::Constraint && !fresh_folders(s, rows),
        },
    decreases rows.len(),
{
    if rows.len() > 0 {
        let front = rows.drop_last();
        let last = rows.last();
        lemma_with_folders(s, front);
        match s.with_folders(front) {
            Ok(m) => {
                assert forall|q: int| 0 <= q < front.len() implies (#[trigger] rows[q]).key()
                    == front[q].key() by {}
                if m.folders.contains_key(last.key()) {
                    if s.folders.contains_key(last.key()) {
                        assert(s.folders.contains_key(rows[rows.len() - 1].key()));
                    } else {
                        let q = choose|q: int|
                            0 <= q < front.len() && (#[trigger] front[q]).key() == last.key();
                        assert(folder_key()(rows[q]) == folder_key()(rows[rows.len() - 1]));
                    }
                } else {
                    lemma_folder_upsert(m, last);
                    let t = m.folder_upsert(last);
                    assert forall|a: int, b: int| 0 <= a < b < rows.len() implies folder_key()(
                        #[trigger] rows[a],
                    ) != folder_key()(#[trigger] rows[b]) by {
                        if b < front.len() {
                            assert(folder_key()(front[a]) != folder_key()(front[b]));
                        } else {
                            assert(front[a].key() == rows[a].key());
                            assert(!wrote_folder(front, last.key()));
                        }
                    }
                    assert forall|q: int| 0 <= q < rows.len() implies !s.folders.contains_key(
                        (#[trigger] rows[q]).key(),
                    ) by {
                        if q < front.len() {
                            assert(front[q] == rows[q]);
                        }
                    }
                    assert forall|k: (Seq<char>, Seq<char>)| #[trigger]
                        t.folders.contains_key(k) <==> s.folders.contains_key(k) || wrote_folder(
                            rows,
                            k,
                        ) by {
                        if wrote_folder(rows, k) {
                            let q = choose|q: int|
                                0 <= q < rows.len() && (#[trigger] rows[q]).key() == k;
                            if q < front.len() {
                                assert(front[q].key() == k);
                            }
                        }
                        if wrote_folder(front, k) {
                            let q = choose|q: int|
                                0 <= q < front.len() && (#[trigger] front[q]).key() == k;
                            assert(rows[q].key() == k);
                        }
                        if k == last.key() {
                            assert(rows[rows.len() - 1].key() == k);
                        }
                    }
                    assert forall|q: int| 0 <= q < rows.len() implies t.folders[(
                    #[trigger] rows[q]).key()] == rows[q] by {
                        if q < front.len() {
                            assert(front[q] == rows[q]);
                            assert(wrote_folder(front, front[q].key()));
                        }
                    }
                }
            },
            Err(e) => {
                if fresh_folders(s, rows) {
                    assert forall|a: int, b: int| 0 <= a < b < front.len() implies folder_key()(
                        #[trigger] front[a],
                    ) != folder_key()(#[trigger] front[b]) by {
                        assert(folder_key()(rows[a]) != folder_key()(rows[b]));
                    }
                    assert forall|q: int| 0 <= q < front.len() implies !s.folders.contains_key(
                        (#[trigger] front[q]).key(),
                    ) by {
                        assert(front[q] == rows[q]);
                    }
                }
            },
        }
    }
}

/// One of the files that lie in a folder that hangs from the top folder has
/// the key `k`.
pub open spec fn wrote_file(
    files: Seq<FileView>,
    folders: Seq<FolderView>,
    drive: Seq<char>,
    k: (Seq<char>, Seq<char>),
) -> bool {
    exists|j: int|
        0 <= j < files.len() && attached(folders, drive, (#[trigger] files[j]).parent)
            && files[j].key() == k
}

/// None of the files to write is there yet, and no two of them have the
/// same key.
pub open spec fn fresh_files(
    s: State,
    files: Seq<FileView>,
    folders: Seq<FolderView>,
    drive: Seq<char>,
) -> bool {
    &&& forall|a: int, b: int|
        0 <= a < b < files.len() && attached(folders, drive, (#[trigger] files[a]).parent)
            && attached(folders, drive, (#[trigger] files[b]).parent) ==> files[a].key()
            != files[b].key()
    &&& forall|j: int|
        0 <= j < files.len() && attached(folders, drive, (#[trigger] files[j]).parent)
            ==> !s.files.contains_key(files[j].key())
}

/// Writing the files of a listing succeeds where none of those to write is
/// there yet and no two have the same key. It adds these files and changes
/// nothing else of the tables.
pub proof fn lemma_with_files(
    s: State,
    files: Seq<FileView>,
    folders: Seq<FolderView>,
    drive: Seq<char>,
)
    requires
        s.keyed(),
    ensures
        match s.with_files(files, folders, drive) {
            Ok(t) => {
                &&& fresh_files(s, files, folders, drive)
                &&& t.keyed()
                &&& t.drives == s.drives
                &&& t.folders == s.folders
                &&& forall|k: (Seq<char>, Seq<char>)| #[trigger]
                    t.files.contains_key(k) <==> s.files.contains_key(k) || wrote_file(
                        files,
                        folders,
                        drive,
                        k,
                    )
                &&& forall|k: (Seq<char>, Seq<char>)| #[trigger]
                    s.files.contains_key(k) ==> t.files[k] == s.files[k]
                &&& forall|j: int|
                    0 <= j < files.len() && attached(folders, drive, (#[trigger] files[j]).parent)
                        ==> t.files[files[j].key()] == files[j]
                &&& t.folder_changelog == s.folder_changelog
                &&& forall|k: (Seq<char>, Seq<char>)| #[trigger]
                    t.file_changes().contains_key(k) <==> s.file_changes().contains_key(k)
                        || wrote_file(files, folders, drive, k)
                &&& forall|k: (Seq<char>, Seq<char>)| #[trigger]
                    s.file_changes().contains_key(k) && !wrote_file(files, folders, drive, k)
                        ==> t.file_changes()[k] == s.file_changes()[k]
                &&& forall|j: int|
                    0 <= j < files.len() && attached(folders, drive, (#[trigger] files[j]).parent)
                        ==> t.file_changes()[files[j].key()] == (FileChangelogView {
                        file: files[j],
                        deleted: false,
                    })
            },
            Err(e) => e == Error::Constraint && !fresh_files(s, files, folders, drive),
        },
    decreases files.len(),
{
    if files.len() > 0 {
        let front = files.drop_last();
        let last = files.last();
        lemma_with_files(s, front, folders, drive);
        assert forall|q: int| 0 <= q < front.len() implies (#[trigger] files[q]) == front[q] by {}
        match s.with_files(front, folders, drive) {
            Ok(m) => {
                if !attached(folders, drive, last.parent) {
                    let t = m;
                    assert forall|k: (Seq<char>, Seq<char>)| #[trigger]
                        t.files.contains_key(k) <==> s.files.contains_key(k) || wrote_file(
                            files,
                            folders,
                            drive,
                            k,
                        ) by {
                        if wrote_file(files, folders, drive, k) {
                            let j = choose|j: int|
                                0 <= j < files.len() && attached(
                                    folders,
                                    drive,
                                    (#[trigger] files[j]).parent,
                                ) && files[j].key() == k;
                            assert(front[j] == files[j]);
                        }
                        if wrote_file(front, folders, drive, k) {
                            let j = choose|j: int|
                                0 <= j < front.len() && attached(
                                    folders,
                                    drive,
                                    (#[trigger] front[j]).parent,
                                ) && front[j].key() == k;
                            assert(files[j] == front[j]);
                        }
                    }
                    assert forall|a: int, b: int|
                        0 <= a < b < files.len() && attached(
                            folders,
                            drive,
                            (#[trigger] files[a]).parent,
                        ) && attached(
                            folders,
                            drive,
                            (#[trigger] files[b]).parent,
                        ) implies files[a].key() != files[b].key() by {
                        assert(front[a] == files[a]);
                        assert(front[b] == files[b]);
                    }
                    assert forall|j: int|
                        0 <= j < files.len() && attached(
                            folders,
                            drive,
                            (#[trigger] files[j]).parent,
                        ) implies !s.files.contains_key(files[j].key()) by {
                        assert(front[j] == files[j]);
                    }
                    assert forall|j: int|
                        0 <= j < files.len() && attached(
                            folders,
                            drive,
                            (#[trigger] files[j]).parent,
                        ) implies t.files[files[j].key()] == files[j] by {
                        assert(front[j] == files[j]);
                    }
                } else if m.files.contains_key(last.key()) {
                    if s.files.contains_key(last.key()) {
                        assert(attached(folders, drive, files[files.len() - 1].parent));
                    } else {
                        let j = choose|j: int|
                            0 <= j < front.len() && attached(
                                folders,
                                drive,
                                (#[trigger] front[j]).parent,
                            ) && front[j].key() == last.key();
                        assert(files[j] == front[j]);
                        assert(attached(folders, drive, files[files.len() - 1].parent));
                        assert(files[j].key() == files[files.len() - 1].key());
                    }
                } else {
                    lemma_file_upsert(m, last);
                    let t = m.file_upsert(last);
                    assert forall|a: int, b: int|
                        0 <= a < b < files.len() && attached(
                            folders,
                            drive,
                            (#[trigger] files[a]).parent,
                        ) && attached(
                            folders,
                            drive,
                            (#[trigger] files[b]).parent,
                        ) implies files[a].key() != files[b].key() by {
                        assert(front[a] == files[a]);
                        if b < front.len() {
                            assert(front[b] == files[b]);
                        } else {
                            assert(wrote_file(front, folders, drive, front[a].key()));
                        }
                    }
                    assert forall|j: int|
                        0 <= j < files.len() && attached(
                            folders,
                            drive,
                            (#[trigger] files[j]).parent,
                        ) implies !s.files.contains_key(files[j].key()) by {
                        if j < front.len() {
                            assert(front[j] == files[j]);
                        }
                    }
                    assert forall|k: (Seq<char>, Seq<char>)| #[trigger]
                        t.files.contains_key(k) <==> s.files.contains_key(k) || wrote_file(
                            files,
                            folders,
                            drive,
                            k,
                        ) by {
                        if wrote_file(files, folders, drive, k) {
                            let j = choose|j: int|
                                0 <= j < files.len() && attached(
                                    folders,
                                    drive,
                                    (#[trigger] files[j]).parent,
                                ) && files[j].key() == k;
                            if j < front.len() {
                                assert(front[j] == files[j]);
                            }
                        }
                        if wrote_file(front, folders, drive, k) {
                            let j = choose|j: int|
                                0 <= j < front.len() && attached(
                                    folders,
                                    drive,
                                    (#[trigger] front[j]).parent,
                                ) && front[j].key() == k;
                            assert(files[j] == front[j]);
                        }
                        if k == last.key() {
                            assert(files[files.len() - 1].key() == k);
                        }
                    }
                    assert forall|j: int|
                        0 <= j < files.len() && attached(
                            folders,
                            drive,
                            (#[trigger] files[j]).parent,
                        ) implies t.files[files[j].key()] == files[j] by {
                        if j < front.len() {
                            assert(front[j] == files[j]);
                            assert(wrote_file(front, folders, drive, front[j].key()));
                        }
                    }
                }
            },
            Err(e) => {
                if fresh_files(s, files, folders, drive) {
                    assert forall|a: int, b: int|
                        0 <= a < b < front.len() && attached(
                            folders,
                            drive,
                            (#[trigger] front[a]).parent,
                        ) && attached(
                            folders,
                            drive,
                            (#[trigger] front[b]).parent,
                        ) implies front[a].key() != front[b].key() by {
                        assert(front[a] == files[a]);
                        assert(front[b] == files[b]);
                    }
                    assert forall|j: int|
                        0 <= j < front.len() && attached(
                            folders,
                            drive,
                            (#[trigger] front[j]).parent,
                        ) implies !s.files.contains_key(front[j].key()) by {
                        assert(front[j] == files[j]);
                    }
                }
            },
        }
    }
}

/// The folders of a listing, each id once: every one of them stands in the
/// listing, and every folder of the listing after which the listing does
/// not name its id again is one of them.
pub proof fn lemma_listed_folders(items: Seq<ItemView>)
    ensures
        distinct(listed_folders(items), folder_id_key()),
        forall|i: int|
            0 <= i < listed_folders(items).len() ==> items.contains(
                ItemView::Folder(#[trigger] listed_folders(items)[i]),
            ),
        forall|j: int|
            0 <= j < items.len() && (#[trigger] items[j]) is Folder && (forall|l: int|
                j < l < items.len() && items[l] is Folder ==> items[l].id() != items[j].id())
                ==> listed_folders(items).contains(items[j]->Folder_0),
    decreases items.len(),
{
    if items.len() > 0 {
        let front = items.drop_last();
        lemma_listed_folders(front);
        let rest = listed_folders(front);
        let all = listed_folders(items);
        assert forall|j: int| 0 <= j < front.len() implies #[trigger] front[j] == items[j] by {}
        match items.last() {
            ItemView::Folder(f) => {
                lemma_put(rest, folder_id_key(), f);
                assert forall|i: int| 0 <= i < all.len() implies items.contains(
                    ItemView::Folder(#[trigger] all[i]),
                ) by {
                    if all[i] == f {
                        assert(items[items.len() - 1] == ItemView::Folder(f));
                    } else {
                        if i < rest.len() {
                            if folder_id_key()(rest[i]) == f.id {
                                lemma_position(rest, folder_id_key(), i);
                            }
                            assert(all[i] == rest[i]);
                            let j = choose|j: int|
                                0 <= j < front.len() && front[j] == ItemView::Folder(rest[i]);
                            assert(items[j] == ItemView::Folder(all[i]));
                        } else {
                            assert(!holds(rest, folder_id_key(), f.id));
                        }
                    }
                }
                assert forall|j: int|
                    0 <= j < items.len() && (#[trigger] items[j]) is Folder && (forall|l: int|
                        j < l < items.len() && items[l] is Folder ==> items[l].id()
                            != items[j].id()) implies all.contains(items[j]->Folder_0) by {
                    if j == items.len() - 1 {
                        let p = position(all, folder_id_key(), f.id);
                        assert(all[p] == f);
                    } else {
                        let g = items[j]->Folder_0;
                        assert(items[items.len() - 1].id() != items[j].id());
                        assert forall|l: int|
                            j < l < front.len() && front[l] is Folder implies front[l].id()
                            != front[j].id() by {
                            assert(front[l] == items[l]);
                        }
                        assert(front[j] == items[j]);
                        assert(rest.contains(g));
                        let i = choose|i: int| 0 <= i < rest.len() && rest[i] == g;
                        assert(folder_id_key()(rest[i]) != f.id);
                        assert(all[i] == g);
                    }
                }
            },
            ItemView::File(_) => {
                assert forall|i: int| 0 <= i < all.len() implies items.contains(
                    ItemView::Folder(#[trigger] all[i]),
                ) by {
                    let j = choose|j: int|
                        0 <= j < front.len() && front[j] == ItemView::Folder(rest[i]);
                    assert(items[j] == ItemView::Folder(all[i]));
                }
                assert forall|j: int|
                    0 <= j < items.len() && (#[trigger] items[j]) is Folder && (forall|l: int|
                        j < l < items.len() && items[l] is Folder ==> items[l].id()
                            != items[j].id()) implies all.contains(items[j]->Folder_0) by {
                    assert forall|l: int|
                        j < l < front.len() && front[l] is Folder implies front[l].id()
                        != front[j].id() by {
                        assert(front[l] == items[l]);
                    }
                    assert(front[j] == items[j]);
                }
            },
        }
    }
}

/// The files of a listing are the files that stand in it.
pub proof fn lemma_listed_files(items: Seq<ItemView>)
    ensures
        forall|i: int|
            0 <= i < listed_files(items).len() ==> items.contains(
                ItemView::File(#[trigger] listed_files(items)[i]),
            ),
        forall|j: int|
            0 <= j < items.len() && (#[trigger] items[j]) is File ==> listed_files(items).contains(
                items[j]->File_0,
            ),
    decreases items.len(),
{
    if items.len() > 0 {
        let front = items.drop_last();
        lemma_listed_files(front);
        let rest = listed_files(front);
        let all = listed_files(items);
        assert forall|j: int| 0 <= j < front.len() implies #[trigger] front[j] == items[j] by {}
        assert forall|i: int| 0 <= i < all.len() implies items.contains(
            ItemView::File(#[trigger] all[i]),
        ) by {
            if i < rest.len() {
                assert(all[i] == rest[i]);
                let j = choose|j: int| 0 <= j < front.len() && front[j] == ItemView::File(rest[i]);
                assert(items[j] == ItemView::File(all[i]));
            } else {
                assert(items[items.len() - 1] == ItemView::File(all[i]));
            }
        }
        assert forall|j: int|
            0 <= j < items.len() && (#[trigger] items[j]) is File implies all.contains(
            items[j]->File_0,
        ) by {
            if j < front.len() {
                assert(front[j] == items[j]);
                let i = choose|i: int| 0 <= i < rest.len() && rest[i] == items[j]->File_0;
                assert(all[i] == items[j]->File_0);
            } else {
                assert(all[all.len() - 1] == items[j]->File_0);
            }
        }
    }
}

/// Creating a drive that is not followed yet, and its top folder, keeps the
/// rows keyed.
pub proof fn lemma_top_created(s: State, drive: Seq<char>, name: Seq<char>, page_token: Seq<char>)
    requires
        s.keyed(),
        s.drive_create(drive, page_token) is Ok,
        s.drive_create(drive, page_token)->Ok_0.folder_create(top_folder(drive, name)) is Ok,
    ensures
        ({
            let t = s.drive_create(drive, page_token)->Ok_0.folder_create(
                top_folder(drive, name),
            )->Ok_0;
            &&& t.keyed()
            &&& t.drives == s.drives.insert(
                drive,
                DriveView { id: drive, page_token },
            )
            &&& t.folders == s.folders.insert((drive, drive), top_folder(drive, name))
            &&& t.files == s.files
            &&& !s.drives.contains_key(drive)
            &&& !s.folders.contains_key((drive, drive))
        }),
{
    let s1 = s.drive_create(drive, page_token)->Ok_0;
    lemma_folder_upsert(s1, top_folder(drive, name));
}

/// `row` is one of `rows`.
pub open spec fn among(rows: Seq<FolderView>, row: FolderView) -> bool {
    exists|r: int| 0 <= r < rows.len() && #[trigger] rows[r] == row
}

/// Every row of `rows` is a row of `others`.
pub open spec fn rows_among(rows: Seq<FolderView>, others: Seq<FolderView>) -> bool {
    forall|q: int| 0 <= q < rows.len() ==> among(others, #[trigger] rows[q])
}

/// Two orders that list the same folders of a listing, each once, write the
/// same rows: what one of them writes, the other writes too.
pub proof fn lemma_same_rows(
    folders: Seq<FolderView>,
    drive: Seq<char>,
    one: Seq<usize>,
    other: Seq<usize>,
)
    requires
        parents_first(folders, drive, one),
        parents_first(folders, drive, other),
    ensures
        rows_among(in_order(folders, one), in_order(folders, other)),
        distinct(in_order(folders, other), folder_key()) ==> distinct(
            in_order(folders, one),
            folder_key(),
        ),
{
    let rows = in_order(folders, one);
    let others = in_order(folders, other);
    let marks = reached(folders, drive);
    assert forall|q: int| 0 <= q < rows.len() implies among(others, #[trigger] rows[q]) by {
        let i = one[q] as int;
        assert(marks[i]);
        let r = choose|r: int| 0 <= r < other.len() && #[trigger] other[r] == i;
        assert(others[r] == rows[q]);
    }
    if distinct(others, folder_key()) {
        assert forall|a: int, b: int| 0 <= a < b < rows.len() implies folder_key()(
            #[trigger] rows[a],
        ) != folder_key()(#[trigger] rows[b]) by {
            assert(one[a] != one[b]);
            let i = one[a] as int;
            let j = one[b] as int;
            assert(marks[i] && marks[j]);
            let r = choose|r: int| 0 <= r < other.len() && #[trigger] other[r] == i;
            let t = choose|t: int| 0 <= t < other.len() && #[trigger] other[t] == j;
            assert(others[r] == rows[a] && others[t] == rows[b]);
            if r < t {
                assert(folder_key()(others[r]) != folder_key()(others[t]));
            } else {
                assert(folder_key()(others[t]) != folder_key()(others[r]));
            }
        }
    }
}

/// Writing the same new folders in two orders fails alike or leaves the
/// same tables and the same rows in the changelog.
pub proof fn lemma_with_folders_any_order(
    s: State,
    rows: Seq<FolderView>,
    others: Seq<FolderView>,
)
    requires
        s.keyed(),
        rows_among(rows, others),
        rows_among(others, rows),
        distinct(rows, folder_key()) == distinct(others, folder_key()),
    ensures
        match (s.with_folders(rows), s.with_folders(others)) {
            (Ok(a), Ok(b)) => {
                &&& a.keyed()
                &&& b.keyed()
                &&& a.drives == b.drives
                &&& a.folders == b.folders
                &&& a.files == b.files
                &&& a.file_changelog == b.file_changelog
                &&& a.folder_changes() == b.folder_changes()
            },
            (Err(e), Err(f)) => e == f,
            _ => false,
        },
{
    lemma_with_folders(s, rows);
    lemma_with_folders(s, others);
    assert(fresh_folders(s, rows) == fresh_folders(s, others)) by {
        if fresh_folders(s, rows) {
            assert forall|q: int| 0 <= q < others.len() implies !s.folders.contains_key(
                (#[trigger] others[q]).key(),
            ) by {
                assert(among(rows, others[q]));
                let r = choose|r: int| 0 <= r < rows.len() && #[trigger] rows[r] == others[q];
            }
        }
        if fresh_folders(s, others) {
            assert forall|q: int| 0 <= q < rows.len() implies !s.folders.contains_key(
                (#[trigger] rows[q]).key(),
            ) by {
                assert(among(others, rows[q]));
                let r = choose|r: int| 0 <= r < others.len() && #[trigger] others[r] == rows[q];
            }
        }
    }
    if s.with_folders(rows) is Ok {
        let a = s.with_folders(rows)->Ok_0;
        let b = s.with_folders(others)->Ok_0;
        assert forall|k: (Seq<char>, Seq<char>)| wrote_folder(rows, k) == wrote_folder(
            others,
            k,
        ) by {
            if wrote_folder(rows, k) {
                let q = choose|q: int| 0 <= q < rows.len() && (#[trigger] rows[q]).key() == k;
                assert(among(others, rows[q]));
                let r = choose|r: int| 0 <= r < others.len() && #[trigger] others[r] == rows[q];
                assert(others[r].key() == k);
            }
            if wrote_folder(others, k) {
                let q = choose|q: int| 0 <= q < others.len() && (#[trigger] others[q]).key() == k;
                assert(among(rows, others[q]));
                let r = choose|r: int| 0 <= r < rows.len() && #[trigger] rows[r] == others[q];
                assert(rows[r].key() == k);
            }
        }
        assert forall|k: (Seq<char>, Seq<char>)| #[trigger] a.folders.contains_key(k) implies
            b.folders.contains_key(k) && a.folders[k] == b.folders[k] by {
            if wrote_folder(rows, k) {
                let q = choose|q: int| 0 <= q < rows.len() && (#[trigger] rows[q]).key() == k;
                assert(among(others, rows[q]));
                let r = choose|r: int| 0 <= r < others.len() && #[trigger] others[r] == rows[q];
                assert(b.folders[others[r].key()] == others[r]);
            }
        }
        assert(a.folders =~= b.folders);
        assert forall|k: (Seq<char>, Seq<char>)| #[trigger]
            a.folder_changes().contains_key(k) implies b.folder_changes().contains_key(k)
            && a.folder_changes()[k] == b.folder_changes()[k] by {
            if wrote_folder(rows, k) {
                let q = choose|q: int| 0 <= q < rows.len() && (#[trigger] rows[q]).key() == k;
                assert(among(others, rows[q]));
                let r = choose|r: int| 0 <= r < others.len() && #[trigger] others[r] == rows[q];
                assert(b.folder_changes()[others[r].key()] == (FolderChangelogView {
                    folder: others[r],
                    deleted: false,
                }));
            }
        }
        assert(a.folder_changes() =~= b.folder_changes());
    }
}

/// Writing the files of a listing to two states with the same tables and
/// the same file changelog fails alike or leaves the same tables and the
/// same file changelog.
pub proof fn lemma_with_files_alike(
    a: State,
    b: State,
    files: Seq<FileView>,
    folders: Seq<FolderView>,
    drive: Seq<char>,
)
    requires
        a.keyed(),
        b.keyed(),
        a.drives == b.drives,
        a.folders == b.folders,
        a.files == b.files,
        a.file_changelog == b.file_changelog,
    ensures
        match (a.with_files(files, folders, drive), b.with_files(files, folders, drive)) {
            (Ok(x), Ok(y)) => {
                &&& x.drives == y.drives
                &&& x.folders == y.folders
                &&& x.files == y.files
                &&& x.file_changelog == y.file_changelog
                &&& x.folder_changelog == a.folder_changelog
                &&& y.folder_changelog == b.folder_changelog
            },
            (Err(e), Err(f)) => e == f,
            _ => false,
        },
    decreases files.len(),
{
    if files.len() > 0 {
        lemma_with_files_alike(a, b, files.drop_last(), folders, drive);
        lemma_with_files(a, files.drop_last(), folders, drive);
        lemma_with_files(b, files.drop_last(), folders, drive);
    }
}

/// Deleting a folder keeps consistent rows consistent: all that referred to
/// what is gone is gone with it.
pub proof fn lemma_folder_delete_consistent(s: State, id: Seq<char>, drive: Seq<char>)
    requires
        s.keyed(),
        s.consistent(),
    ensures
        s.folder_delete(id, drive).consistent(),
{
    let t = s.folder_delete(id, drive);
    if s.folders.contains_key((id, drive)) {
        let links = s.links(drive);
        let doomed = s.doomed(id, drive);
        assert forall|k: (Seq<char>, Seq<char>)| #[trigger] t.folders.contains_key(k) implies (
        t.folders[k].parent matches Some(p) ==> t.folders.contains_key((p, k.1))) by {
            if t.folders[k].parent is Some {
                let p = t.folders[k].parent->0;
                assert(s.folders.contains_key((p, k.1)));
                if doomed.contains((p, k.1)) {
                    assert(links.contains_key(k.0) && links[k.0] == p);
                    lemma_below_child(links, k.0, id);
                    assert(doomed.contains(k));
                }
            }
        }
        assert forall|k: (Seq<char>, Seq<char>)| #[trigger]
            t.files.contains_key(k) implies t.folders.contains_key((t.files[k].parent, k.1)) by {
            assert(s.folders.contains_key((s.files[k].parent, k.1)));
        }
    }
}

/// Deleting a file keeps consistent rows consistent.
pub proof fn lemma_file_delete_consistent(s: State, id: Seq<char>, drive: Seq<char>)
    requires
        s.consistent(),
    ensures
        s.file_delete(id, drive).consistent(),
{
}

/// Writing a folder of a drive that is followed, into a folder that is
/// there or into none, keeps consistent rows consistent.
pub proof fn lemma_folder_upsert_consistent(s: State, f: FolderView)
    requires
        s.consistent(),
        s.drives.contains_key(f.drive_id),
        f.parent matches Some(p) ==> p == f.id || s.folders.contains_key((p, f.drive_id)),
    ensures
        s.folder_upsert(f).consistent(),
{
    let t = s.folder_upsert(f);
    assert forall|k: (Seq<char>, Seq<char>)| #[trigger] t.folders.contains_key(k) implies
        t.drives.contains_key(k.1) && (t.folders[k].parent matches Some(p)
        ==> t.folders.contains_key((p, k.1))) by {
        if k != f.key() {
            assert(s.folders.contains_key(k));
        }
    }
    assert forall|k: (Seq<char>, Seq<char>)| #[trigger]
        t.files.contains_key(k) implies t.folders.contains_key((t.files[k].parent, k.1)) by {
        assert(s.folders.contains_key((s.files[k].parent, k.1)));
    }
}

/// Writing a file into a folder that is there keeps consistent rows
/// consistent.
pub proof fn lemma_file_upsert_consistent(s: State, f: FileView)
    requires
        s.consistent(),
        s.folders.contains_key((f.parent, f.drive_id)),
    ensures
        s.file_upsert(f).consistent(),
{
    let t = s.file_upsert(f);
    assert forall|k: (Seq<char>, Seq<char>)| #[trigger]
        t.files.contains_key(k) implies t.folders.contains_key((t.files[k].parent, k.1)) by {
        if k != f.key() {
            assert(s.files.contains_key(k));
        }
    }
}

/// Renaming the top folder keeps consistent rows consistent.
pub proof fn lemma_renamed_consistent(s: State, drive: Seq<char>, changes: Seq<ChangeView>)
    requires
        s.keyed(),
        s.consistent(),
    ensures
        s.renamed(drive, changes).consistent(),
    decreases changes.len(),
{
    if changes.len() > 0 {
        lemma_renamed_consistent(s, drive, changes.drop_last());
        lemma_renamed(s, drive, changes.drop_last());
        let t = s.renamed(drive, changes.drop_last());
        match changes.last() {
            ChangeView::DriveChanged { name, .. } => {
                if t.folders.contains_key((drive, drive)) {
                    let f = FolderView { name, ..t.folders[(drive, drive)] };
                    lemma_folder_upsert_consistent(t, f);
                }
            },
            _ => {},
        }
    }
}

/// Moving the cursor of a drive keeps consistent rows consistent.
pub proof fn lemma_drive_update_token_consistent(
    s: State,
    drive: Seq<char>,
    page_token: Seq<char>,
)
    requires
        s.consistent(),
    ensures
        s.drive_update_token(drive, page_token).consistent(),
{
    let t = s.drive_update_token(drive, page_token);
    assert forall|k: (Seq<char>, Seq<char>)| #[trigger] t.folders.contains_key(k) implies
        t.drives.contains_key(k.1) by {
        assert(s.drives.contains_key(k.1));
    }
}

/// Removals keep consistent rows consistent.
pub proof fn lemma_folder_removals_consistent(
    s: State,
    drive: Seq<char>,
    ops: Seq<(Seq<char>, FolderChangeView)>,
)
    requires
        s.keyed(),
        s.consistent(),
        forall|i: int| 0 <= i < ops.len() ==> (#[trigger] ops[i]).1 is Remove,
    ensures
        s.with_folder_ops(drive, ops).consistent(),
    decreases ops.len(),
{
    if ops.len() > 0 {
        let front = ops.drop_last();
        assert forall|i: int| 0 <= i < front.len() implies (#[trigger] front[i]).1 is Remove by {
            assert(front[i] == ops[i]);
        }
        lemma_folder_removals_consistent(s, drive, front);
        lemma_folder_ops(s, drive, front);
        assert(ops[ops.len() - 1].1 is Remove);
        lemma_folder_delete_consistent(s.with_folder_ops(drive, front), ops.last().0, drive);
    }
}

/// Removals keep consistent rows consistent.
pub proof fn lemma_file_removals_consistent(
    s: State,
    drive: Seq<char>,
    ops: Seq<(Seq<char>, FileChangeView)>,
)
    requires
        s.consistent(),
        forall|i: int| 0 <= i < ops.len() ==> (#[trigger] ops[i]).1 is Remove,
    ensures
        s.with_file_ops(drive, ops).consistent(),
    decreases ops.len(),
{
    if ops.len() > 0 {
        let front = ops.drop_last();
        assert forall|i: int| 0 <= i < front.len() implies (#[trigger] front[i]).1 is Remove by {
            assert(front[i] == ops[i]);
        }
        lemma_file_removals_consistent(s, drive, front);
        assert(ops[ops.len() - 1].1 is Remove);
        lemma_file_delete_consistent(s.with_file_ops(drive, front), ops.last().0, drive);
    }
}

/// The page shows no item as one of `drive`: every item that it shows has
/// moved away.
pub open spec fn shows_nothing_here(drive: Seq<char>, changes: Seq<ChangeView>) -> bool {
    forall|i: int|
        0 <= i < changes.len() ==> ((#[trigger] changes[i]) matches ChangeView::ItemChanged(item)
            ==> item.drive_id() != drive)
}

/// A page that shows no item as one of the drive asks for removals only.
pub proof fn lemma_plan_removals(drive: Seq<char>, changes: Seq<ChangeView>)
    requires
        shows_nothing_here(drive, changes),
    ensures
        forall|i: int|
            0 <= i < Plan::of(drive, changes).folders.len() ==> (#[trigger] Plan::of(
                drive,
                changes,
            ).folders[i]).1 is Remove,
        forall|i: int|
            0 <= i < Plan::of(drive, changes).files.len() ==> (#[trigger] Plan::of(
                drive,
                changes,
            ).files[i]).1 is Remove,
    decreases changes.len(),
{
    if changes.len() > 0 {
        let front = changes.drop_last();
        assert forall|i: int| 0 <= i < front.len() implies ((
        #[trigger] front[i]) matches ChangeView::ItemChanged(item) ==> item.drive_id()
            != drive) by {
            assert(front[i] == changes[i]);
        }
        lemma_plan_removals(drive, front);
        lemma_plan_sound(drive, front);
        let plan = Plan::of(drive, front);
        let next = Plan::of(drive, changes);
        assert(changes[changes.len() - 1] == changes.last());
        let id = match changes.last() {
            ChangeView::ItemChanged(item) => item.id(),
            ChangeView::ItemRemoved(id) => id,
            _ => Seq::empty(),
        };
        lemma_put(plan.folders, folder_op_key(), (id, FolderChangeView::Remove));
        lemma_put(plan.files, file_op_key(), (id, FileChangeView::Remove));
        assert forall|i: int| 0 <= i < next.folders.len() implies (#[trigger] next.folders[i]).1
            is Remove by {
            if next.folders != plan.folders {
                let p = position(next.folders, folder_op_key(), id);
                if i != p && i < plan.folders.len() {
                    if folder_op_key()(plan.folders[i]) == id {
                        lemma_position(plan.folders, folder_op_key(), i);
                    }
                    assert(next.folders[i] == plan.folders[i]);
                }
            }
        }
        assert forall|i: int| 0 <= i < next.files.len() implies (#[trigger] next.files[i]).1
            is Remove by {
            if next.files != plan.files {
                let p = position(next.files, file_op_key(), id);
                if i != p && i < plan.files.len() {
                    if file_op_key()(plan.files[i]) == id {
                        lemma_position(plan.files, file_op_key(), i);
                    }
                    assert(next.files[i] == plan.files[i]);
                }
            }
        }
    }
}

/// The change names the id `x`: it shows an item with this id, in whatever
/// drive, or tells that the id is gone.
pub open spec fn names(change: ChangeView, x: Seq<char>) -> bool {
    match change {
        ChangeView::ItemChanged(item) => item.id() == x,
        ChangeView::ItemRemoved(id) => id == x,
        _ => false,
    }
}

/// The change at `at` is the last of the page that names the id `x`.
pub open spec fn last_word(changes: Seq<ChangeView>, at: int, x: Seq<char>) -> bool {
    &&& 0 <= at < changes.len()
    &&& names(changes[at], x)
    &&& forall|j: int| at < j < changes.len() ==> !names(#[trigger] changes[j], x)
}

/// A file of the drive that the page's last word on its id shows is what
/// the plan wants written under that id.
pub proof fn lemma_last_word_file(drive: Seq<char>, changes: Seq<ChangeView>, at: int, f: FileView)
    requires
        last_word(changes, at, f.id),
        changes[at] == ChangeView::ItemChanged(ItemView::File(f)),
        f.drive_id == drive,
    ensures
        holds(Plan::of(drive, changes).files, file_op_key(), f.id),
        Plan::of(drive, changes).files[position(
            Plan::of(drive, changes).files,
            file_op_key(),
            f.id,
        )] == (f.id, FileChangeView::Update(f)),
    decreases changes.len(),
{
    let front = changes.drop_last();
    lemma_plan_sound(drive, front);
    let plan = Plan::of(drive, front);
    if at == changes.len() - 1 {
        lemma_put(plan.files, file_op_key(), (f.id, FileChangeView::Update(f)));
    } else {
        assert(front[at] == changes[at]);
        assert forall|j: int| at < j < front.len() implies !names(#[trigger] front[j], f.id) by {
            assert(front[j] == changes[j]);
        }
        lemma_last_word_file(drive, front, at, f);
        let last = changes[changes.len() - 1];
        assert(!names(last, f.id));
        let id = match last {
            ChangeView::ItemChanged(item) => item.id(),
            ChangeView::ItemRemoved(id) => id,
            _ => Seq::empty(),
        };
        match last {
            ChangeView::ItemChanged(ItemView::File(g)) => {
                lemma_put_keeps(
                    plan.files,
                    file_op_key(),
                    (id, FileChangeView::Update(g)),
                    f.id,
                );
            },
            _ => {},
        }
        if last is ItemChanged || last is ItemRemoved {
            lemma_put_keeps(plan.files, file_op_key(), (id, FileChangeView::Remove), f.id);
        }
    }
}

/// A folder of the drive that the page's last word on its id shows is what
/// the plan wants written under that id.
pub proof fn lemma_last_word_folder(
    drive: Seq<char>,
    changes: Seq<ChangeView>,
    at: int,
    f: FolderView,
)
    requires
        last_word(changes, at, f.id),
        changes[at] == ChangeView::ItemChanged(ItemView::Folder(f)),
        f.drive_id == drive,
    ensures
        holds(Plan::of(drive, changes).folders, folder_op_key(), f.id),
        Plan::of(drive, changes).folders[position(
            Plan::of(drive, changes).folders,
            folder_op_key(),
            f.id,
        )] == (f.id, FolderChangeView::Update(f)),
    decreases changes.len(),
{
    let front = changes.drop_last();
    lemma_plan_sound(drive, front);
    let plan = Plan::of(drive, front);
    if at == changes.len() - 1 {
        lemma_put(plan.folders, folder_op_key(), (f.id, FolderChangeView::Update(f)));
    } else {
        assert(front[at] == changes[at]);
        assert forall|j: int| at < j < front.len() implies !names(#[trigger] front[j], f.id) by {
            assert(front[j] == changes[j]);
        }
        lemma_last_word_folder(drive, front, at, f);
        let last = changes[changes.len() - 1];
        assert(!names(last, f.id));
        let id = match last {
            ChangeView::ItemChanged(item) => item.id(),
            ChangeView::ItemRemoved(id) => id,
            _ => Seq::empty(),
        };
        match last {
            ChangeView::ItemChanged(ItemView::Folder(g)) => {
                lemma_put_keeps(
                    plan.folders,
                    folder_op_key(),
                    (id, FolderChangeView::Update(g)),
                    f.id,
                );
            },
            _ => {},
        }
        if last is ItemChanged || last is ItemRemoved {
            lemma_put_keeps(plan.folders, folder_op_key(), (id, FolderChangeView::Remove), f.id);
        }
    }
}

/// The page shows a folder with the id `x` as one of `drive`.
pub open spec fn shows_folder(drive: Seq<char>, changes: Seq<ChangeView>, x: Seq<char>) -> bool {
    exists|j: int|
        0 <= j < changes.len() && ((#[trigger] changes[j]) matches ChangeView::ItemChanged(
            ItemView::Folder(g),
        ) && g.id == x && g.drive_id == drive)
}

/// A plan wants a folder written only where the page shows it.
pub proof fn lemma_plan_writes_shown(drive: Seq<char>, changes: Seq<ChangeView>, x: Seq<char>)
    requires
        !shows_folder(drive, changes, x),
    ensures
        forall|i: int|
            0 <= i < Plan::of(drive, changes).folders.len() ==> ((#[trigger] Plan::of(
                drive,
                changes,
            ).folders[i]).1 is Update ==> Plan::of(drive, changes).folders[i].0 != x),
    decreases changes.len(),
{
    if changes.len() > 0 {
        let front = changes.drop_last();
        if shows_folder(drive, front, x) {
            let j = choose|j: int|
                0 <= j < front.len() && ((#[trigger] front[j]) matches ChangeView::ItemChanged(
                    ItemView::Folder(g),
                ) && g.id == x && g.drive_id == drive);
            assert(changes[j] == front[j]);
        }
        lemma_plan_writes_shown(drive, front, x);
        lemma_plan_sound(drive, front);
        let plan = Plan::of(drive, front);
        let next = Plan::of(drive, changes);
        let last = changes[changes.len() - 1];
        assert(last == changes.last());
        if next.folders != plan.folders {
            let e = match last {
                ChangeView::ItemChanged(ItemView::Folder(g)) => if g.drive_id == drive {
                    (g.id, FolderChangeView::Update(g))
                } else {
                    (g.id, FolderChangeView::Remove)
                },
                ChangeView::ItemChanged(ItemView::File(g)) => (g.id, FolderChangeView::Remove),
                ChangeView::ItemRemoved(id) => (id, FolderChangeView::Remove),
                _ => (x, FolderChangeView::Remove),
            };
            assert(next.folders == put(plan.folders, folder_op_key(), e));
            lemma_put(plan.folders, folder_op_key(), e);
            let p = position(next.folders, folder_op_key(), e.0);
            assert forall|i: int|
                0 <= i < next.folders.len() && (#[trigger] next.folders[i]).1
                    is Update implies next.folders[i].0 != x by {
                if i != p && i < plan.folders.len() {
                    if folder_op_key()(plan.folders[i]) == e.0 {
                        lemma_position(plan.folders, folder_op_key(), i);
                    }
                    assert(next.folders[i] == plan.folders[i]);
                }
            }
        }
    }
}

/// The listing shows no folder id twice and no file id twice.
pub open spec fn once_each(items: Seq<ItemView>) -> bool {
    forall|a: int, b: int|
        0 <= a < b < items.len() && ((#[trigger] items[a]) is Folder <==> (
        #[trigger] items[b]) is Folder) ==> items[a].id() != items[b].id()
}

/// Two listings show the same items, in whatever order, and neither shows a
/// folder id twice nor a file id twice.
pub open spec fn same_listing(one: Seq<ItemView>, other: Seq<ItemView>) -> bool {
    &&& forall|x: ItemView| one.contains(x) <==> other.contains(x)
    &&& once_each(one)
    &&& once_each(other)
}

/// The files of `files` are files of `others`.
pub open spec fn files_among(files: Seq<FileView>, others: Seq<FileView>) -> bool {
    forall|j: int| 0 <= j < files.len() ==> others.contains(#[trigger] files[j])
}

/// No two files have the same id.
pub open spec fn files_once(files: Seq<FileView>) -> bool {
    forall|a: int, b: int|
        0 <= a < b < files.len() ==> (#[trigger] files[a]).id != (#[trigger] files[b]).id
}

/// The files of a listing that shows no file id twice have each its own id.
pub proof fn lemma_listed_files_once(items: Seq<ItemView>)
    requires
        once_each(items),
    ensures
        files_once(listed_files(items)),
    decreases items.len(),
{
    if items.len() > 0 {
        let front = items.drop_last();
        assert forall|a: int, b: int|
            0 <= a < b < front.len() && ((#[trigger] front[a]) is Folder <==> (
            #[trigger] front[b]) is Folder) implies front[a].id() != front[b].id() by {
            assert(front[a] == items[a] && front[b] == items[b]);
        }
        lemma_listed_files_once(front);
        lemma_listed_files(front);
        let rest = listed_files(front);
        let all = listed_files(items);
        match items.last() {
            ItemView::File(f) => {
                assert forall|a: int, b: int| 0 <= a < b < all.len() implies (
                #[trigger] all[a]).id != (#[trigger] all[b]).id by {
                    if b < rest.len() {
                        assert(rest[a].id != rest[b].id);
                    } else {
                        assert(all[a] == rest[a]);
                        let j = choose|j: int|
                            0 <= j < front.len() && front[j] == ItemView::File(rest[a]);
                        assert(items[j] == front[j]);
                        assert(items[items.len() - 1] == ItemView::File(f));
                    }
                }
            },
            ItemView::Folder(_) => {},
        }
    }
}

/// Two listings that show the same items have the same folders and the same
/// files.
pub proof fn lemma_same_listing(one: Seq<ItemView>, other: Seq<ItemView>)
    requires
        same_listing(one, other),
    ensures
        rows_among(listed_folders(one), listed_folders(other)),
        files_among(listed_files(one), listed_files(other)),
{
    lemma_listed_folders(one);
    lemma_listed_folders(other);
    lemma_listed_files(one);
    lemma_listed_files(other);
    let folders = listed_folders(one);
    let others = listed_folders(other);
    assert forall|q: int| 0 <= q < folders.len() implies among(others, #[trigger] folders[q]) by {
        let x = ItemView::Folder(folders[q]);
        assert(one.contains(x));
        assert(other.contains(x));
        let j = choose|j: int| 0 <= j < other.len() && other[j] == x;
        assert forall|l: int| j < l < other.len() && other[l] is Folder implies other[l].id()
            != other[j].id() by {}
        assert(others.contains(other[j]->Folder_0));
        let r = choose|r: int| 0 <= r < others.len() && others[r] == folders[q];
        assert(others[r] == folders[q]);
    }
    assert forall|j: int| 0 <= j < listed_files(one).len() implies listed_files(other).contains(
        #[trigger] listed_files(one)[j],
    ) by {
        let x = ItemView::File(listed_files(one)[j]);
        assert(one.contains(x));
        assert(other.contains(x));
        let l = choose|l: int| 0 <= l < other.len() && other[l] == x;
        assert(other[l] is File);
    }
}

/// Listings with the same folders have the same parent links.
pub proof fn lemma_same_links(folders: Seq<FolderView>, others: Seq<FolderView>)
    requires
        rows_among(folders, others),
        rows_among(others, folders),
        distinct(folders, folder_id_key()),
        distinct(others, folder_id_key()),
    ensures
        listing_links(folders) == listing_links(others),
        one_each(folders, None),
        one_each(others, None),
{
    let none = None::<Seq<char>>;
    let one = listing_links(folders);
    let two = listing_links(others);
    assert forall|a: int, b: int|
        0 <= a < b < folders.len() && in_scope(#[trigger] folders[a], none) && in_scope(
            #[trigger] folders[b],
            none,
        ) implies folders[a].id != folders[b].id by {
        assert(folder_id_key()(folders[a]) != folder_id_key()(folders[b]));
    }
    assert forall|a: int, b: int|
        0 <= a < b < others.len() && in_scope(#[trigger] others[a], none) && in_scope(
            #[trigger] others[b],
            none,
        ) implies others[a].id != others[b].id by {
        assert(folder_id_key()(others[a]) != folder_id_key()(others[b]));
    }
    assert forall|x: Seq<char>| #[trigger] one.dom().contains(x) implies two.dom().contains(x)
        && one[x] == two[x] by {
        let i = choose|i: int| linked(folders, none, x, i);
        assert(among(others, folders[i]));
        let r = choose|r: int| 0 <= r < others.len() && #[trigger] others[r] == folders[i];
        assert(linked(others, none, x, r));
        lemma_row_link(folders, none, i);
        lemma_row_link(others, none, r);
    }
    assert forall|x: Seq<char>| #[trigger] two.dom().contains(x) implies one.dom().contains(x) by {
        let i = choose|i: int| linked(others, none, x, i);
        assert(among(folders, others[i]));
        let r = choose|r: int| 0 <= r < folders.len() && #[trigger] folders[r] == others[i];
        assert(linked(folders, none, x, r));
    }
    assert(one =~= two);
}

/// Of two listings with the same folders, the folders that hang from the top
/// folder are the same, and so are the folders that are written.
pub proof fn lemma_same_reached(
    folders: Seq<FolderView>,
    others: Seq<FolderView>,
    drive: Seq<char>,
    order: Seq<usize>,
    other: Seq<usize>,
)
    requires
        rows_among(folders, others),
        listing_links(folders) == listing_links(others),
        distinct(folders, folder_id_key()),
        parents_first(folders, drive, order),
        parents_first(others, drive, other),
    ensures
        rows_among(in_order(folders, order), in_order(others, other)),
        distinct(in_order(folders, order), folder_key()),
        forall|p: Seq<char>| attached(folders, drive, p) ==> attached(others, drive, p),
{
    let rows = in_order(folders, order);
    let theirs = in_order(others, other);
    assert forall|q: int| 0 <= q < rows.len() implies among(theirs, #[trigger] rows[q]) by {
        let i = order[q] as int;
        assert(reached(folders, drive)[i]);
        assert(among(others, folders[i]));
        let r = choose|r: int| 0 <= r < others.len() && #[trigger] others[r] == folders[i];
        assert(reached(others, drive)[r]);
        let t = choose|t: int| 0 <= t < other.len() && #[trigger] other[t] == r;
        assert(theirs[t] == rows[q]);
    }
    assert forall|a: int, b: int| 0 <= a < b < rows.len() implies folder_key()(
        #[trigger] rows[a],
    ) != folder_key()(#[trigger] rows[b]) by {
        let i = order[a] as int;
        let j = order[b] as int;
        assert(order[a] != order[b]);
        if i < j {
            assert(folder_id_key()(folders[i]) != folder_id_key()(folders[j]));
        } else {
            assert(folder_id_key()(folders[j]) != folder_id_key()(folders[i]));
        }
    }
    assert forall|p: Seq<char>| attached(folders, drive, p) implies attached(others, drive, p) by {
        if p != drive {
            let i = choose|i: int|
                0 <= i < folders.len() && reached(folders, drive)[i] && (
                #[trigger] folders[i]).id == p;
            assert(among(others, folders[i]));
            let r = choose|r: int| 0 <= r < others.len() && #[trigger] others[r] == folders[i];
            assert(reached(others, drive)[r] && others[r].id == p);
        }
    }
}

/// Writing the same files, in whatever order, to two states with the same
/// tables fails alike or leaves the same tables.
pub proof fn lemma_with_files_any_order(
    a: State,
    b: State,
    files: Seq<FileView>,
    others: Seq<FileView>,
    folders: Seq<FolderView>,
    theirs: Seq<FolderView>,
    drive: Seq<char>,
)
    requires
        a.keyed(),
        b.keyed(),
        a.drives == b.drives,
        a.folders == b.folders,
        a.files == b.files,
        files_among(files, others),
        files_among(others, files),
        files_once(files),
        files_once(others),
        forall|p: Seq<char>| attached(folders, drive, p) <==> attached(theirs, drive, p),
    ensures
        match (a.with_files(files, folders, drive), b.with_files(others, theirs, drive)) {
            (Ok(x), Ok(y)) => x.drives == y.drives && x.folders == y.folders && x.files
                == y.files,
            (Err(e), Err(f)) => e == f,
            _ => false,
        },
{
    lemma_with_files(a, files, folders, drive);
    lemma_with_files(b, others, theirs, drive);
    assert forall|k: (Seq<char>, Seq<char>)|
        wrote_file(files, folders, drive, k) implies wrote_file(others, theirs, drive, k) by {
        let j = choose|j: int|
            0 <= j < files.len() && attached(folders, drive, (#[trigger] files[j]).parent)
                && files[j].key() == k;
        assert(others.contains(files[j]));
        let l = choose|l: int| 0 <= l < others.len() && others[l] == files[j];
        assert(attached(theirs, drive, others[l].parent) && others[l].key() == k);
    }
    assert forall|k: (Seq<char>, Seq<char>)|
        wrote_file(others, theirs, drive, k) implies wrote_file(files, folders, drive, k) by {
        let j = choose|j: int|
            0 <= j < others.len() && attached(theirs, drive, (#[trigger] others[j]).parent)
                && others[j].key() == k;
        assert(files.contains(others[j]));
        let l = choose|l: int| 0 <= l < files.len() && files[l] == others[j];
        assert(attached(folders, drive, files[l].parent) && files[l].key() == k);
    }
    assert(fresh_files(a, files, folders, drive) == fresh_files(b, others, theirs, drive)) by {
        if fresh_files(a, files, folders, drive) {
            assert forall|j: int|
                0 <= j < others.len() && attached(
                    theirs,
                    drive,
                    (#[trigger] others[j]).parent,
                ) implies !b.files.contains_key(others[j].key()) by {
                assert(files.contains(others[j]));
                let l = choose|l: int| 0 <= l < files.len() && files[l] == others[j];
                assert(attached(folders, drive, files[l].parent));
            }
        }
        if fresh_files(b, others, theirs, drive) {
            assert forall|j: int|
                0 <= j < files.len() && attached(
                    folders,
                    drive,
                    (#[trigger] files[j]).parent,
                ) implies !a.files.contains_key(files[j].key()) by {
                assert(others.contains(files[j]));
                let l = choose|l: int| 0 <= l < others.len() && others[l] == files[j];
                assert(attached(theirs, drive, others[l].parent));
            }
        }
    }
    if a.with_files(files, folders, drive) is Ok {
        let x = a.with_files(files, folders, drive)->Ok_0;
        let y = b.with_files(others, theirs, drive)->Ok_0;
        assert forall|k: (Seq<char>, Seq<char>)| #[trigger] x.files.contains_key(k) implies
            y.files.contains_key(k) && x.files[k] == y.files[k] by {
            if wrote_file(files, folders, drive, k) {
                let j = choose|j: int|
                    0 <= j < files.len() && attached(folders, drive, (#[trigger] files[j]).parent)
                        && files[j].key() == k;
                assert(others.contains(files[j]));
                let l = choose|l: int| 0 <= l < others.len() && others[l] == files[j];
                assert(attached(theirs, drive, others[l].parent));
                assert(y.files[others[l].key()] == others[l]);
            }
        }
        assert(x.files =~= y.files);
    }
}

/// Every row that is kept as the latest of its path is one of the rows.
pub proof fn lemma_latest_among(rows: Seq<PathChangelogView>)
    ensures
        forall|j: int|
            0 <= j < latest_by_path(rows).len() ==> rows.contains(
                #[trigger] latest_by_path(rows)[j],
            ),
    decreases rows.len(),
{
    if rows.len() > 0 {
        let front = rows.drop_last();
        let last = rows.last();
        lemma_latest_among(front);
        lemma_latest_by_path(front);
        let kept = latest_by_path(front);
        let all = latest_by_path(rows);
        assert forall|j: int| 0 <= j < all.len() implies rows.contains(#[trigger] all[j]) by {
            if j == all.len() - 1 {
                assert(rows[rows.len() - 1] == all[j]);
            } else {
                let x = if holds(kept, path_key(), last.path) {
                    let p = position(kept, path_key(), last.path);
                    if j < p {
                        j
                    } else {
                        j + 1
                    }
                } else {
                    j
                };
                assert(all[j] == kept[x]);
                assert(front.contains(kept[x]));
                let i = choose|i: int| 0 <= i < front.len() && front[i] == kept[x];
                assert(rows[i] == all[j]);
            }
        }
    }
}

/// Every row of the path changelog of a drive is the row of a changelog row
/// of the drive that has a path.
pub proof fn lemma_paths_from_rows(s: State, drive: Seq<char>)
    ensures
        forall|j: int|
            0 <= j < s.path_changelog(drive).len() ==> has_path_row(
                s,
                drive,
                #[trigger] s.path_changelog(drive)[j],
            ),
{
    lemma_folder_paths_from(s, s.folder_changelog, drive);
    lemma_file_paths_from(s, s.file_changelog, drive);
    let folders = s.folder_paths(s.folder_changelog, drive);
    let files = s.file_paths(s.file_changelog, drive);
    assert forall|j: int| 0 <= j < s.path_changelog(drive).len() implies has_path_row(
        s,
        drive,
        #[trigger] s.path_changelog(drive)[j],
    ) by {
        if j < folders.len() {
            assert(s.path_changelog(drive)[j] == folders[j]);
            assert(folder_path_row(s, s.folder_changelog, drive, folders[j]));
        } else {
            assert(s.path_changelog(drive)[j] == files[j - folders.len()]);
            assert(file_path_row(s, s.file_changelog, drive, files[j - folders.len()]));
        }
    }
}

/// `row` is the row of the path changelog for a row of `log` of a folder of
/// `drive`.
pub open spec fn folder_path_row(
    s: State,
    log: Seq<FolderChangelogView>,
    drive: Seq<char>,
    row: PathChangelogView,
) -> bool {
    exists|i: int|
        0 <= i < log.len() && (#[trigger] log[i]).folder.drive_id == drive && s.folder_path(log[i])
            == Some(row)
}

/// `row` is the row of the path changelog for a row of `log` of a file of
/// `drive`.
pub open spec fn file_path_row(
    s: State,
    log: Seq<FileChangelogView>,
    drive: Seq<char>,
    row: PathChangelogView,
) -> bool {
    exists|i: int|
        0 <= i < log.len() && (#[trigger] log[i]).file.drive_id == drive && s.file_path(log[i])
            == Some(row)
}

/// The entry is made of a changelog row of `drive` that has a path.
pub open spec fn reported_from(s: State, drive: Seq<char>, entry: ChangedPathView) -> bool {
    exists|row: PathChangelogView| #[trigger] has_path_row(s, drive, row) && row.changed() == entry
}

/// `row` is the row of the path changelog for a changelog row of `drive`
/// that has a path.
pub open spec fn has_path_row(s: State, drive: Seq<char>, row: PathChangelogView) -> bool {
    folder_path_row(s, s.folder_changelog, drive, row) || file_path_row(
        s,
        s.file_changelog,
        drive,
        row,
    )
}

proof fn lemma_folder_paths_from(s: State, log: Seq<FolderChangelogView>, drive: Seq<char>)
    ensures
        forall|j: int|
            0 <= j < s.folder_paths(log, drive).len() ==> folder_path_row(
                s,
                log,
                drive,
                #[trigger] s.folder_paths(log, drive)[j],
            ),
    decreases log.len(),
{
    if log.len() > 0 {
        let front = log.drop_last();
        lemma_folder_paths_from(s, front, drive);
        let rest = s.folder_paths(front, drive);
        let all = s.folder_paths(log, drive);
        assert forall|j: int| 0 <= j < all.len() implies folder_path_row(
            s,
            log,
            drive,
            #[trigger] all[j],
        ) by {
            if j < rest.len() {
                assert(all[j] == rest[j]);
                let i = choose|i: int|
                    0 <= i < front.len() && (#[trigger] front[i]).folder.drive_id == drive
                        && s.folder_path(front[i]) == Some(rest[j]);
                assert(log[i] == front[i]);
            } else {
                assert(log[log.len() - 1] == log.last());
            }
        }
    }
}

proof fn lemma_file_paths_from(s: State, log: Seq<FileChangelogView>, drive: Seq<char>)
    ensures
        forall|j: int|
            0 <= j < s.file_paths(log, drive).len() ==> file_path_row(
                s,
                log,
                drive,
                #[trigger] s.file_paths(log, drive)[j],
            ),
    decreases log.len(),
{
    if log.len() > 0 {
        let front = log.drop_last();
        lemma_file_paths_from(s, front, drive);
        let rest = s.file_paths(front, drive);
        let all = s.file_paths(log, drive);
        assert forall|j: int| 0 <= j < all.len() implies file_path_row(
            s,
            log,
            drive,
            #[trigger] all[j],
        ) by {
            if j < rest.len() {
                assert(all[j] == rest[j]);
                let i = choose|i: int|
                    0 <= i < front.len() && (#[trigger] front[i]).file.drive_id == drive
                        && s.file_path(front[i]) == Some(rest[j]);
                assert(log[i] == front[i]);
            } else {
                assert(log[log.len() - 1] == log.last());
            }
        }
    }
}

} // verus!
