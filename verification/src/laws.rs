//! What holds of the mirror whatever the remote service tells.

use crate::database::Error;
use crate::facts::{
    before_file_op, before_folder_op, breaks_off, folder_op_touches, fresh_files,
    fresh_folders, has_path_row, last_word, leads_up, lemma_chain_climb, lemma_changelog_clear,
    lemma_cleared_reports_nothing, lemma_depth, lemma_drive_update_token,
    lemma_drive_update_token_consistent, lemma_file_delete, lemma_file_delete_consistent,
    lemma_file_op_lasts, lemma_file_ops, lemma_file_paths_has, lemma_file_removals_consistent,
    lemma_file_upsert, lemma_file_upsert_consistent, lemma_folder_delete,
    lemma_folder_delete_consistent, lemma_folder_op_lasts, lemma_folder_ops,
    lemma_folder_ops_absent, lemma_folder_ops_dangling, lemma_folder_ops_split,
    lemma_folder_ops_top, lemma_folder_paths_has, lemma_folder_removals_consistent,
    lemma_folder_upsert, lemma_folder_upsert_consistent, lemma_last_word_file,
    lemma_last_word_folder, lemma_latest_among, lemma_latest_by_path, lemma_listed_files,
    lemma_listed_files_once, lemma_listed_folders, lemma_nothing_below_absent,
    lemma_others_touch_others, lemma_paths_from_rows, lemma_plan_removals, lemma_plan_sound,
    lemma_plan_writes_shown, lemma_renamed, lemma_renamed_consistent, lemma_renamed_last,
    lemma_reported, lemma_same_links, lemma_same_listing, lemma_same_reached, lemma_same_rows,
    lemma_same_tables, lemma_top_created, lemma_with_files, lemma_with_files_alike,
    lemma_with_files_any_order, lemma_with_folders, lemma_with_folders_any_order, names_down,
    reported_from, same_listing, shows_folder, shows_nothing_here, writes_folder, wrote_file,
    wrote_folder,
};
use crate::fetch::{ChangeView, ItemView};
use crate::model::file::{FileChangelogView, FileView};
use crate::model::folder::{FolderChangelogView, FolderView};
use crate::reach::{in_scope, lemma_row_link, linked, one_each, placed_id};
use crate::rows::{holds, lemma_position, lemma_put, position};
use crate::state::{
    attached, file_op_key, folder_id_key, folder_key, folder_op_key, in_order, join,
    latest_by_path, listed_files, listed_folders, listing_links, parents_first, path_key,
    reached, top_folder, FetchedView, FileChangeView, FolderChangeView, Plan, State,
};
use crate::tree::{below, climb, lemma_below_parent, lemma_climb_stops, lemma_climb_sum};
use vstd::prelude::*;

verus! {

/// Bringing a drive up to date twice in a row, the remote service having
/// nothing new to tell the second time, changes nothing the second time:
/// the drives, the folders and the files are as the first sync left them,
/// and the changelog of the drive is empty.
///
/// The remote service has nothing new to tell when the cursor that comes
/// with its answer is the cursor that the drive has already.
pub proof fn law_sync_twice(
    s: State,
    drive: Seq<char>,
    first: FetchedView,
    order: Seq<usize>,
    after_first: State,
    changes: Seq<ChangeView>,
    again: Seq<usize>,
)
    requires
        s.keyed(),
        after_first.keyed(),
        s.synced(drive, first, order) == Ok::<State, Error>(after_first),
        after_first.drives.contains_key(drive),
    ensures
        ({
            let second = FetchedView::Changes {
                changes,
                page_token: after_first.drives[drive].page_token,
            };
            let after_second = after_first.changelog_clear(drive);
            &&& after_first.synced(drive, second, again) == Ok::<State, Error>(after_second)
            &&& after_second.drives == after_first.drives
            &&& after_second.folders == after_first.folders
            &&& after_second.files == after_first.files
            &&& after_second.changed_folders(drive).len() == 0
            &&& after_second.changed_files(drive).len() == 0
            &&& after_second.changed_paths(drive).len() == 0
        }),
{
    lemma_cleared_reports_nothing(after_first, drive);
}

/// After a page whose last word on a folder is its removal has been merged,
/// the folder is gone and nothing lies below it: no folder and no file.
/// Where the folder was there when its turn came, the changelog tells of
/// its deletion, with the folder as it was then.
///
/// A folder that an earlier removal of the same page has taken away with
/// the folder above it is not there when its turn comes: of such a folder
/// the changelog tells nothing.
pub proof fn law_cascade_delete(
    s: State,
    drive: Seq<char>,
    changes: Seq<ChangeView>,
    page_token: Seq<char>,
    at: int,
)
    requires
        s.keyed(),
        0 <= at < Plan::of(drive, changes).folders.len(),
        Plan::of(drive, changes).folders[at].1 is Remove,
        s.merge(drive, changes, page_token) is Ok,
    ensures
        ({
            let f = Plan::of(drive, changes).folders[at].0;
            let t = s.merge(drive, changes, page_token)->Ok_0;
            let before = before_folder_op(s, drive, changes, page_token, at);
            &&& !t.folders.contains_key((f, drive))
            &&& forall|x: Seq<char>| !#[trigger] below(t.links(drive), x, f)
            &&& forall|k: (Seq<char>, Seq<char>)| #[trigger]
                t.files.contains_key(k) && k.1 == drive ==> t.files[k].parent != f
            &&& before.folders.contains_key((f, drive)) ==> t.folder_changes().contains_key(
                (f, drive),
            ) && t.folder_changes()[(f, drive)] == (FolderChangelogView {
                folder: before.folders[(f, drive)],
                deleted: true,
            })
        }),
{
    let f = Plan::of(drive, changes).folders[at].0;
    let t = s.merged(drive, changes, page_token);
    let before = before_folder_op(s, drive, changes, page_token, at);
    lemma_folder_op_lasts(s, drive, changes, page_token, at);
    lemma_folder_delete(before, f, drive);
    lemma_nothing_below_absent(t, drive, f);
}

/// An item that the last change of a page shows in another drive has moved
/// away, and the page removes it from this drive: as a file where the page
/// has shown its id as a file before, or has not shown its id before and
/// the item is a file, and as a folder otherwise.
///
/// After the page the item is not there, and where it was there when its
/// turn came, the changelog tells of its deletion, with the item as it was
/// then. It is not there when its turn comes where the store never had it,
/// or where an earlier removal of the page has taken it away with the
/// folder it lay in.
pub proof fn law_moved_away(
    s: State,
    drive: Seq<char>,
    earlier: Seq<ChangeView>,
    item: ItemView,
    page_token: Seq<char>,
)
    requires
        s.keyed(),
        item.drive_id() != drive,
    ensures
        ({
            let changes = earlier.push(ChangeView::ItemChanged(item));
            let plan = Plan::of(drive, changes);
            let key = (item.id(), drive);
            let merged = s.merged(drive, changes, page_token);
            if Plan::of(drive, earlier).leaves_files(item) {
                let at = position(plan.files, file_op_key(), item.id());
                let before = before_file_op(s, drive, changes, page_token, at);
                &&& 0 <= at < plan.files.len()
                &&& plan.files[at] == (item.id(), FileChangeView::Remove)
                &&& !merged.files.contains_key(key)
                &&& before.files.contains_key(key) ==> merged.file_changes().contains_key(key)
                    && merged.file_changes()[key] == (FileChangelogView {
                    file: before.files[key],
                    deleted: true,
                })
            } else {
                let at = position(plan.folders, folder_op_key(), item.id());
                let before = before_folder_op(s, drive, changes, page_token, at);
                &&& 0 <= at < plan.folders.len()
                &&& plan.folders[at] == (item.id(), FolderChangeView::Remove)
                &&& !merged.folders.contains_key(key)
                &&& before.folders.contains_key(key) ==> merged.folder_changes().contains_key(key)
                    && merged.folder_changes()[key] == (FolderChangelogView {
                    folder: before.folders[key],
                    deleted: true,
                })
            }
        }),
{
    let changes = earlier.push(ChangeView::ItemChanged(item));
    assert(changes.drop_last() =~= earlier);
    let old_plan = Plan::of(drive, earlier);
    let plan = Plan::of(drive, changes);
    let key = (item.id(), drive);
    lemma_plan_sound(drive, earlier);
    lemma_plan_sound(drive, changes);
    if old_plan.leaves_files(item) {
        lemma_put(old_plan.files, file_op_key(), (item.id(), FileChangeView::Remove));
        let at = position(plan.files, file_op_key(), item.id());
        lemma_file_op_lasts(s, drive, changes, page_token, at);
        let before = before_file_op(s, drive, changes, page_token, at);
        lemma_file_delete(before, item.id(), drive);
    } else {
        lemma_put(old_plan.folders, folder_op_key(), (item.id(), FolderChangeView::Remove));
        let at = position(plan.folders, folder_op_key(), item.id());
        lemma_folder_op_lasts(s, drive, changes, page_token, at);
        let before = before_folder_op(s, drive, changes, page_token, at);
        lemma_folder_delete(before, item.id(), drive);
    }
}

/// A file that is there, and that a page of a single change shows in
/// another drive, is deleted: after the page it is not there, the changelog
/// tells of its deletion, and every folder is as it was.
pub proof fn law_file_moved_away(
    s: State,
    drive: Seq<char>,
    file: FileView,
    page_token: Seq<char>,
)
    requires
        s.keyed(),
        file.drive_id != drive,
        s.files.contains_key((file.id, drive)),
    ensures
        ({
            let changes = seq![ChangeView::ItemChanged(ItemView::File(file))];
            let key = (file.id, drive);
            let merged = s.merged(drive, changes, page_token);
            &&& !merged.files.contains_key(key)
            &&& merged.file_changes().contains_key(key)
            &&& merged.file_changes()[key] == (FileChangelogView {
                file: s.files[key],
                deleted: true,
            })
            &&& merged.folders == s.folders
        }),
{
    let item = ItemView::File(file);
    let changes = seq![ChangeView::ItemChanged(item)];
    let none = Seq::<ChangeView>::empty();
    assert(changes =~= none.push(ChangeView::ItemChanged(item)));
    assert(changes.drop_last() =~= none);
    assert(Plan::of(drive, none) == Plan::empty());
    let plan = Plan::of(drive, changes);
    assert(!holds(Plan::empty().files, file_op_key(), file.id));
    assert(!holds(Plan::empty().folders, folder_op_key(), file.id));
    assert(plan.folders =~= Seq::empty());
    assert(plan.files =~= seq![(file.id, FileChangeView::Remove)]);
    law_moved_away(s, drive, none, item, page_token);
    lemma_position(plan.files, file_op_key(), 0);
    lemma_drive_update_token(s, drive, page_token);
    let s1 = s.drive_update_token(drive, page_token);
    assert(s1.renamed(drive, changes) == s1) by {
        assert(s1.renamed(drive, none) == s1);
    }
    assert(plan.files.take(0) =~= Seq::empty());
}

/// An item that the last change of a page shows in this drive is written
/// as the page shows it, and the changelog tells of it as of an item that
/// is there. A file is there after the page; a folder is, unless a removal
/// later in the page has taken it away with a folder above it.
pub proof fn law_moved_here(
    s: State,
    drive: Seq<char>,
    earlier: Seq<ChangeView>,
    item: ItemView,
    page_token: Seq<char>,
)
    requires
        s.keyed(),
        item.drive_id() == drive,
    ensures
        ({
            let changes = earlier.push(ChangeView::ItemChanged(item));
            let key = (item.id(), drive);
            let merged = s.merged(drive, changes, page_token);
            match item {
                ItemView::Folder(f) => merged.folder_changes().contains_key(key)
                    && merged.folder_changes()[key] == (FolderChangelogView {
                    folder: f,
                    deleted: false,
                }),
                ItemView::File(f) => merged.files.contains_key(key) && merged.files[key] == f
                    && merged.file_changes().contains_key(key) && merged.file_changes()[key] == (
                FileChangelogView { file: f, deleted: false }),
            }
        }),
{
    let changes = earlier.push(ChangeView::ItemChanged(item));
    assert(changes.drop_last() =~= earlier);
    let old_plan = Plan::of(drive, earlier);
    let plan = Plan::of(drive, changes);
    lemma_plan_sound(drive, earlier);
    lemma_plan_sound(drive, changes);
    match item {
        ItemView::Folder(f) => {
            lemma_put(old_plan.folders, folder_op_key(), (f.id, FolderChangeView::Update(f)));
            let at = position(plan.folders, folder_op_key(), f.id);
            lemma_folder_op_lasts(s, drive, changes, page_token, at);
            let before = before_folder_op(s, drive, changes, page_token, at);
            lemma_folder_upsert(before, f);
        },
        ItemView::File(f) => {
            lemma_put(old_plan.files, file_op_key(), (f.id, FileChangeView::Update(f)));
            let at = position(plan.files, file_op_key(), f.id);
            lemma_file_op_lasts(s, drive, changes, page_token, at);
            let before = before_file_op(s, drive, changes, page_token, at);
            lemma_file_upsert(before, f);
        },
    }
}

/// A page that wants a file written into a folder that neither the store
/// has nor the page writes is not whole: merging it is refused as a breach
/// of integrity, and nothing of it is kept.
pub proof fn law_partial_page_file(
    s: State,
    drive: Seq<char>,
    changes: Seq<ChangeView>,
    page_token: Seq<char>,
    at: int,
)
    requires
        s.keyed(),
        0 <= at < Plan::of(drive, changes).files.len(),
        Plan::of(drive, changes).files[at].1 is Update,
        !s.folders.contains_key((Plan::of(drive, changes).files[at].1->Update_0.parent, drive)),
        forall|i: int|
            0 <= i < Plan::of(drive, changes).folders.len() ==> ((#[trigger] Plan::of(
                drive,
                changes,
            ).folders[i]).1 is Update ==> Plan::of(drive, changes).folders[i].0 != Plan::of(
                drive,
                changes,
            ).files[at].1->Update_0.parent),
    ensures
        s.merge(drive, changes, page_token) == Err::<State, Error>(Error::DataIntegrity),
{
    let plan = Plan::of(drive, changes);
    let f = plan.files[at].1->Update_0;
    let z = f.parent;
    lemma_plan_sound(drive, changes);
    lemma_drive_update_token(s, drive, page_token);
    let s1 = s.drive_update_token(drive, page_token);
    lemma_renamed(s1, drive, changes);
    let s2 = s1.renamed(drive, changes);
    assert(!s2.folders.dom().contains((z, drive)));
    assert forall|i: int|
        0 <= i < plan.folders.len() implies !writes_folder(
        #[trigger] plan.folders[i],
        (z, drive),
    ) by {}
    lemma_folder_ops_absent(s2, drive, plan.folders, (z, drive));
    lemma_folder_ops(s2, drive, plan.folders);
    let s3 = s2.with_folder_ops(drive, plan.folders);
    lemma_file_ops(s3, drive, plan.files);
    lemma_file_op_lasts(s, drive, changes, page_token, at);
    let before = before_file_op(s, drive, changes, page_token, at);
    lemma_file_upsert(before, f);
    let merged = s.merged(drive, changes, page_token);
    assert(merged.files.contains_key((f.id, drive)));
}

/// A page that wants a folder written into a folder that neither the store
/// has nor the page writes is not whole: merging it is refused as a breach
/// of integrity, and nothing of it is kept.
pub proof fn law_partial_page_folder(
    s: State,
    drive: Seq<char>,
    changes: Seq<ChangeView>,
    page_token: Seq<char>,
    at: int,
    parent: Seq<char>,
)
    requires
        s.keyed(),
        0 <= at < Plan::of(drive, changes).folders.len(),
        Plan::of(drive, changes).folders[at].1 is Update,
        Plan::of(drive, changes).folders[at].1->Update_0.parent == Some(parent),
        !s.folders.contains_key((parent, drive)),
        forall|i: int|
            0 <= i < Plan::of(drive, changes).folders.len() ==> ((#[trigger] Plan::of(
                drive,
                changes,
            ).folders[i]).1 is Update ==> Plan::of(drive, changes).folders[i].0 != parent),
    ensures
        s.merge(drive, changes, page_token) == Err::<State, Error>(Error::DataIntegrity),
{
    let plan = Plan::of(drive, changes);
    let ops = plan.folders;
    let g = ops[at].1->Update_0;
    lemma_plan_sound(drive, changes);
    lemma_drive_update_token(s, drive, page_token);
    let s1 = s.drive_update_token(drive, page_token);
    lemma_renamed(s1, drive, changes);
    let s2 = s1.renamed(drive, changes);
    assert(!s2.folders.dom().contains((parent, drive)));
    assert forall|i: int|
        0 <= i < ops.len() implies !writes_folder(#[trigger] ops[i], (parent, drive)) by {}
    let head = ops.take(at);
    assert forall|i: int|
        0 <= i < head.len() implies !writes_folder(#[trigger] head[i], (parent, drive)) by {
        assert(head[i] == ops[i]);
    }
    lemma_folder_ops_absent(s2, drive, head, (parent, drive));
    lemma_folder_op_lasts(s, drive, changes, page_token, at);
    let before = before_folder_op(s, drive, changes, page_token, at);
    let after = before_folder_op(s, drive, changes, page_token, at + 1);
    lemma_folder_upsert(before, g);
    let rest = ops.skip(at + 1);
    lemma_folder_ops_split(s2, drive, ops, at + 1);
    lemma_others_touch_others(plan, drive, at);
    assert forall|i: int| 0 <= i < rest.len() implies folder_op_touches(drive, #[trigger] rest[i])
        != g.key() by {
        assert(rest[i] == ops[at + 1 + i]);
    }
    assert forall|i: int|
        0 <= i < rest.len() implies !writes_folder(#[trigger] rest[i], (parent, drive)) by {
        assert(rest[i] == ops[at + 1 + i]);
    }
    lemma_folder_ops_dangling(after, drive, rest, g, parent);
    let s3 = s2.with_folder_ops(drive, ops);
    lemma_folder_ops(s2, drive, ops);
    lemma_file_ops(s3, drive, plan.files);
    let merged = s.merged(drive, changes, page_token);
    assert(merged.folders.contains_key(g.key()));
}

/// After a page that renames the drive has been merged, the top folder of
/// the drive has the name that the page's last renaming gives, and every
/// path that leads down from the top folder begins with that name.
///
/// This holds where the top folder is there and the page asks nothing else
/// for it: the page has no folder operation for the id of the drive.
pub proof fn law_drive_rename(
    s: State,
    drive: Seq<char>,
    changes: Seq<ChangeView>,
    page_token: Seq<char>,
    at: int,
)
    requires
        s.keyed(),
        s.folders.contains_key((drive, drive)),
        s.folders[(drive, drive)].parent is None,
        0 <= at < changes.len(),
        changes[at] is DriveChanged,
        forall|i: int| at < i < changes.len() ==> !(#[trigger] changes[i] is DriveChanged),
        !holds(Plan::of(drive, changes).folders, folder_op_key(), drive),
    ensures
        ({
            let name = changes[at]->DriveChanged_name;
            let merged = s.merged(drive, changes, page_token);
            &&& merged.folders.contains_key((drive, drive))
            &&& merged.folders[(drive, drive)] == (FolderView {
                name,
                ..s.folders[(drive, drive)]
            })
            &&& forall|x: Seq<char>, k: nat|
                #[trigger] climb(merged.links(drive), x, k) == Some(drive) ==> merged.rooted(
                    drive,
                    x,
                ) && merged.trail(drive, x)[0] == name && merged.trail(drive, x).len() == k + 1
        }),
{
    let plan = Plan::of(drive, changes);
    let name = changes[at]->DriveChanged_name;
    let key = (drive, drive);
    lemma_plan_sound(drive, changes);
    lemma_drive_update_token(s, drive, page_token);
    let s1 = s.drive_update_token(drive, page_token);
    lemma_renamed(s1, drive, changes);
    lemma_renamed_last(s1, drive, changes, at);
    let s2 = s1.renamed(drive, changes);
    assert(s1.folders.dom().contains(key));
    assert(s2.folders.dom().contains(key));
    assert forall|i: int| 0 <= i < plan.folders.len() implies folder_op_touches(
        drive,
        #[trigger] plan.folders[i],
    ) != key by {
        assert(folder_op_key()(plan.folders[i]) != drive);
    }
    lemma_folder_ops_top(s2, drive, plan.folders, key);
    lemma_folder_ops(s2, drive, plan.folders);
    let s3 = s2.with_folder_ops(drive, plan.folders);
    lemma_file_ops(s3, drive, plan.files);
    let merged = s.merged(drive, changes, page_token);
    assert forall|x: Seq<char>, k: nat| #[trigger]
        climb(merged.links(drive), x, k) == Some(drive) implies merged.rooted(drive, x)
        && merged.trail(drive, x)[0] == name && merged.trail(drive, x).len() == k + 1 by {
        lemma_depth(merged, drive, x, k);
    }
}

/// The path of an item is the names of the folders above it, from the top
/// folder of the drive down, and then its own name, joined by `/`. The first
/// of these names is the name of the drive.
pub proof fn law_path(
    s: State,
    drive: Seq<char>,
    id: Seq<char>,
    chain: Seq<Seq<char>>,
    name: Seq<char>,
)
    requires
        leads_up(s, drive, chain),
    ensures
        s.path_of(drive, id, Some(chain[0]), name) == Some(
            join(names_down(s, drive, chain).push(name)),
        ),
        names_down(s, drive, chain)[0] == s.folders[(drive, drive)].name,
{
    let top = (chain.len() - 1) as nat;
    lemma_chain_climb(s, drive, chain, top);
    assert(s.rooted_at(drive, chain[0], top));
    lemma_depth(s, drive, chain[0], top);
    assert(s.trail(drive, chain[0]) =~= names_down(s, drive, chain)) by {
        assert forall|i: int| 0 <= i < chain.len() implies s.trail(drive, chain[0])[i]
            == names_down(s, drive, chain)[i] by {
            lemma_chain_climb(s, drive, chain, (top - i) as nat);
        }
    }
}

/// An item has no path where the chain of its parents does not lead to the
/// top folder of the drive: where the chain ends at another folder without
/// a parent, or at a folder whose parent is not there. An item without a
/// parent that is not the top folder itself has no path either.
pub proof fn law_no_path(
    s: State,
    drive: Seq<char>,
    id: Seq<char>,
    chain: Seq<Seq<char>>,
    name: Seq<char>,
)
    requires
        breaks_off(s, drive, chain),
    ensures
        s.path_of(drive, id, Some(chain[0]), name) is None,
        id != drive ==> s.path_of(drive, id, None, name) is None,
{
    let links = s.links(drive);
    let last = (chain.len() - 1) as nat;
    assert forall|m: nat| !#[trigger] s.rooted_at(drive, chain[0], m) by {
        if m <= last {
            lemma_chain_climb(s, drive, chain, m);
        } else {
            lemma_chain_climb(s, drive, chain, last);
            match s.folders[(chain.last(), drive)].parent {
                None => {
                    lemma_climb_stops(links, chain[0], last, m);
                },
                Some(z) => {
                    lemma_climb_sum(links, chain[0], last, 1);
                    assert(climb(links, chain.last(), 1) == Some(z)) by {
                        assert(links.contains_key(chain.last()));
                        assert(climb(links, z, 0) == Some(z));
                    }
                    if m > last + 1 {
                        lemma_climb_stops(links, chain[0], last + 1, m);
                    }
                },
            }
        }
    }
}

/// A folder of which the changelog tells, and from which a chain of parents
/// leads up to the top folder, is reported with its path: the names from
/// the top folder down to the folder, joined by `/`.
pub proof fn law_changed_folder_path(s: State, drive: Seq<char>, i: int, chain: Seq<Seq<char>>)
    requires
        0 <= i < s.folder_changelog.len(),
        s.folder_changelog[i].folder.drive_id == drive,
        leads_up(s, drive, chain),
        s.folder_changelog[i].folder.parent == Some(chain[0]),
    ensures
        exists|j: int|
            0 <= j < s.changed_paths(drive).len() && (#[trigger] s.changed_paths(
                drive,
            )[j]).path().inner().path == join(
                names_down(s, drive, chain).push(s.folder_changelog[i].folder.name),
            ),
{
    let r = s.folder_changelog[i];
    law_path(s, drive, r.folder.id, chain, r.folder.name);
    lemma_folder_paths_has(s, s.folder_changelog, drive, i);
    let row = s.folder_path(r)->0;
    let folders = s.folder_paths(s.folder_changelog, drive);
    let j = choose|j: int| 0 <= j < folders.len() && folders[j] == row;
    assert(s.path_changelog(drive)[j] == row);
    lemma_reported(s, drive, row);
}

/// A file of which the changelog tells, and from whose folder a chain of
/// parents leads up to the top folder, is reported with its path: the names
/// from the top folder down to the file, joined by `/`.
pub proof fn law_changed_file_path(s: State, drive: Seq<char>, i: int, chain: Seq<Seq<char>>)
    requires
        0 <= i < s.file_changelog.len(),
        s.file_changelog[i].file.drive_id == drive,
        leads_up(s, drive, chain),
        s.file_changelog[i].file.parent == chain[0],
    ensures
        exists|j: int|
            0 <= j < s.changed_paths(drive).len() && (#[trigger] s.changed_paths(
                drive,
            )[j]).path().inner().path == join(
                names_down(s, drive, chain).push(s.file_changelog[i].file.name),
            ),
{
    let r = s.file_changelog[i];
    law_path(s, drive, r.file.id, chain, r.file.name);
    lemma_file_paths_has(s, s.file_changelog, drive, i);
    let row = s.file_path(r)->0;
    let folders = s.folder_paths(s.folder_changelog, drive);
    let files = s.file_paths(s.file_changelog, drive);
    let j = choose|j: int| 0 <= j < files.len() && files[j] == row;
    assert(s.path_changelog(drive)[folders.len() + j] == row);
    lemma_reported(s, drive, row);
}

/// After a drive has been filled from a listing in which every folder hangs
/// from the top folder, every folder of the listing is there as the listing
/// shows it, with its parent, whatever the order of the listing.
pub proof fn law_bootstrap_tree(
    s: State,
    drive: Seq<char>,
    name: Seq<char>,
    page_token: Seq<char>,
    items: Seq<ItemView>,
    order: Seq<usize>,
)
    requires
        s.keyed(),
        parents_first(listed_folders(items), drive, order),
        s.bootstrap(drive, name, page_token, items, order) is Ok,
        forall|i: int|
            0 <= i < listed_folders(items).len() ==> #[trigger] reached(
                listed_folders(items),
                drive,
            )[i],
    ensures
        ({
            let t = s.bootstrap(drive, name, page_token, items, order)->Ok_0;
            &&& t.folders.contains_key((drive, drive))
            &&& forall|i: int|
                0 <= i < listed_folders(items).len() ==> t.folders.contains_key(
                    (#[trigger] listed_folders(items)[i]).key(),
                ) && t.folders[listed_folders(items)[i].key()] == listed_folders(items)[i]
        }),
{
    let folders = listed_folders(items);
    let rows = in_order(folders, order);
    lemma_top_created(s, drive, name, page_token);
    let s2 = s.drive_create(drive, page_token)->Ok_0.folder_create(top_folder(drive, name))->Ok_0;
    lemma_with_folders(s2, rows);
    let s3 = s2.with_folders(rows)->Ok_0;
    lemma_with_files(s3, listed_files(items), folders, drive);
    let t = s.bootstrap(drive, name, page_token, items, order)->Ok_0;
    assert forall|i: int| 0 <= i < folders.len() implies t.folders.contains_key(
        (#[trigger] folders[i]).key(),
    ) && t.folders[folders[i].key()] == folders[i] by {
        assert(reached(folders, drive)[i]);
        let q = choose|q: int| 0 <= q < order.len() && #[trigger] order[q] == i;
        assert(rows[q] == folders[i]);
        assert(wrote_folder(rows, folders[i].key()));
    }
}

/// After a drive has been filled from a listing, the drive has one folder
/// without a parent: its top folder, which has the id and the name of the
/// drive and does not lie in the bin. Every other folder of the drive lies
/// in a folder of the drive. A folder that the listing shows without a
/// parent hangs from nothing, and is left out.
pub proof fn law_bootstrap_one_top(
    s: State,
    drive: Seq<char>,
    name: Seq<char>,
    page_token: Seq<char>,
    items: Seq<ItemView>,
    order: Seq<usize>,
)
    requires
        s.keyed(),
        s.consistent(),
        parents_first(listed_folders(items), drive, order),
        s.bootstrap(drive, name, page_token, items, order) is Ok,
    ensures
        ({
            let t = s.bootstrap(drive, name, page_token, items, order)->Ok_0;
            &&& t.folders.contains_key((drive, drive))
            &&& t.folders[(drive, drive)] == top_folder(drive, name)
            &&& forall|k: (Seq<char>, Seq<char>)| #[trigger]
                t.folders.contains_key(k) && k.1 == drive && k.0 != drive ==> (
                t.folders[k].parent matches Some(p) && t.folders.contains_key((p, drive)))
            &&& forall|i: int|
                0 <= i < listed_folders(items).len() && (#[trigger] listed_folders(
                    items,
                )[i]).parent is None ==> !reached(listed_folders(items), drive)[i]
        }),
{
    let folders = listed_folders(items);
    let links = listing_links(folders);
    let rows = in_order(folders, order);
    let none = None::<Seq<char>>;
    lemma_listed_folders(items);
    assert(one_each(folders, none)) by {
        assert forall|a: int, b: int|
            0 <= a < b < folders.len() && in_scope(#[trigger] folders[a], none) && in_scope(
                #[trigger] folders[b],
                none,
            ) implies folders[a].id != folders[b].id by {
            assert(folder_id_key()(folders[a]) != folder_id_key()(folders[b]));
        }
    }
    assert forall|i: int| 0 <= i < folders.len() && reached(folders, drive)[i] implies (
    #[trigger] folders[i]).parent is Some by {
        lemma_below_parent(links, folders[i].id, drive);
        lemma_row_link(folders, none, i);
    }
    lemma_top_created(s, drive, name, page_token);
    let s2 = s.drive_create(drive, page_token)->Ok_0.folder_create(top_folder(drive, name))->Ok_0;
    lemma_with_folders(s2, rows);
    let s3 = s2.with_folders(rows)->Ok_0;
    lemma_with_files(s3, listed_files(items), folders, drive);
    let t = s.bootstrap(drive, name, page_token, items, order)->Ok_0;
    assert(t.consistent());
    assert forall|k: (Seq<char>, Seq<char>)| #[trigger]
        t.folders.contains_key(k) && k.1 == drive && k.0 != drive implies (
    t.folders[k].parent matches Some(p) && t.folders.contains_key((p, drive))) by {
        assert(!s.folders.contains_key(k));
        assert(wrote_folder(rows, k));
        let q = choose|q: int| 0 <= q < rows.len() && (#[trigger] rows[q]).key() == k;
        let i = order[q] as int;
        assert(rows[q] == folders[i]);
        assert(reached(folders, drive)[i]);
    }
}

/// After a drive has been filled from a listing, the folders of the listing
/// that hang from the top folder are there as the listing shows them, and
/// so are the files that lie in one of these or in the top folder. The
/// orphans, and with them all that lies below an orphan, are not there.
/// The filling succeeds.
///
/// This holds of a listing of a drive that is not followed yet, in which
/// every item belongs to the drive, no folder has the id of the drive, and
/// no file to write is listed twice.
pub proof fn law_bootstrap_orphans(
    s: State,
    drive: Seq<char>,
    name: Seq<char>,
    page_token: Seq<char>,
    items: Seq<ItemView>,
    order: Seq<usize>,
)
    requires
        s.keyed(),
        s.consistent(),
        !s.drives.contains_key(drive),
        parents_first(listed_folders(items), drive, order),
        forall|j: int| 0 <= j < items.len() ==> (#[trigger] items[j]).drive_id() == drive,
        forall|j: int|
            0 <= j < items.len() && (#[trigger] items[j]) is Folder ==> items[j].id() != drive,
        forall|a: int, b: int|
            0 <= a < b < listed_files(items).len() && attached(
                listed_folders(items),
                drive,
                (#[trigger] listed_files(items)[a]).parent,
            ) && attached(
                listed_folders(items),
                drive,
                (#[trigger] listed_files(items)[b]).parent,
            ) ==> listed_files(items)[a].id != listed_files(items)[b].id,
    ensures
        s.bootstrap(drive, name, page_token, items, order) is Ok,
        ({
            let t = s.bootstrap(drive, name, page_token, items, order)->Ok_0;
            let folders = listed_folders(items);
            let files = listed_files(items);
            &&& t.drives.contains_key(drive)
            &&& t.drives[drive].page_token == page_token
            &&& t.folders.contains_key((drive, drive))
            &&& t.folders[(drive, drive)] == top_folder(drive, name)
            &&& forall|i: int|
                0 <= i < folders.len() ==> (t.folders.contains_key(
                    ((#[trigger] folders[i]).id, drive),
                ) <==> reached(folders, drive)[i])
            &&& forall|i: int|
                0 <= i < folders.len() && reached(folders, drive)[i] ==> t.folders[(
                    (#[trigger] folders[i]).id,
                    drive,
                )] == folders[i]
            &&& forall|i: int, j: int|
                0 <= i < folders.len() && 0 <= j < folders.len() && !reached(folders, drive)[i]
                    && below(
                    listing_links(folders),
                    (#[trigger] folders[j]).id,
                    (#[trigger] folders[i]).id,
                ) ==> !reached(folders, drive)[j]
            &&& forall|j: int|
                0 <= j < files.len() && attached(folders, drive, (#[trigger] files[j]).parent)
                    ==> t.files.contains_key((files[j].id, drive)) && t.files[(
                    files[j].id,
                    drive,
                )] == files[j]
            &&& forall|j: int|
                0 <= j < files.len() && !wrote_file(
                    files,
                    folders,
                    drive,
                    ((#[trigger] files[j]).id, drive),
                ) ==> !t.files.contains_key((files[j].id, drive))
        }),
{
    let folders = listed_folders(items);
    let files = listed_files(items);
    let links = listing_links(folders);
    let marks = reached(folders, drive);
    let rows = in_order(folders, order);
    let none = None::<Seq<char>>;
    lemma_listed_folders(items);
    lemma_listed_files(items);
    // Every listed row belongs to the drive, and no folder has the drive's id.
    assert forall|i: int| 0 <= i < folders.len() implies (#[trigger] folders[i]).drive_id == drive
        && folders[i].id != drive by {
        let j = choose|j: int| 0 <= j < items.len() && items[j] == ItemView::Folder(folders[i]);
        assert(items[j].drive_id() == drive);
        assert(items[j].id() != drive);
    }
    assert forall|j: int| 0 <= j < files.len() implies (#[trigger] files[j]).drive_id == drive by {
        let l = choose|l: int| 0 <= l < items.len() && items[l] == ItemView::File(files[j]);
        assert(items[l].drive_id() == drive);
    }
    assert(one_each(folders, none)) by {
        assert forall|a: int, b: int|
            0 <= a < b < folders.len() && in_scope(#[trigger] folders[a], none) && in_scope(
                #[trigger] folders[b],
                none,
            ) implies folders[a].id != folders[b].id by {
            assert(folder_id_key()(folders[a]) != folder_id_key()(folders[b]));
        }
    }
    // The store has nothing of the drive yet.
    assert forall|k: (Seq<char>, Seq<char>)| k.1 == drive implies !s.folders.contains_key(k)
        && !s.files.contains_key(k) by {
        if s.files.contains_key(k) {
            assert(s.folders.contains_key((s.files[k].parent, k.1)));
        }
    }
    let s1 = s.drive_create(drive, page_token)->Ok_0;
    assert(s1.folder_create(top_folder(drive, name)) is Ok);
    lemma_top_created(s, drive, name, page_token);
    let s2 = s1.folder_create(top_folder(drive, name))->Ok_0;
    // The folders to write are new.
    assert(fresh_folders(s2, rows)) by {
        assert forall|a: int, b: int| 0 <= a < b < rows.len() implies folder_key()(
            #[trigger] rows[a],
        ) != folder_key()(#[trigger] rows[b]) by {
            let x = order[a] as int;
            let y = order[b] as int;
            assert(order[a] != order[b]);
            if x < y {
                assert(folder_id_key()(folders[x]) != folder_id_key()(folders[y]));
            } else {
                assert(folder_id_key()(folders[y]) != folder_id_key()(folders[x]));
            }
        }
        assert forall|q: int| 0 <= q < rows.len() implies !s2.folders.contains_key(
            (#[trigger] rows[q]).key(),
        ) by {
            let x = order[q] as int;
            assert(rows[q] == folders[x]);
        }
    }
    lemma_with_folders(s2, rows);
    let s3 = s2.with_folders(rows)->Ok_0;
    // A folder is written exactly where it hangs from the top folder.
    assert forall|i: int| 0 <= i < folders.len() implies (wrote_folder(
        rows,
        ((#[trigger] folders[i]).id, drive),
    ) <==> marks[i]) by {
        if marks[i] {
            let q = choose|q: int| 0 <= q < order.len() && #[trigger] order[q] == i;
            assert(rows[q] == folders[i]);
        }
        if wrote_folder(rows, (folders[i].id, drive)) {
            let q = choose|q: int|
                0 <= q < rows.len() && (#[trigger] rows[q]).key() == (folders[i].id, drive);
            let x = order[q] as int;
            assert(rows[q] == folders[x]);
            if x < i {
                assert(folder_id_key()(folders[x]) != folder_id_key()(folders[i]));
            } else if i < x {
                assert(folder_id_key()(folders[i]) != folder_id_key()(folders[x]));
            }
        }
    }
    // What a file or a folder hangs from is there.
    assert forall|p: Seq<char>| attached(folders, drive, p) implies s3.folders.contains_key(
        (p, drive),
    ) by {
        if p != drive {
            let i = choose|i: int|
                0 <= i < folders.len() && marks[i] && (#[trigger] folders[i]).id == p;
            assert(wrote_folder(rows, (folders[i].id, drive)));
        }
    }
    assert forall|i: int| 0 <= i < folders.len() && marks[i] && (#[trigger] folders[i]).parent
        is Some implies attached(folders, drive, folders[i].parent->0) by {
        let p = folders[i].parent->0;
        lemma_below_parent(links, folders[i].id, drive);
        lemma_row_link(folders, none, i);
        if p != drive {
            lemma_below_parent(links, p, drive);
            let j = choose|j: int| linked(folders, none, p, j);
            assert(marks[j]);
            assert(placed_id(folders, marks, p));
        }
    }
    // The files to write are new.
    assert(fresh_files(s3, files, folders, drive));
    lemma_with_files(s3, files, folders, drive);
    let t = s3.with_files(files, folders, drive)->Ok_0;
    assert(t.consistent()) by {
        assert forall|k: (Seq<char>, Seq<char>)| #[trigger]
            t.folders.contains_key(k) implies t.drives.contains_key(k.1) && (
        t.folders[k].parent matches Some(p) ==> t.folders.contains_key((p, k.1))) by {
            if s.folders.contains_key(k) {
                assert(s2.folders.contains_key(k));
                if s.folders[k].parent is Some {
                    assert(s.folders.contains_key((s.folders[k].parent->0, k.1)));
                    assert(s2.folders.contains_key((s.folders[k].parent->0, k.1)));
                }
            } else if k == (drive, drive) {
                assert(s2.folders.contains_key(k));
            } else {
                assert(wrote_folder(rows, k));
                let q = choose|q: int| 0 <= q < rows.len() && (#[trigger] rows[q]).key() == k;
                let x = order[q] as int;
                assert(rows[q] == folders[x]);
                assert(marks[x]);
            }
        }
        assert forall|k: (Seq<char>, Seq<char>)| #[trigger]
            t.files.contains_key(k) implies t.folders.contains_key((t.files[k].parent, k.1)) by {
            if s.files.contains_key(k) {
                assert(s.folders.contains_key((s.files[k].parent, k.1)));
                assert(s2.folders.contains_key((s.files[k].parent, k.1)));
            } else {
                let j = choose|j: int|
                    0 <= j < files.len() && attached(folders, drive, (#[trigger] files[j]).parent)
                        && files[j].key() == k;
            }
        }
    }
    assert forall|i: int| 0 <= i < folders.len() implies (t.folders.contains_key(
        ((#[trigger] folders[i]).id, drive),
    ) <==> marks[i]) by {}
    assert forall|i: int| 0 <= i < folders.len() && marks[i] implies t.folders[(
        (#[trigger] folders[i]).id,
        drive,
    )] == folders[i] by {
        let q = choose|q: int| 0 <= q < order.len() && #[trigger] order[q] == i;
        assert(rows[q] == folders[i]);
    }
    assert forall|i: int, j: int|
        0 <= i < folders.len() && 0 <= j < folders.len() && !marks[i] && below(
            links,
            (#[trigger] folders[j]).id,
            (#[trigger] folders[i]).id,
        ) implies !marks[j] by {
        if marks[j] {
            let x = folders[j].id;
            let o = folders[i].id;
            let k1 = choose|k: nat| k >= 1 && #[trigger] climb(links, x, k) == Some(drive);
            let k2 = choose|k: nat| k >= 1 && #[trigger] climb(links, x, k) == Some(o);
            if k2 < k1 {
                lemma_climb_sum(links, x, k2, (k1 - k2) as nat);
                assert(below(links, o, drive));
            } else if k1 < k2 {
                lemma_climb_sum(links, x, k1, (k2 - k1) as nat);
                assert(links.contains_key(drive));
                let l = choose|l: int| linked(folders, none, drive, l);
                assert(folders[l].id != drive);
            }
        }
    }
    assert forall|j: int|
        0 <= j < files.len() && attached(
            folders,
            drive,
            (#[trigger] files[j]).parent,
        ) implies t.files.contains_key((files[j].id, drive)) && t.files[(files[j].id, drive)]
        == files[j] by {
        assert(wrote_file(files, folders, drive, files[j].key()));
    }
    assert forall|j: int|
        0 <= j < files.len() && !wrote_file(
            files,
            folders,
            drive,
            ((#[trigger] files[j]).id, drive),
        ) implies !t.files.contains_key((files[j].id, drive)) by {}
    assert(s.bootstrap(drive, name, page_token, items, order) == Ok::<State, Error>(t));
    assert(t.drives.contains_key(drive));
    assert(t.folders[(drive, drive)] == top_folder(drive, name));
}

/// Filling a drive from a listing comes out the same in whatever order the
/// folders are written, as long as every parent is written before its
/// children: it fails alike, or it leaves the same drives, folders and
/// files, and the same row in the changelog for every item.
pub proof fn law_bootstrap_any_order(
    s: State,
    drive: Seq<char>,
    name: Seq<char>,
    page_token: Seq<char>,
    items: Seq<ItemView>,
    one: Seq<usize>,
    other: Seq<usize>,
)
    requires
        s.keyed(),
        parents_first(listed_folders(items), drive, one),
        parents_first(listed_folders(items), drive, other),
    ensures
        match (
            s.bootstrap(drive, name, page_token, items, one),
            s.bootstrap(drive, name, page_token, items, other),
        ) {
            (Ok(a), Ok(b)) => {
                &&& a.drives == b.drives
                &&& a.folders == b.folders
                &&& a.files == b.files
                &&& a.folder_changes() == b.folder_changes()
                &&& a.file_changes() == b.file_changes()
            },
            (Err(e), Err(f)) => e == f,
            _ => false,
        },
{
    let folders = listed_folders(items);
    let files = listed_files(items);
    let rows = in_order(folders, one);
    let others = in_order(folders, other);
    if s.drive_create(drive, page_token) is Ok && s.drive_create(
        drive,
        page_token,
    )->Ok_0.folder_create(top_folder(drive, name)) is Ok {
        lemma_top_created(s, drive, name, page_token);
        let s2 = s.drive_create(drive, page_token)->Ok_0.folder_create(
            top_folder(drive, name),
        )->Ok_0;
        lemma_same_rows(folders, drive, one, other);
        lemma_same_rows(folders, drive, other, one);
        lemma_with_folders_any_order(s2, rows, others);
        if s2.with_folders(rows) is Ok {
            let a3 = s2.with_folders(rows)->Ok_0;
            let b3 = s2.with_folders(others)->Ok_0;
            lemma_with_files_alike(a3, b3, files, folders, drive);
            if a3.with_files(files, folders, drive) is Ok {
                let a = a3.with_files(files, folders, drive)->Ok_0;
                let b = b3.with_files(files, folders, drive)->Ok_0;
                lemma_same_tables(a, b);
            }
        }
    }
}

/// What one change asks of the rows of a drive: a new name of the drive
/// goes to its top folder; an item of the drive is written as shown; an
/// item that has moved away is deleted as what it is; an id that is gone is
/// deleted as a folder; that the drive is gone is not acted on.
pub open spec fn asked(s: State, drive: Seq<char>, change: ChangeView) -> State {
    match change {
        ChangeView::DriveChanged { name, .. } => s.folder_update_name(drive, drive, name),
        ChangeView::DriveRemoved(_) => s,
        ChangeView::ItemChanged(ItemView::Folder(f)) => if f.drive_id == drive {
            s.folder_upsert(f)
        } else {
            s.folder_delete(f.id, drive)
        },
        ChangeView::ItemChanged(ItemView::File(f)) => if f.drive_id == drive {
            s.file_upsert(f)
        } else {
            s.file_delete(f.id, drive)
        },
        ChangeView::ItemRemoved(id) => s.folder_delete(id, drive),
    }
}

/// The one change of a page can be granted without a breach of integrity:
/// it writes no item, or it writes a folder of a drive that is followed
/// into a folder that is there, into itself or into none, or a file into a
/// folder that is there.
pub open spec fn grantable(s: State, drive: Seq<char>, change: ChangeView) -> bool {
    match change {
        ChangeView::ItemChanged(ItemView::Folder(f)) => f.drive_id == drive ==> {
            &&& s.drives.contains_key(drive)
            &&& f.parent matches Some(p) ==> p == f.id || s.folders.contains_key((p, drive))
        },
        ChangeView::ItemChanged(ItemView::File(f)) => f.drive_id == drive
            ==> s.folders.contains_key((f.parent, drive)),
        _ => true,
    }
}

/// Merging a page of one change moves the cursor of the drive and does what
/// the change asks, and nothing else.
pub proof fn law_one_change(s: State, drive: Seq<char>, change: ChangeView, page_token: Seq<char>)
    ensures
        s.merged(drive, seq![change], page_token) == asked(
            s.drive_update_token(drive, page_token),
            drive,
            change,
        ),
{
    let changes = seq![change];
    let none = Seq::<ChangeView>::empty();
    assert(changes.drop_last() =~= none);
    assert(changes.last() == change);
    assert(Plan::of(drive, none) == Plan::empty());
    let plan = Plan::of(drive, changes);
    let s1 = s.drive_update_token(drive, page_token);
    assert(s1.renamed(drive, none) == s1);
    let s2 = s1.renamed(drive, changes);
    let no_folders = Seq::<(Seq<char>, FolderChangeView)>::empty();
    let no_files = Seq::<(Seq<char>, FileChangeView)>::empty();
    assert forall|id: Seq<char>| !holds(no_folders, folder_op_key(), id) && !holds(
        no_files,
        file_op_key(),
        id,
    ) by {}
    assert(s2.with_folder_ops(drive, no_folders) == s2);
    assert forall|t: State| #[trigger] t.with_file_ops(drive, no_files) == t by {}
    assert forall|e: (Seq<char>, FolderChangeView)|
        (#[trigger] seq![e]).drop_last() =~= no_folders && seq![e].last() == e by {}
    assert forall|e: (Seq<char>, FileChangeView)|
        (#[trigger] seq![e]).drop_last() =~= no_files && seq![e].last() == e by {}
    match change {
        ChangeView::DriveChanged { name, .. } => {
            assert(plan == Plan::empty());
            assert(s2 == s1.folder_update_name(drive, drive, name));
            assert(s2.with_folder_ops(drive, plan.folders) == s2);
            assert(s2.with_file_ops(drive, plan.files) == s2);
        },
        ChangeView::DriveRemoved(_) => {
            assert(plan == Plan::empty());
        },
        ChangeView::ItemChanged(ItemView::Folder(f)) => {
            let e = if f.drive_id == drive {
                (f.id, FolderChangeView::Update(f))
            } else {
                (f.id, FolderChangeView::Remove)
            };
            assert(plan.folders =~= seq![e]);
            assert(plan.files =~= no_files);
            assert(seq![e].drop_last() =~= no_folders);
        },
        ChangeView::ItemChanged(ItemView::File(f)) => {
            let e = if f.drive_id == drive {
                (f.id, FileChangeView::Update(f))
            } else {
                (f.id, FileChangeView::Remove)
            };
            assert(plan.files =~= seq![e]);
            assert(plan.folders =~= no_folders);
            assert(seq![e].drop_last() =~= no_files);
            assert(s2 == s1);
            assert(s1.with_folder_ops(drive, plan.folders) == s1);
            assert(s1.with_file_ops(drive, seq![e].drop_last()) == s1);
            assert(seq![e].last() == e);
            assert(s1.with_file_ops(drive, plan.files) == asked(s1, drive, change));
        },
        ChangeView::ItemRemoved(id) => {
            let e = (id, FolderChangeView::Remove);
            assert(plan.folders =~= seq![e]);
            assert(plan.files =~= no_files);
            assert(seq![e].drop_last() =~= no_folders);
        },
    }
}

/// A page of one change that can be granted merges: the store moves the
/// cursor of the drive and does what the change asks. So a page that tells
/// of one removal, of one item that has moved away, of one item of the
/// drive in a folder that is there, or of a new name of the drive, is never
/// refused.
pub proof fn law_one_change_merges(
    s: State,
    drive: Seq<char>,
    change: ChangeView,
    page_token: Seq<char>,
)
    requires
        s.keyed(),
        s.consistent(),
        grantable(s, drive, change),
    ensures
        s.merge(drive, seq![change], page_token) == Ok::<State, Error>(
            asked(s.drive_update_token(drive, page_token), drive, change),
        ),
{
    law_one_change(s, drive, change, page_token);
    lemma_drive_update_token(s, drive, page_token);
    lemma_drive_update_token_consistent(s, drive, page_token);
    let s1 = s.drive_update_token(drive, page_token);
    assert(s1.folders == s.folders);
    assert(s1.drives.dom() == s.drives.dom());
    match change {
        ChangeView::DriveChanged { name, .. } => {
            if s1.folders.contains_key((drive, drive)) {
                lemma_folder_upsert_consistent(
                    s1,
                    FolderView { name, ..s1.folders[(drive, drive)] },
                );
            }
        },
        ChangeView::DriveRemoved(_) => {},
        ChangeView::ItemChanged(ItemView::Folder(f)) => {
            if f.drive_id == drive {
                assert(s1.drives.dom().contains(drive));
                lemma_folder_upsert_consistent(s1, f);
            } else {
                lemma_folder_delete_consistent(s1, f.id, drive);
            }
        },
        ChangeView::ItemChanged(ItemView::File(f)) => {
            if f.drive_id == drive {
                lemma_file_upsert_consistent(s1, f);
            } else {
                lemma_file_delete_consistent(s1, f.id, drive);
            }
        },
        ChangeView::ItemRemoved(id) => {
            lemma_folder_delete_consistent(s1, id, drive);
        },
    }
}

/// A page of one change that shows an item of the drive in a folder that is
/// not there is not whole: it is refused as a breach of integrity, and
/// nothing of it is kept.
pub proof fn law_one_change_torn(
    s: State,
    drive: Seq<char>,
    item: ItemView,
    page_token: Seq<char>,
)
    requires
        s.keyed(),
        item.drive_id() == drive,
        match item {
            ItemView::Folder(f) => f.parent matches Some(p) && p != f.id && !s.folders.contains_key(
                (p, drive),
            ),
            ItemView::File(f) => !s.folders.contains_key((f.parent, drive)),
        },
    ensures
        s.merge(drive, seq![ChangeView::ItemChanged(item)], page_token) == Err::<State, Error>(
            Error::DataIntegrity,
        ),
{
    law_one_change(s, drive, ChangeView::ItemChanged(item), page_token);
    let s1 = s.drive_update_token(drive, page_token);
    let t = asked(s1, drive, ChangeView::ItemChanged(item));
    match item {
        ItemView::Folder(f) => {
            assert(t.folders.contains_key(f.key()));
            assert(!t.folders.contains_key((f.parent->0, f.key().1)));
        },
        ItemView::File(f) => {
            assert(t.files.contains_key(f.key()));
            assert(!t.folders.contains_key((t.files[f.key()].parent, f.key().1)));
        },
    }
}

/// A page that shows no item as one of the drive, however many removals,
/// items that have moved away and new names of the drive it tells of, is
/// never refused: removals keep the rows consistent.
pub proof fn law_removals_merge(
    s: State,
    drive: Seq<char>,
    changes: Seq<ChangeView>,
    page_token: Seq<char>,
)
    requires
        s.keyed(),
        s.consistent(),
        shows_nothing_here(drive, changes),
    ensures
        s.merge(drive, changes, page_token) is Ok,
{
    let plan = Plan::of(drive, changes);
    lemma_plan_removals(drive, changes);
    lemma_drive_update_token(s, drive, page_token);
    lemma_drive_update_token_consistent(s, drive, page_token);
    let s1 = s.drive_update_token(drive, page_token);
    lemma_renamed(s1, drive, changes);
    lemma_renamed_consistent(s1, drive, changes);
    let s2 = s1.renamed(drive, changes);
    lemma_folder_removals_consistent(s2, drive, plan.folders);
    lemma_folder_ops(s2, drive, plan.folders);
    let s3 = s2.with_folder_ops(drive, plan.folders);
    lemma_file_removals_consistent(s3, drive, plan.files);
}

/// A page is not whole where its last word on a file shows the file as one
/// of the drive in a folder that the store does not have and that the page
/// nowhere shows as a folder of the drive: merging it is refused as a breach
/// of integrity, whatever else the page tells, and nothing of it is kept.
pub proof fn law_torn_page_file(
    s: State,
    drive: Seq<char>,
    changes: Seq<ChangeView>,
    page_token: Seq<char>,
    at: int,
    f: FileView,
)
    requires
        s.keyed(),
        last_word(changes, at, f.id),
        changes[at] == ChangeView::ItemChanged(ItemView::File(f)),
        f.drive_id == drive,
        !s.folders.contains_key((f.parent, drive)),
        !shows_folder(drive, changes, f.parent),
    ensures
        s.merge(drive, changes, page_token) == Err::<State, Error>(Error::DataIntegrity),
{
    lemma_last_word_file(drive, changes, at, f);
    lemma_plan_writes_shown(drive, changes, f.parent);
    let plan = Plan::of(drive, changes);
    let p = position(plan.files, file_op_key(), f.id);
    law_partial_page_file(s, drive, changes, page_token, p);
}

/// A page is not whole where its last word on a folder shows the folder as
/// one of the drive in a folder that the store does not have and that the
/// page nowhere shows as a folder of the drive: merging it is refused as a
/// breach of integrity, whatever else the page tells, and nothing of it is
/// kept.
pub proof fn law_torn_page_folder(
    s: State,
    drive: Seq<char>,
    changes: Seq<ChangeView>,
    page_token: Seq<char>,
    at: int,
    f: FolderView,
    parent: Seq<char>,
)
    requires
        s.keyed(),
        last_word(changes, at, f.id),
        changes[at] == ChangeView::ItemChanged(ItemView::Folder(f)),
        f.drive_id == drive,
        f.parent == Some(parent),
        !s.folders.contains_key((parent, drive)),
        !shows_folder(drive, changes, parent),
    ensures
        s.merge(drive, changes, page_token) == Err::<State, Error>(Error::DataIntegrity),
{
    lemma_last_word_folder(drive, changes, at, f);
    lemma_plan_writes_shown(drive, changes, parent);
    let plan = Plan::of(drive, changes);
    let p = position(plan.folders, folder_op_key(), f.id);
    law_partial_page_folder(s, drive, changes, page_token, p, parent);
}

/// Filling a drive comes out the same from two listings that show the same
/// items in another order: it fails alike, or it leaves the same drives,
/// folders and files.
///
/// This holds of listings that show no folder id twice and no file id
/// twice. Of a folder that a listing shows twice the later showing counts,
/// so there the order of the listing matters.
pub proof fn law_bootstrap_any_listing(
    s: State,
    drive: Seq<char>,
    name: Seq<char>,
    page_token: Seq<char>,
    one: Seq<ItemView>,
    other: Seq<ItemView>,
    order: Seq<usize>,
    theirs: Seq<usize>,
)
    requires
        s.keyed(),
        same_listing(one, other),
        parents_first(listed_folders(one), drive, order),
        parents_first(listed_folders(other), drive, theirs),
    ensures
        match (
            s.bootstrap(drive, name, page_token, one, order),
            s.bootstrap(drive, name, page_token, other, theirs),
        ) {
            (Ok(a), Ok(b)) => a.drives == b.drives && a.folders == b.folders && a.files == b.files,
            (Err(e), Err(f)) => e == f,
            _ => false,
        },
{
    let folders = listed_folders(one);
    let others = listed_folders(other);
    let files = listed_files(one);
    let their_files = listed_files(other);
    let rows = in_order(folders, order);
    let their_rows = in_order(others, theirs);
    lemma_same_listing(one, other);
    lemma_same_listing(other, one);
    lemma_listed_folders(one);
    lemma_listed_folders(other);
    lemma_same_links(folders, others);
    lemma_same_reached(folders, others, drive, order, theirs);
    lemma_same_reached(others, folders, drive, theirs, order);
    lemma_listed_files_once(one);
    lemma_listed_files_once(other);
    if s.drive_create(drive, page_token) is Ok && s.drive_create(
        drive,
        page_token,
    )->Ok_0.folder_create(top_folder(drive, name)) is Ok {
        lemma_top_created(s, drive, name, page_token);
        let s2 = s.drive_create(drive, page_token)->Ok_0.folder_create(
            top_folder(drive, name),
        )->Ok_0;
        lemma_with_folders_any_order(s2, rows, their_rows);
        if s2.with_folders(rows) is Ok {
            let a3 = s2.with_folders(rows)->Ok_0;
            let b3 = s2.with_folders(their_rows)->Ok_0;
            lemma_with_files_any_order(a3, b3, files, their_files, folders, others, drive);
            if a3.with_files(files, folders, drive) is Ok {
                let a = a3.with_files(files, folders, drive)->Ok_0;
                let b = b3.with_files(their_files, others, drive)->Ok_0;
                lemma_same_tables(a, b);
            }
        }
    }
}

/// What is reported of the paths of a drive holds no path twice, and every
/// entry of it is made of a changelog row of the drive that has a path: a
/// row whose chain of parents does not lead to the top folder of the drive
/// is left out.
pub proof fn law_reported_paths(s: State, drive: Seq<char>)
    ensures
        forall|a: int, b: int|
            0 <= a < b < s.changed_paths(drive).len() ==> (#[trigger] s.changed_paths(
                drive,
            )[a]).path().inner().path != (#[trigger] s.changed_paths(drive)[b]).path().inner().path,
        forall|j: int|
            0 <= j < s.changed_paths(drive).len() ==> reported_from(
                s,
                drive,
                #[trigger] s.changed_paths(drive)[j],
            ),
{
    let rows = s.path_changelog(drive);
    let kept = latest_by_path(rows);
    lemma_latest_by_path(rows);
    lemma_latest_among(rows);
    lemma_paths_from_rows(s, drive);
    assert forall|a: int, b: int| 0 <= a < b < s.changed_paths(drive).len() implies (
    #[trigger] s.changed_paths(drive)[a]).path().inner().path != (#[trigger] s.changed_paths(
        drive,
    )[b]).path().inner().path by {
        assert(path_key()(kept[a]) != path_key()(kept[b]));
        assert(s.changed_paths(drive)[a] == kept[a].changed());
        assert(s.changed_paths(drive)[b] == kept[b].changed());
    }
    assert forall|j: int| 0 <= j < s.changed_paths(drive).len() implies reported_from(
        s,
        drive,
        #[trigger] s.changed_paths(drive)[j],
    ) by {
        assert(rows.contains(kept[j]));
        let i = choose|i: int| 0 <= i < rows.len() && rows[i] == kept[j];
        assert(has_path_row(s, drive, rows[i]));
        assert(kept[j].changed() == s.changed_paths(drive)[j]);
    }
}

/// The answer of the remote service brings a cursor that the drive does not
/// have yet, so that its changes are looked at.
pub open spec fn news(s: State, drive: Seq<char>, page_token: Seq<char>) -> bool {
    !(s.drives.contains_key(drive) && s.drives[drive].page_token == page_token)
}

/// Bringing a drive up to date with a page of one change that can be
/// granted succeeds: the changelog of the drive is emptied, the cursor
/// moves, and what the change asks is done.
pub proof fn law_sync_one_change(
    s: State,
    drive: Seq<char>,
    change: ChangeView,
    page_token: Seq<char>,
    order: Seq<usize>,
)
    requires
        s.keyed(),
        s.consistent(),
        news(s, drive, page_token),
        grantable(s, drive, change),
    ensures
        s.synced(drive, FetchedView::Changes { changes: seq![change], page_token }, order) == Ok::<
            State,
            Error,
        >(
            asked(s.changelog_clear(drive).drive_update_token(drive, page_token), drive, change),
        ),
{
    lemma_changelog_clear(s, drive);
    law_one_change_merges(s.changelog_clear(drive), drive, change, page_token);
}

/// Bringing a drive up to date with a page that is not whole fails, and the
/// failure tells of a partial list of changes, not of the store and not of
/// the network. The drives, the folders, the files and the cursor stay as
/// they were; the changelog of the drive has been emptied.
pub proof fn law_sync_torn_page(
    s: State,
    drive: Seq<char>,
    changes: Seq<ChangeView>,
    page_token: Seq<char>,
    order: Seq<usize>,
)
    requires
        news(s, drive, page_token),
        s.changelog_clear(drive).merge(drive, changes, page_token) is Err,
    ensures
        s.synced(drive, FetchedView::Changes { changes, page_token }, order) == Err::<State, Error>(
            Error::DataIntegrity,
        ),
        crate::raised(Error::DataIntegrity) == (crate::Error::PartialChangeList {
            source: Error::DataIntegrity,
        }),
        s.changelog_clear(drive).drives == s.drives,
        s.changelog_clear(drive).folders == s.folders,
        s.changelog_clear(drive).files == s.files,
{
}

} // verus!
