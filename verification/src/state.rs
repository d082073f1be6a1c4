//! The mirror as a mathematical value: three tables keyed like the rows of
//! a relational store, two changelogs ordered by time of writing, and the
//! operations on them.

use crate::model::drive::DriveView;
use crate::model::file::{ChangedFileView, FileChangelogView, FileView};
use crate::model::folder::{ChangedFolderView, FolderChangelogView, FolderView};
use crate::model::path::{ChangedPathView, PathChangelogView};
pub use crate::database::Error;
use crate::fetch::{ChangeView, ItemView};
use crate::reach::{listed, placed_id, row_links};
use crate::rows::{distinct, holds, put, table, written};
use crate::tree::{below, climb, within};
use vstd::prelude::*;

verus! {

/// The key of a drive row: the drive's id.
pub open spec fn drive_key() -> spec_fn(DriveView) -> Seq<char> {
    |d: DriveView| d.id
}

/// The key of a folder row: the folder's id and the id of its drive.
pub open spec fn folder_key() -> spec_fn(FolderView) -> (Seq<char>, Seq<char>) {
    |f: FolderView| f.key()
}

/// The key of a file row: the file's id and the id of its drive.
pub open spec fn file_key() -> spec_fn(FileView) -> (Seq<char>, Seq<char>) {
    |f: FileView| f.key()
}

/// The key of a row of the folder changelog: that of its folder.
pub open spec fn folder_log_key() -> spec_fn(FolderChangelogView) -> (Seq<char>, Seq<char>) {
    |r: FolderChangelogView| r.key()
}

/// The key of a row of the file changelog: that of its file.
pub open spec fn file_log_key() -> spec_fn(FileChangelogView) -> (Seq<char>, Seq<char>) {
    |r: FileChangelogView| r.key()
}

/// What the remote service told of a drive, as plain text.
pub enum FetchedView {
    Listing { name: Seq<char>, page_token: Seq<char>, items: Seq<ItemView> },
    Changes { changes: Seq<ChangeView>, page_token: Seq<char> },
}

/// What a page of changes asks for a folder.
pub enum FolderChangeView {
    Update(FolderView),
    Remove,
}

/// What a page of changes asks for a file.
pub enum FileChangeView {
    Update(FileView),
    Remove,
}

/// The key of a folder operation: the id that it is for.
pub open spec fn folder_op_key() -> spec_fn((Seq<char>, FolderChangeView)) -> Seq<char> {
    |e: (Seq<char>, FolderChangeView)| e.0
}

/// The key of a file operation: the id that it is for.
pub open spec fn file_op_key() -> spec_fn((Seq<char>, FileChangeView)) -> Seq<char> {
    |e: (Seq<char>, FileChangeView)| e.0
}

/// What a page of changes asks for, item by item: at most one operation for
/// each id, the ids in the order in which the page first named them.
pub struct Plan {
    pub folders: Seq<(Seq<char>, FolderChangeView)>,
    pub files: Seq<(Seq<char>, FileChangeView)>,
}

impl Plan {
    /// The plan that asks for nothing.
    pub open spec fn empty() -> Plan {
        Plan { folders: Seq::empty(), files: Seq::empty() }
    }

    /// No id is named twice among the folders, nor among the files.
    pub open spec fn keyed(self) -> bool {
        distinct(self.folders, folder_op_key()) && distinct(self.files, file_op_key())
    }

    /// Every folder and every file to write sits under its own id and
    /// belongs to `drive`.
    pub open spec fn sound(self, drive: Seq<char>) -> bool {
        &&& self.keyed()
        &&& forall|i: int|
            0 <= i < self.folders.len() ==> (match (#[trigger] self.folders[i]).1 {
                FolderChangeView::Update(f) => f.id == self.folders[i].0 && f.drive_id == drive,
                FolderChangeView::Remove => true,
            })
        &&& forall|i: int|
            0 <= i < self.files.len() ==> (match (#[trigger] self.files[i]).1 {
                FileChangeView::Update(f) => f.id == self.files[i].0 && f.drive_id == drive,
                FileChangeView::Remove => true,
            })
    }

    /// With the removal of `id`, of which the page does not tell whether it is
    /// a folder or a file: it counts as a file where the plan already has it
    /// as a file, and as a folder otherwise.
    pub open spec fn remove(self, id: Seq<char>) -> Plan {
        if holds(self.files, file_op_key(), id) {
            Plan { files: put(self.files, file_op_key(), (id, FileChangeView::Remove)), ..self }
        } else {
            Plan {
                folders: put(self.folders, folder_op_key(), (id, FolderChangeView::Remove)),
                ..self
            }
        }
    }

    /// Whether an item that has moved away is removed as a file: where the
    /// plan already has its id as a file, and where the plan does not have
    /// its id at all and the item is a file. Otherwise it is removed as a
    /// folder.
    pub open spec fn leaves_files(self, item: ItemView) -> bool {
        holds(self.files, file_op_key(), item.id()) || (item is File && !holds(
            self.folders,
            folder_op_key(),
            item.id(),
        ))
    }

    /// With the removal of an item that has moved away to another drive.
    pub open spec fn moved_away(self, item: ItemView) -> Plan {
        if self.leaves_files(item) {
            Plan {
                files: put(self.files, file_op_key(), (item.id(), FileChangeView::Remove)),
                ..self
            }
        } else {
            Plan {
                folders: put(
                    self.folders,
                    folder_op_key(),
                    (item.id(), FolderChangeView::Remove),
                ),
                ..self
            }
        }
    }

    /// With what one change asks for, as seen from `drive`. An item of
    /// another drive has moved away and counts as removed.
    pub open spec fn step(self, drive: Seq<char>, change: ChangeView) -> Plan {
        match change {
            ChangeView::DriveChanged { .. } => self,
            ChangeView::DriveRemoved(_) => self,
            ChangeView::ItemChanged(item) => if item.drive_id() == drive {
                match item {
                    ItemView::Folder(f) => Plan {
                        folders: put(
                            self.folders,
                            folder_op_key(),
                            (f.id, FolderChangeView::Update(f)),
                        ),
                        ..self
                    },
                    ItemView::File(f) => Plan {
                        files: put(self.files, file_op_key(), (f.id, FileChangeView::Update(f))),
                        ..self
                    },
                }
            } else {
                self.moved_away(item)
            },
            ChangeView::ItemRemoved(id) => self.remove(id),
        }
    }

    /// What the changes of a page ask for, as seen from `drive`.
    pub open spec fn of(drive: Seq<char>, changes: Seq<ChangeView>) -> Plan
        decreases changes.len(),
    {
        if changes.len() == 0 {
            Plan::empty()
        } else {
            Plan::of(drive, changes.drop_last()).step(drive, changes.last())
        }
    }
}

/// The changelog rows of the folders of `drive`.
pub open spec fn of_folder(drive: Seq<char>) -> spec_fn(FolderChangelogView) -> bool {
    |r: FolderChangelogView| r.folder.drive_id == drive
}

/// The changelog rows of the folders of other drives.
pub open spec fn not_of_folder(drive: Seq<char>) -> spec_fn(FolderChangelogView) -> bool {
    |r: FolderChangelogView| r.folder.drive_id != drive
}

/// The changelog rows of the files of `drive`.
pub open spec fn of_file(drive: Seq<char>) -> spec_fn(FileChangelogView) -> bool {
    |r: FileChangelogView| r.file.drive_id == drive
}

/// The changelog rows of the files of other drives.
pub open spec fn not_of_file(drive: Seq<char>) -> spec_fn(FileChangelogView) -> bool {
    |r: FileChangelogView| r.file.drive_id != drive
}

/// The key of a row of the path changelog when only the latest row of each
/// path is kept: the path.
pub open spec fn path_key() -> spec_fn(PathChangelogView) -> Seq<char> {
    |r: PathChangelogView| r.path
}

/// Of the rows that have the same path, only the latest; the rows that stay
/// in the order in which they came.
pub open spec fn latest_by_path(rows: Seq<PathChangelogView>) -> Seq<PathChangelogView>
    decreases rows.len(),
{
    if rows.len() == 0 {
        Seq::empty()
    } else {
        written(latest_by_path(rows.drop_last()), path_key(), rows.last())
    }
}

/// The key of a folder of a listing: the folder's id.
pub open spec fn folder_id_key() -> spec_fn(FolderView) -> Seq<char> {
    |f: FolderView| f.id
}

/// The folders of a listing, each id once: where the listing names an id
/// again, the later folder takes the seat of the earlier.
pub open spec fn listed_folders(items: Seq<ItemView>) -> Seq<FolderView>
    decreases items.len(),
{
    if items.len() == 0 {
        Seq::empty()
    } else {
        let rest = listed_folders(items.drop_last());
        match items.last() {
            ItemView::Folder(f) => put(rest, folder_id_key(), f),
            ItemView::File(_) => rest,
        }
    }
}

/// The files of a listing, in its order.
pub open spec fn listed_files(items: Seq<ItemView>) -> Seq<FileView>
    decreases items.len(),
{
    if items.len() == 0 {
        Seq::empty()
    } else {
        let rest = listed_files(items.drop_last());
        match items.last() {
            ItemView::Folder(_) => rest,
            ItemView::File(f) => rest.push(f),
        }
    }
}

/// The parent links of the folders of a listing. A folder lies in the top
/// folder of a drive where its parent is the id of the drive; a folder
/// without a parent lies in nothing.
pub open spec fn listing_links(folders: Seq<FolderView>) -> Map<Seq<char>, Seq<char>> {
    row_links(folders, None)
}

/// For each folder of a listing, whether it hangs from the top folder of
/// the drive. The others are orphans.
pub open spec fn reached(folders: Seq<FolderView>, drive: Seq<char>) -> Seq<bool> {
    Seq::new(
        folders.len(),
        |i: int| below(listing_links(folders), folders[i].id, drive),
    )
}

/// `x` is the top folder of the drive or a folder of the listing that hangs
/// from it.
pub open spec fn attached(folders: Seq<FolderView>, drive: Seq<char>, x: Seq<char>) -> bool {
    x == drive || placed_id(folders, reached(folders, drive), x)
}

/// `order` lists, each once and every parent before its children, the
/// folders of the listing that hang from the top folder of the drive.
pub open spec fn parents_first(
    folders: Seq<FolderView>,
    drive: Seq<char>,
    order: Seq<usize>,
) -> bool {
    listed(folders, drive, order, reached(folders, drive))
}

/// The folders that `order` lists.
pub open spec fn in_order(folders: Seq<FolderView>, order: Seq<usize>) -> Seq<FolderView> {
    order.map_values(|i: usize| folders[i as int])
}

/// The top folder of a drive: it has the drive's id and name and no parent.
pub open spec fn top_folder(drive: Seq<char>, name: Seq<char>) -> FolderView {
    FolderView { id: drive, drive_id: drive, name, trashed: false, parent: None }
}

/// The names joined by `/`.
pub open spec fn join(names: Seq<Seq<char>>) -> Seq<char>
    decreases names.len(),
{
    if names.len() == 0 {
        Seq::empty()
    } else if names.len() == 1 {
        names[0]
    } else {
        join(names.drop_last()) + seq!['/'] + names.last()
    }
}

/// The tables and changelogs of the mirror.
///
/// A folder or a file is keyed by its id and the id of its drive. A
/// changelog holds at most one row for each key, the rows in the order in
/// which they were last written.
#[verifier::ext_equal]
pub struct State {
    pub drives: Map<Seq<char>, DriveView>,
    pub folders: Map<(Seq<char>, Seq<char>), FolderView>,
    pub files: Map<(Seq<char>, Seq<char>), FileView>,
    pub folder_changelog: Seq<FolderChangelogView>,
    pub file_changelog: Seq<FileChangelogView>,
}

impl State {
    /// The mirror that follows no drive.
    pub open spec fn empty() -> State {
        State {
            drives: Map::empty(),
            folders: Map::empty(),
            files: Map::empty(),
            folder_changelog: Seq::empty(),
            file_changelog: Seq::empty(),
        }
    }

    /// Every row sits under its own key, and no changelog holds a key twice.
    pub open spec fn keyed(self) -> bool {
        &&& forall|d: Seq<char>| #[trigger] self.drives.contains_key(d) ==> self.drives[d].id == d
        &&& forall|k: (Seq<char>, Seq<char>)| #[trigger]
            self.folders.contains_key(k) ==> self.folders[k].key() == k
        &&& forall|k: (Seq<char>, Seq<char>)| #[trigger]
            self.files.contains_key(k) ==> self.files[k].key() == k
        &&& distinct(self.folder_changelog, folder_log_key())
        &&& distinct(self.file_changelog, file_log_key())
    }

    /// Referential integrity: the drive of every folder is there, the parent
    /// of every folder that has one is a folder of the same drive, and the
    /// parent of every file is a folder of the file's drive.
    pub open spec fn consistent(self) -> bool {
        &&& forall|k: (Seq<char>, Seq<char>)| #[trigger]
            self.folders.contains_key(k) ==> self.drives.contains_key(k.1)
        &&& forall|k: (Seq<char>, Seq<char>)| #[trigger]
            self.folders.contains_key(k) ==> (self.folders[k].parent matches Some(p)
                ==> self.folders.contains_key((p, k.1)))
        &&& forall|k: (Seq<char>, Seq<char>)| #[trigger]
            self.files.contains_key(k) ==> self.folders.contains_key((self.files[k].parent, k.1))
    }

    /// The parent links of the folders of `drive`.
    pub open spec fn links(self, drive: Seq<char>) -> Map<Seq<char>, Seq<char>> {
        Map::new(
            |x: Seq<char>|
                self.folders.contains_key((x, drive)) && self.folders[(x, drive)].parent is Some,
            |x: Seq<char>| self.folders[(x, drive)].parent->0,
        )
    }

    /// The folder changelog as a map from the folder's key to its row.
    pub open spec fn folder_changes(self) -> Map<(Seq<char>, Seq<char>), FolderChangelogView> {
        table(self.folder_changelog, folder_log_key())
    }

    /// The file changelog as a map from the file's key to its row.
    pub open spec fn file_changes(self) -> Map<(Seq<char>, Seq<char>), FileChangelogView> {
        table(self.file_changelog, file_log_key())
    }

    // ----- drives -----

    /// With a new drive and its cursor. A drive that is followed already
    /// cannot be created.
    pub open spec fn drive_create(self, id: Seq<char>, page_token: Seq<char>) -> Result<
        State,
        Error,
    > {
        if self.drives.contains_key(id) {
            Err(Error::Constraint)
        } else {
            Ok(State { drives: self.drives.insert(id, DriveView { id, page_token }), ..self })
        }
    }

    /// With the cursor of the drive moved. Where the drive is not followed,
    /// nothing changes.
    pub open spec fn drive_update_token(self, id: Seq<char>, page_token: Seq<char>) -> State {
        if self.drives.contains_key(id) {
            State { drives: self.drives.insert(id, DriveView { id, page_token }), ..self }
        } else {
            self
        }
    }

    /// Without the drive and without every row that belongs to it.
    pub open spec fn drive_remove(self, id: Seq<char>) -> State {
        State {
            drives: self.drives.remove(id),
            folders: self.folders.remove_keys(Set::new(|k: (Seq<char>, Seq<char>)| k.1 == id)),
            files: self.files.remove_keys(Set::new(|k: (Seq<char>, Seq<char>)| k.1 == id)),
            folder_changelog: self.folder_changelog.filter(not_of_folder(id)),
            file_changelog: self.file_changelog.filter(not_of_file(id)),
        }
    }

    // ----- folders -----

    /// With the folder as given, whether it was there or not, and the change
    /// written to the changelog.
    pub open spec fn folder_upsert(self, f: FolderView) -> State {
        State {
            folders: self.folders.insert(f.key(), f),
            folder_changelog: written(
                self.folder_changelog,
                folder_log_key(),
                FolderChangelogView { folder: f, deleted: false },
            ),
            ..self
        }
    }

    /// With a new folder, and the change written to the changelog. A folder
    /// that is there already cannot be created.
    pub open spec fn folder_create(self, f: FolderView) -> Result<State, Error> {
        if self.folders.contains_key(f.key()) {
            Err(Error::Constraint)
        } else {
            Ok(self.folder_upsert(f))
        }
    }

    /// With another name for the folder, and the change written to the
    /// changelog. Where the folder is not there, nothing changes.
    pub open spec fn folder_update_name(
        self,
        id: Seq<char>,
        drive: Seq<char>,
        name: Seq<char>,
    ) -> State {
        if self.folders.contains_key((id, drive)) {
            self.folder_upsert(FolderView { name, ..self.folders[(id, drive)] })
        } else {
            self
        }
    }

    /// The keys of the folders that leave with the folder `id` of `drive`:
    /// the folder itself and all that lies below it.
    pub open spec fn doomed(self, id: Seq<char>, drive: Seq<char>) -> Set<(Seq<char>, Seq<char>)> {
        Set::new(|k: (Seq<char>, Seq<char>)| k.1 == drive && within(self.links(drive), k.0, id))
    }

    /// Without the folder, without the folders below it and without the
    /// files in any of them. The changelog gets one row, for the folder
    /// itself. Where the folder is not there, nothing changes.
    pub open spec fn folder_delete(self, id: Seq<char>, drive: Seq<char>) -> State {
        if self.folders.contains_key((id, drive)) {
            let doomed = self.doomed(id, drive);
            State {
                folders: self.folders.remove_keys(doomed),
                files: self.files.remove_keys(
                    Set::new(
                        |k: (Seq<char>, Seq<char>)|
                            self.files.contains_key(k) && doomed.contains(
                                (self.files[k].parent, k.1),
                            ),
                    ),
                ),
                folder_changelog: written(
                    self.folder_changelog,
                    folder_log_key(),
                    FolderChangelogView { folder: self.folders[(id, drive)], deleted: true },
                ),
                ..self
            }
        } else {
            self
        }
    }

    // ----- files -----

    /// With the file as given, whether it was there or not, and the change
    /// written to the changelog.
    pub open spec fn file_upsert(self, f: FileView) -> State {
        State {
            files: self.files.insert(f.key(), f),
            file_changelog: written(
                self.file_changelog,
                file_log_key(),
                FileChangelogView { file: f, deleted: false },
            ),
            ..self
        }
    }

    /// With a new file, and the change written to the changelog. A file that
    /// is there already cannot be created.
    pub open spec fn file_create(self, f: FileView) -> Result<State, Error> {
        if self.files.contains_key(f.key()) {
            Err(Error::Constraint)
        } else {
            Ok(self.file_upsert(f))
        }
    }

    /// Without the file, and with its deletion written to the changelog.
    /// Where the file is not there, nothing changes.
    pub open spec fn file_delete(self, id: Seq<char>, drive: Seq<char>) -> State {
        if self.files.contains_key((id, drive)) {
            State {
                files: self.files.remove((id, drive)),
                file_changelog: written(
                    self.file_changelog,
                    file_log_key(),
                    FileChangelogView { file: self.files[(id, drive)], deleted: true },
                ),
                ..self
            }
        } else {
            self
        }
    }

    // ----- changelogs -----

    /// With no row of `drive` in the folder changelog.
    pub open spec fn folder_changelog_clear(self, drive: Seq<char>) -> State {
        State { folder_changelog: self.folder_changelog.filter(not_of_folder(drive)), ..self }
    }

    /// With no row of `drive` in the file changelog.
    pub open spec fn file_changelog_clear(self, drive: Seq<char>) -> State {
        State { file_changelog: self.file_changelog.filter(not_of_file(drive)), ..self }
    }

    /// With no changelog row of `drive`.
    pub open spec fn changelog_clear(self, drive: Seq<char>) -> State {
        self.folder_changelog_clear(drive).file_changelog_clear(drive)
    }

    /// What the changelog reports of the folders of `drive`, oldest first.
    pub open spec fn changed_folders(self, drive: Seq<char>) -> Seq<ChangedFolderView> {
        self.folder_changelog.filter(of_folder(drive)).map_values(
            |r: FolderChangelogView| r.changed(),
        )
    }

    /// What the changelog reports of the files of `drive`, oldest first.
    pub open spec fn changed_files(self, drive: Seq<char>) -> Seq<ChangedFileView> {
        self.file_changelog.filter(of_file(drive)).map_values(|r: FileChangelogView| r.changed())
    }

    // ----- a listing -----

    /// With the folders written as new rows, one after the other.
    pub open spec fn with_folders(self, folders: Seq<FolderView>) -> Result<State, Error>
        decreases folders.len(),
    {
        if folders.len() == 0 {
            Ok(self)
        } else {
            match self.with_folders(folders.drop_last()) {
                Ok(s) => s.folder_create(folders.last()),
                Err(e) => Err(e),
            }
        }
    }

    /// With the files written as new rows, one after the other; a file whose
    /// folder is not among `folders` as one that hangs from the top folder
    /// of `drive` is left out.
    pub open spec fn with_files(
        self,
        files: Seq<FileView>,
        folders: Seq<FolderView>,
        drive: Seq<char>,
    ) -> Result<State, Error>
        decreases files.len(),
    {
        if files.len() == 0 {
            Ok(self)
        } else {
            match self.with_files(files.drop_last(), folders, drive) {
                Ok(s) => if attached(folders, drive, files.last().parent) {
                    s.file_create(files.last())
                } else {
                    Ok(s)
                },
                Err(e) => Err(e),
            }
        }
    }

    /// The rows after a new drive has been filled from a listing, the
    /// folders written in the given order.
    pub open spec fn filled(
        self,
        drive: Seq<char>,
        name: Seq<char>,
        page_token: Seq<char>,
        items: Seq<ItemView>,
        order: Seq<usize>,
    ) -> Result<State, Error> {
        let folders = listed_folders(items);
        match self.drive_create(drive, page_token) {
            Ok(s) => match s.folder_create(top_folder(drive, name)) {
                Ok(s) => match s.with_folders(in_order(folders, order)) {
                    Ok(s) => s.with_files(listed_files(items), folders, drive),
                    Err(e) => Err(e),
                },
                Err(e) => Err(e),
            },
            Err(e) => Err(e),
        }
    }

    /// A new drive filled from a listing as one transaction: the drive, its
    /// top folder, the listed folders that hang from the top folder and the
    /// listed files that lie in one of these. The drive must not be followed
    /// yet and no row may be there already; afterwards the rows must be
    /// consistent. Otherwise nothing is kept.
    pub open spec fn bootstrap(
        self,
        drive: Seq<char>,
        name: Seq<char>,
        page_token: Seq<char>,
        items: Seq<ItemView>,
        order: Seq<usize>,
    ) -> Result<State, Error> {
        match self.filled(drive, name, page_token, items, order) {
            Ok(s) => if s.consistent() {
                Ok(s)
            } else {
                Err(Error::DataIntegrity)
            },
            Err(e) => Err(e),
        }
    }

    // ----- a page of changes -----

    /// With every new name that the changes give the drive: the top folder
    /// of the drive carries the drive's name.
    pub open spec fn renamed(self, drive: Seq<char>, changes: Seq<ChangeView>) -> State
        decreases changes.len(),
    {
        if changes.len() == 0 {
            self
        } else {
            let s = self.renamed(drive, changes.drop_last());
            match changes.last() {
                ChangeView::DriveChanged { name, .. } => s.folder_update_name(drive, drive, name),
                _ => s,
            }
        }
    }

    /// With the folder operations applied, one after the other.
    pub open spec fn with_folder_ops(
        self,
        drive: Seq<char>,
        ops: Seq<(Seq<char>, FolderChangeView)>,
    ) -> State
        decreases ops.len(),
    {
        if ops.len() == 0 {
            self
        } else {
            let s = self.with_folder_ops(drive, ops.drop_last());
            match ops.last().1 {
                FolderChangeView::Update(f) => s.folder_upsert(f),
                FolderChangeView::Remove => s.folder_delete(ops.last().0, drive),
            }
        }
    }

    /// With the file operations applied, one after the other.
    pub open spec fn with_file_ops(
        self,
        drive: Seq<char>,
        ops: Seq<(Seq<char>, FileChangeView)>,
    ) -> State
        decreases ops.len(),
    {
        if ops.len() == 0 {
            self
        } else {
            let s = self.with_file_ops(drive, ops.drop_last());
            match ops.last().1 {
                FileChangeView::Update(f) => s.file_upsert(f),
                FileChangeView::Remove => s.file_delete(ops.last().0, drive),
            }
        }
    }

    /// The rows after a page of changes of `drive`, before anything asks
    /// whether they are consistent: the cursor moved to `page_token`, the
    /// top folder renamed, then the folder operations of the page applied,
    /// then its file operations.
    pub open spec fn merged(
        self,
        drive: Seq<char>,
        changes: Seq<ChangeView>,
        page_token: Seq<char>,
    ) -> State {
        let plan = Plan::of(drive, changes);
        self.drive_update_token(drive, page_token).renamed(drive, changes).with_folder_ops(
            drive,
            plan.folders,
        ).with_file_ops(drive, plan.files)
    }

    /// A page of changes of `drive` applied as one transaction: all of it
    /// where the rows are consistent afterwards, nothing of it where they
    /// are not.
    pub open spec fn merge(
        self,
        drive: Seq<char>,
        changes: Seq<ChangeView>,
        page_token: Seq<char>,
    ) -> Result<State, Error> {
        let merged = self.merged(drive, changes, page_token);
        if merged.consistent() {
            Ok(merged)
        } else {
            Err(Error::DataIntegrity)
        }
    }

    // ----- a whole sync -----

    /// A drive added: filled from a listing, and its changelog emptied, for
    /// the first filling is no change to report.
    pub open spec fn added(
        self,
        drive: Seq<char>,
        name: Seq<char>,
        page_token: Seq<char>,
        items: Seq<ItemView>,
        order: Seq<usize>,
    ) -> Result<State, Error> {
        match self.bootstrap(drive, name, page_token, items, order) {
            Ok(s) => Ok(s.changelog_clear(drive)),
            Err(e) => Err(e),
        }
    }

    /// A drive brought up to date with what the remote service told.
    ///
    /// The changelog of the drive is emptied first. A listing fills the
    /// drive as a new one. The changes of a page whose cursor is the one the
    /// drive has already change nothing; those of another page are merged.
    /// Where the result is an error, only the changelog has been emptied.
    pub open spec fn synced(
        self,
        drive: Seq<char>,
        fetched: FetchedView,
        order: Seq<usize>,
    ) -> Result<State, Error> {
        let s = self.changelog_clear(drive);
        match fetched {
            FetchedView::Listing { name, page_token, items } => s.added(
                drive,
                name,
                page_token,
                items,
                order,
            ),
            FetchedView::Changes { changes, page_token } => if s.drives.contains_key(drive)
                && s.drives[drive].page_token == page_token {
                Ok(s)
            } else {
                s.merge(drive, changes, page_token)
            },
        }
    }

    // ----- paths -----

    /// Following `k` links from the folder `x` of `drive` ends at the top
    /// folder of the drive: the folder that has the id of the drive, where
    /// it is there and has no parent.
    pub open spec fn rooted_at(self, drive: Seq<char>, x: Seq<char>, k: nat) -> bool {
        climb(self.links(drive), x, k) == Some(drive) && self.folders.contains_key((drive, drive))
            && self.folders[(drive, drive)].parent is None
    }

    /// The folder `x` of `drive` is the top folder of the drive or hangs from
    /// it.
    pub open spec fn rooted(self, drive: Seq<char>, x: Seq<char>) -> bool {
        exists|k: nat| #[trigger] self.rooted_at(drive, x, k)
    }

    /// The number of links from `x` up to the top folder of the drive.
    pub open spec fn depth(self, drive: Seq<char>, x: Seq<char>) -> nat {
        choose|k: nat| #[trigger] self.rooted_at(drive, x, k)
    }

    /// The names of the folders from the top folder of the drive down to `x`.
    pub open spec fn trail(self, drive: Seq<char>, x: Seq<char>) -> Seq<Seq<char>> {
        let d = self.depth(drive, x);
        Seq::new(
            d + 1,
            |i: int| self.folders[(climb(self.links(drive), x, (d - i) as nat)->0, drive)].name,
        )
    }

    /// The path of the item `id` of `drive` named `name` that lies in
    /// `parent`: the names from the top folder of the drive down to the
    /// item, joined by `/`. An item without a parent has a path only where
    /// its id is the drive's: then it is the top folder, and its path is its
    /// name. There is no path where the chain of parents does not lead to
    /// the top folder: where it breaks off, runs in a circle or ends at
    /// another folder without a parent.
    pub open spec fn path_of(
        self,
        drive: Seq<char>,
        id: Seq<char>,
        parent: Option<Seq<char>>,
        name: Seq<char>,
    ) -> Option<Seq<char>> {
        match parent {
            None => if id == drive {
                Some(name)
            } else {
                None
            },
            Some(p) => if self.rooted(drive, p) {
                Some(join(self.trail(drive, p).push(name)))
            } else {
                None
            },
        }
    }

    /// The row of the path changelog for a row of the folder changelog, if
    /// the folder has a path.
    pub open spec fn folder_path(self, r: FolderChangelogView) -> Option<PathChangelogView> {
        match self.path_of(r.folder.drive_id, r.folder.id, r.folder.parent, r.folder.name) {
            Some(path) => Some(
                PathChangelogView {
                    id: r.folder.id,
                    drive_id: r.folder.drive_id,
                    path,
                    folder: true,
                    deleted: r.deleted,
                    trashed: r.folder.trashed,
                },
            ),
            None => None,
        }
    }

    /// The row of the path changelog for a row of the file changelog, if
    /// the file has a path.
    pub open spec fn file_path(self, r: FileChangelogView) -> Option<PathChangelogView> {
        match self.path_of(r.file.drive_id, r.file.id, Some(r.file.parent), r.file.name) {
            Some(path) => Some(
                PathChangelogView {
                    id: r.file.id,
                    drive_id: r.file.drive_id,
                    path,
                    folder: false,
                    deleted: r.deleted,
                    trashed: r.file.trashed,
                },
            ),
            None => None,
        }
    }

    /// The rows of the path changelog for the folders of `drive` among
    /// `log`: one for each row that has a path.
    pub open spec fn folder_paths(self, log: Seq<FolderChangelogView>, drive: Seq<char>) -> Seq<
        PathChangelogView,
    >
        decreases log.len(),
    {
        if log.len() == 0 {
            Seq::empty()
        } else {
            let rest = self.folder_paths(log.drop_last(), drive);
            if log.last().folder.drive_id == drive {
                match self.folder_path(log.last()) {
                    Some(row) => rest.push(row),
                    None => rest,
                }
            } else {
                rest
            }
        }
    }

    /// The rows of the path changelog for the files of `drive` among `log`:
    /// one for each row that has a path.
    pub open spec fn file_paths(self, log: Seq<FileChangelogView>, drive: Seq<char>) -> Seq<
        PathChangelogView,
    >
        decreases log.len(),
    {
        if log.len() == 0 {
            Seq::empty()
        } else {
            let rest = self.file_paths(log.drop_last(), drive);
            if log.last().file.drive_id == drive {
                match self.file_path(log.last()) {
                    Some(row) => rest.push(row),
                    None => rest,
                }
            } else {
                rest
            }
        }
    }

    /// The path changelog of `drive`: the folder changelog and then the file
    /// changelog, each row with its path as the folders are now. A row whose
    /// chain of parents does not lead to the top folder of the drive has no
    /// path and is left out.
    pub open spec fn path_changelog(self, drive: Seq<char>) -> Seq<PathChangelogView> {
        self.folder_paths(self.folder_changelog, drive) + self.file_paths(
            self.file_changelog,
            drive,
        )
    }

    /// The changed folders of `drive` among `log` that have a path, each
    /// with its path.
    pub open spec fn folders_with_paths(
        self,
        log: Seq<FolderChangelogView>,
        drive: Seq<char>,
    ) -> Seq<(ChangedFolderView, Seq<char>)>
        decreases log.len(),
    {
        if log.len() == 0 {
            Seq::empty()
        } else {
            let rest = self.folders_with_paths(log.drop_last(), drive);
            if log.last().folder.drive_id == drive {
                match self.folder_path(log.last()) {
                    Some(row) => rest.push((log.last().changed(), row.path)),
                    None => rest,
                }
            } else {
                rest
            }
        }
    }

    /// The changed files of `drive` among `log` that have a path, each with
    /// its path.
    pub open spec fn files_with_paths(self, log: Seq<FileChangelogView>, drive: Seq<char>) -> Seq<
        (ChangedFileView, Seq<char>),
    >
        decreases log.len(),
    {
        if log.len() == 0 {
            Seq::empty()
        } else {
            let rest = self.files_with_paths(log.drop_last(), drive);
            if log.last().file.drive_id == drive {
                match self.file_path(log.last()) {
                    Some(row) => rest.push((log.last().changed(), row.path)),
                    None => rest,
                }
            } else {
                rest
            }
        }
    }

    /// What the changelog reports of the paths of `drive`: for each path the
    /// latest row of the path changelog.
    pub open spec fn changed_paths(self, drive: Seq<char>) -> Seq<ChangedPathView> {
        latest_by_path(self.path_changelog(drive)).map_values(|r: PathChangelogView| r.changed())
    }
}

} // verus!
