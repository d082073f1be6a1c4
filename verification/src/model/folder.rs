use crate::database::{file_views, folder_log_views, folder_views, Error, Store, Transaction};
use crate::model::file::{File, FileView};
use crate::reach::descend;
use crate::rows::{lemma_filter, lemma_position, lemma_push, lemma_update, position};
use crate::state::{file_key, folder_key, folder_log_key, not_of_folder, of_folder, State};
use crate::tree::{lemma_below_parent, within};
use vstd::prelude::*;

verus! {

/// A folder of a drive. The root of a drive is the folder whose id is the
/// drive's id; it has no parent and carries the drive's name.
#[derive(Debug)]
pub struct Folder {
    pub id: String,
    pub drive_id: String,
    pub name: String,
    pub trashed: bool,
    pub parent: Option<String>,
}

/// A folder row as plain text.
pub struct FolderView {
    pub id: Seq<char>,
    pub drive_id: Seq<char>,
    pub name: Seq<char>,
    pub trashed: bool,
    pub parent: Option<Seq<char>>,
}

impl FolderView {
    /// The key of the row: the folder's id within its drive.
    pub open spec fn key(self) -> (Seq<char>, Seq<char>) {
        (self.id, self.drive_id)
    }
}

/// An optional text as plain text.
pub open spec fn text_of(t: Option<String>) -> Option<Seq<char>> {
    match t {
        Some(s) => Some(s@),
        None => None,
    }
}

impl View for Folder {
    type V = FolderView;

    open spec fn view(&self) -> FolderView {
        FolderView {
            id: self.id@,
            drive_id: self.drive_id@,
            name: self.name@,
            trashed: self.trashed,
            parent: text_of(self.parent),
        }
    }
}

impl Clone for Folder {
    fn clone(&self) -> (r: Self)
        ensures
            r == *self,
    {
        let parent = match &self.parent {
            Some(p) => Some(p.clone()),
            None => None,
        };
        Folder {
            id: self.id.clone(),
            drive_id: self.drive_id.clone(),
            name: self.name.clone(),
            trashed: self.trashed,
            parent,
        }
    }
}

impl Folder {
    /// Writes the folder as a new row. A folder with the same id in the same
    /// drive must not be there yet.
    pub fn create(&self, tx: &mut Transaction) -> (r: Result<(), Error>)
        requires
            old(tx).wf(),
        ensures
            final(tx).wf(),
            old(tx)@.folder_create(self@) == (match r {
                Ok(()) => Ok(final(tx)@),
                Err(e) => Err(e),
            }),
            r is Err ==> final(tx)@ == old(tx)@,
    {
        match tx.find_folder(&self.id, &self.drive_id) {
            Some(_) => Err(Error::Constraint),
            None => self.upsert(tx),
        }
    }

    /// Writes the folder, in place of the row with the same id in the same
    /// drive where there is one.
    pub fn upsert(&self, tx: &mut Transaction) -> (r: Result<(), Error>)
        requires
            old(tx).wf(),
        ensures
            final(tx).wf(),
            r is Ok,
            final(tx)@ == old(tx)@.folder_upsert(self@),
    {
        let ghost rows = folder_views(tx.folders@);
        match tx.find_folder(&self.id, &self.drive_id) {
            Some(i) => {
                tx.folders.set(i, self.clone());
                proof {
                    lemma_update(rows, folder_key(), i as int, self@);
                    assert(folder_views(tx.folders@) =~= rows.update(i as int, self@));
                }
            },
            None => {
                tx.folders.push(self.clone());
                proof {
                    lemma_push(rows, folder_key(), self@);
                    assert(folder_views(tx.folders@) =~= rows.push(self@));
                }
            },
        }
        tx.log_folder(FolderChangelog::record(self, false));
        Ok(())
    }

    /// Deletes the folder, the folders below it and the files in any of
    /// them. Only the folder itself is written to the changelog.
    pub fn delete(id: &str, drive_id: &str, tx: &mut Transaction) -> (r: Result<(), Error>)
        requires
            old(tx).wf(),
        ensures
            final(tx).wf(),
            r is Ok,
            final(tx)@ == old(tx)@.folder_delete(id@, drive_id@),
    {
        let id = id.to_owned();
        let drive = drive_id.to_owned();
        let at = match tx.find_folder(&id, &drive) {
            Some(i) => i,
            None => {
                return Ok(());
            },
        };
        let ghost before = tx@;
        let ghost rows = folder_views(tx.folders@);
        let ghost doomed = before.doomed(id@, drive@);
        let row = FolderChangelog::record(&tx.folders[at], true);
        assert(row@.folder == before.folders[(id@, drive@)]);
        let scope = Some(drive);
        let (_, found) = descend(&tx.folders, &id, &scope);
        let mut marks = found;
        marks.set(at, true);
        proof {
            tx.lemma_links(drive@);
            let links = before.links(drive@);
            assert forall|j: int| 0 <= j < rows.len() implies (#[trigger] marks@[j]
                <==> doomed.contains(rows[j].key())) by {
                lemma_position(rows, folder_key(), j);
                lemma_position(rows, folder_key(), at as int);
                if rows[j].drive_id == drive@ && rows[j].id == id@ {
                    assert(folder_key()(rows[j]) == folder_key()(rows[at as int]));
                }
            }
            assert forall|k: (Seq<char>, Seq<char>)| doomed.contains(k) implies
                #[trigger] before.folders.contains_key(k) by {
                if k.0 != id@ {
                    lemma_below_parent(links, k.0, id@);
                }
            }
        }
        // The files that stay: those whose folder stays.
        let ghost file_rows = file_views(tx.files@);
        let ghost keep_file = |f: FileView| !doomed.contains((f.parent, f.drive_id));
        let mut files: Vec<File> = Vec::new();
        let mut j: usize = 0;
        while j < tx.files.len()
            invariant
                tx.wf(),
                tx@ == before,
                rows == folder_views(tx.folders@),
                file_rows == file_views(tx.files@),
                j <= tx.files.len(),
                marks.len() == tx.folders.len(),
                forall|a: int|
                    0 <= a < rows.len() ==> (#[trigger] marks@[a] <==> doomed.contains(
                        rows[a].key(),
                    )),
                forall|k: (Seq<char>, Seq<char>)|
                    doomed.contains(k) ==> #[trigger] before.folders.contains_key(k),
                keep_file == |f: FileView| !doomed.contains((f.parent, f.drive_id)),
                file_views(files@) == file_rows.take(j as int).filter(keep_file),
            decreases tx.files.len() - j,
        {
            let file = &tx.files[j];
            let gone = match tx.find_folder(&file.parent, &file.drive_id) {
                Some(p) => marks[p],
                None => false,
            };
            assert(file_rows[j as int] == file@);
            assert(gone == !keep_file(file@));
            proof {
                assert(file_rows.take(j + 1) =~= file_rows.take(j as int).push(file@));
                file_rows.take(j as int).lemma_filter_push(file@, keep_file);
            }
            if !gone {
                let ghost old_files = files@;
                files.push(file.clone());
                assert(file_views(files@) =~= file_views(old_files).push(file@));
            }
            j += 1;
        }
        // The folders that stay.
        let ghost keep_folder = |f: FolderView| !doomed.contains(f.key());
        let mut folders: Vec<Folder> = Vec::new();
        let mut j: usize = 0;
        while j < tx.folders.len()
            invariant
                rows == folder_views(tx.folders@),
                j <= tx.folders.len(),
                marks.len() == tx.folders.len(),
                forall|a: int|
                    0 <= a < rows.len() ==> (#[trigger] marks@[a] <==> doomed.contains(
                        rows[a].key(),
                    )),
                keep_folder == |f: FolderView| !doomed.contains(f.key()),
                folder_views(folders@) == rows.take(j as int).filter(keep_folder),
            decreases tx.folders.len() - j,
        {
            let folder = &tx.folders[j];
            assert(rows[j as int] == folder@);
            proof {
                assert(rows.take(j + 1) =~= rows.take(j as int).push(folder@));
                rows.take(j as int).lemma_filter_push(folder@, keep_folder);
            }
            if !marks[j] {
                let ghost old_folders = folders@;
                folders.push(folder.clone());
                assert(folder_views(folders@) =~= folder_views(old_folders).push(folder@));
            }
            j += 1;
        }
        proof {
            assert(file_rows.take(file_rows.len() as int) =~= file_rows);
            assert(rows.take(rows.len() as int) =~= rows);
            lemma_filter(file_rows, file_key(), keep_file);
            lemma_filter(rows, folder_key(), keep_folder);
            tx.lemma_keyed();
        }
        tx.files = files;
        tx.folders = folders;
        proof {
            let gone_files = Set::new(
                |k: (Seq<char>, Seq<char>)|
                    before.files.contains_key(k) && doomed.contains((before.files[k].parent, k.1)),
            );
            assert(tx@.folders =~= before.folders.remove_keys(doomed));
            assert(tx@.files =~= before.files.remove_keys(gone_files));
        }
        tx.log_folder(row);
        Ok(())
    }

    /// Gives the folder another name and writes the change to the changelog.
    /// Where the folder is not there, nothing happens.
    pub fn update_name(id: &str, drive_id: &str, name: &str, tx: &mut Transaction) -> (r: Result<
        (),
        Error,
    >)
        requires
            old(tx).wf(),
        ensures
            final(tx).wf(),
            r is Ok,
            final(tx)@ == old(tx)@.folder_update_name(id@, drive_id@, name@),
    {
        let id = id.to_owned();
        let drive = drive_id.to_owned();
        match tx.find_folder(&id, &drive) {
            Some(i) => {
                let mut folder = tx.folders[i].clone();
                folder.name = name.to_owned();
                folder.upsert(tx)
            },
            None => Ok(()),
        }
    }

    /// The ids of the folders of the drive that lie directly in the folder
    /// `parent_id`, or nothing where there is no such folder.
    pub fn get_children(parent_id: &str, drive_id: &str, tx: &Transaction) -> (r: Result<
        Option<Vec<String>>,
        Error,
    >)
        requires
            tx.wf(),
        ensures
            r is Ok,
            match r->Ok_0 {
                Some(children) => children.len() > 0 && is_children(
                    tx@,
                    parent_id@,
                    drive_id@,
                    texts(children@),
                ),
                None => is_children(tx@, parent_id@, drive_id@, Seq::empty()),
            },
    {
        let parent = parent_id.to_owned();
        let drive = drive_id.to_owned();
        let ghost rows = folder_views(tx.folders@);
        let mut children: Vec<String> = Vec::new();
        let mut i: usize = 0;
        while i < tx.folders.len()
            invariant
                tx.wf(),
                rows == folder_views(tx.folders@),
                i <= tx.folders.len(),
                parent@ == parent_id@,
                drive@ == drive_id@,
                forall|a: int|
                    0 <= a < children.len() ==> child_before(
                        rows,
                        parent@,
                        drive@,
                        i as int,
                        #[trigger] texts(children@)[a],
                    ),
                forall|j: int|
                    0 <= j < i && child_at(rows, parent@, drive@, j, (#[trigger] rows[j]).id)
                        ==> texts(children@).contains(rows[j].id),
                texts(children@).no_duplicates(),
            decreases tx.folders.len() - i,
        {
            let folder = &tx.folders[i];
            assert(rows[i as int] == folder@);
            let inside = match &folder.parent {
                Some(p) => *p == parent && folder.drive_id == drive,
                None => false,
            };
            let ghost listed = texts(children@);
            if inside {
                proof {
                    assert forall|a: int| 0 <= a < listed.len() implies #[trigger] listed[a]
                        != folder.id@ by {
                        let j = choose|j: int|
                            0 <= j < i && child_at(rows, parent@, drive@, j, listed[a]);
                        assert(folder_key()(rows[j]) != folder_key()(rows[i as int]));
                    }
                }
                children.push(folder.id.clone());
                proof {
                    assert(texts(children@) =~= listed.push(folder.id@));
                    assert(child_at(rows, parent@, drive@, i as int, folder.id@));
                }
            }
            proof {
                let now = texts(children@);
                assert forall|a: int| 0 <= a < now.len() implies child_before(
                    rows,
                    parent@,
                    drive@,
                    i + 1,
                    #[trigger] now[a],
                ) by {
                    if a < listed.len() {
                        assert(now[a] == listed[a]);
                        let j = choose|j: int|
                            0 <= j < i && child_at(rows, parent@, drive@, j, listed[a]);
                        assert(child_at(rows, parent@, drive@, j, now[a]));
                    } else {
                        assert(child_at(rows, parent@, drive@, i as int, now[a]));
                    }
                }
                assert forall|j: int|
                    0 <= j < i + 1 && child_at(
                        rows,
                        parent@,
                        drive@,
                        j,
                        (#[trigger] rows[j]).id,
                    ) implies now.contains(rows[j].id) by {
                    if j < i {
                        assert(listed.contains(rows[j].id));
                        let a = choose|a: int| 0 <= a < listed.len() && listed[a] == rows[j].id;
                        assert(now[a] == rows[j].id);
                    } else {
                        assert(now[listed.len() as int] == rows[j].id);
                    }
                }
            }
            i += 1;
        }
        proof {
            let ids = texts(children@);
            assert forall|x: Seq<char>| ids.contains(x) <==> is_child(
                tx@,
                parent@,
                drive@,
                x,
            ) by {
                if ids.contains(x) {
                    let a = choose|a: int| 0 <= a < ids.len() && ids[a] == x;
                    assert(child_before(rows, parent@, drive@, rows.len() as int, ids[a]));
                    let j = choose|j: int|
                        0 <= j < rows.len() && child_at(rows, parent@, drive@, j, ids[a]);
                    lemma_position(rows, folder_key(), j);
                }
                if is_child(tx@, parent@, drive@, x) {
                    let j = position(rows, folder_key(), (x, drive@));
                    lemma_position(rows, folder_key(), j);
                    assert(child_at(rows, parent@, drive@, j, rows[j].id));
                }
            }
            if children.len() == 0 {
                assert(ids =~= Seq::empty());
            }
        }
        if children.len() == 0 {
            Ok(None)
        } else {
            Ok(Some(children))
        }
    }
}

/// The texts as plain text.
pub open spec fn texts(list: Seq<String>) -> Seq<Seq<char>> {
    list.map_values(|t: String| t@)
}

/// Some row before `upto` is the folder `x` of the drive and lies directly
/// in `parent`.
pub open spec fn child_before(
    rows: Seq<FolderView>,
    parent: Seq<char>,
    drive: Seq<char>,
    upto: int,
    x: Seq<char>,
) -> bool {
    exists|j: int| 0 <= j < upto && child_at(rows, parent, drive, j, x)
}

/// The row at `j` is the folder `x` of the drive and lies directly in `parent`.
pub open spec fn child_at(
    rows: Seq<FolderView>,
    parent: Seq<char>,
    drive: Seq<char>,
    j: int,
    x: Seq<char>,
) -> bool {
    0 <= j < rows.len() && rows[j].id == x && rows[j].drive_id == drive && rows[j].parent == Some(
        parent,
    )
}

/// The folder `x` of the drive lies directly in `parent`.
pub open spec fn is_child(s: State, parent: Seq<char>, drive: Seq<char>, x: Seq<char>) -> bool {
    s.folders.contains_key((x, drive)) && s.folders[(x, drive)].parent == Some(parent)
}

/// `ids` names, each once, the folders of the drive that lie directly in
/// `parent`.
pub open spec fn is_children(
    s: State,
    parent: Seq<char>,
    drive: Seq<char>,
    ids: Seq<Seq<char>>,
) -> bool {
    &&& ids.no_duplicates()
    &&& forall|x: Seq<char>| ids.contains(x) <==> is_child(s, parent, drive, x)
}

/// A folder as the changelog reports it: as it is now, or as it was when it
/// was deleted.
#[derive(Debug)]
pub enum ChangedFolder {
    Created(Folder),
    Deleted(Folder),
}

/// A reported folder as plain text.
pub enum ChangedFolderView {
    Created(FolderView),
    Deleted(FolderView),
}

impl ChangedFolderView {
    /// The folder that the report is about.
    pub open spec fn folder(self) -> FolderView {
        match self {
            ChangedFolderView::Created(f) => f,
            ChangedFolderView::Deleted(f) => f,
        }
    }

    /// The report tells of a deletion.
    pub open spec fn deleted(self) -> bool {
        self is Deleted
    }
}

impl View for ChangedFolder {
    type V = ChangedFolderView;

    open spec fn view(&self) -> ChangedFolderView {
        match *self {
            ChangedFolder::Created(f) => ChangedFolderView::Created(f@),
            ChangedFolder::Deleted(f) => ChangedFolderView::Deleted(f@),
        }
    }
}

/// A row of the folder changelog: the folder at the moment of the change,
/// and whether the change was its deletion.
#[derive(Debug)]
pub struct FolderChangelog {
    pub id: String,
    pub drive_id: String,
    pub name: String,
    pub trashed: bool,
    pub parent: Option<String>,
    pub deleted: bool,
}

/// A row of the folder changelog as plain text.
pub struct FolderChangelogView {
    pub folder: FolderView,
    pub deleted: bool,
}

impl FolderChangelogView {
    /// The key of the row: that of the folder it tells of.
    pub open spec fn key(self) -> (Seq<char>, Seq<char>) {
        self.folder.key()
    }

    /// The row as the changelog reports it.
    pub open spec fn changed(self) -> ChangedFolderView {
        if self.deleted {
            ChangedFolderView::Deleted(self.folder)
        } else {
            ChangedFolderView::Created(self.folder)
        }
    }
}

impl View for FolderChangelog {
    type V = FolderChangelogView;

    open spec fn view(&self) -> FolderChangelogView {
        FolderChangelogView {
            folder: FolderView {
                id: self.id@,
                drive_id: self.drive_id@,
                name: self.name@,
                trashed: self.trashed,
                parent: text_of(self.parent),
            },
            deleted: self.deleted,
        }
    }
}

impl Clone for FolderChangelog {
    fn clone(&self) -> (r: Self)
        ensures
            r == *self,
    {
        let parent = match &self.parent {
            Some(p) => Some(p.clone()),
            None => None,
        };
        FolderChangelog {
            id: self.id.clone(),
            drive_id: self.drive_id.clone(),
            name: self.name.clone(),
            trashed: self.trashed,
            parent,
            deleted: self.deleted,
        }
    }
}

impl FolderChangelog {
    /// The changelog row that records `folder` as changed or as deleted.
    pub fn record(folder: &Folder, deleted: bool) -> (r: Self)
        ensures
            r@ == (FolderChangelogView { folder: folder@, deleted }),
    {
        let c = folder.clone();
        FolderChangelog {
            id: c.id,
            drive_id: c.drive_id,
            name: c.name,
            trashed: c.trashed,
            parent: c.parent,
            deleted,
        }
    }
}

impl From<ChangedFolder> for Folder {
    fn from(folder: ChangedFolder) -> (r: Self)
        ensures
            r@ == folder@.folder(),
    {
        match folder {
            ChangedFolder::Created(folder) => folder,
            ChangedFolder::Deleted(folder) => folder,
        }
    }
}

impl vstd::std_specs::convert::FromSpecImpl<ChangedFolder> for Folder {
    open spec fn obeys_from_spec() -> bool {
        true
    }

    open spec fn from_spec(folder: ChangedFolder) -> Self {
        match folder {
            ChangedFolder::Created(folder) => folder,
            ChangedFolder::Deleted(folder) => folder,
        }
    }
}

impl From<FolderChangelog> for ChangedFolder {
    fn from(f: FolderChangelog) -> (r: Self)
        ensures
            r@ == f@.changed(),
    {
        let folder = Folder {
            id: f.id,
            drive_id: f.drive_id,
            name: f.name,
            parent: f.parent,
            trashed: f.trashed,
        };

        match f.deleted {
            true => Self::Deleted(folder),
            false => Self::Created(folder),
        }
    }
}

impl vstd::std_specs::convert::FromSpecImpl<FolderChangelog> for ChangedFolder {
    open spec fn obeys_from_spec() -> bool {
        true
    }

    open spec fn from_spec(f: FolderChangelog) -> Self {
        let folder = Folder {
            id: f.id,
            drive_id: f.drive_id,
            name: f.name,
            parent: f.parent,
            trashed: f.trashed,
        };
        if f.deleted {
            ChangedFolder::Deleted(folder)
        } else {
            ChangedFolder::Created(folder)
        }
    }
}

/// The reports as plain text.
pub open spec fn changed_folder_views(list: Seq<ChangedFolder>) -> Seq<ChangedFolderView> {
    list.map_values(|c: ChangedFolder| c@)
}

impl ChangedFolder {
    /// What the changelog reports of the folders of a drive, oldest first.
    pub fn get_all(drive_id: &str, store: &Store) -> (r: Result<Vec<Self>, Error>)
        requires
            store.wf(),
        ensures
            r is Ok,
            changed_folder_views(r->Ok_0@) == store@.changed_folders(drive_id@),
    {
        let drive = drive_id.to_owned();
        let log = &store.tables.folder_changelog;
        let ghost rows = folder_log_views(log@);
        let ghost of = of_folder(drive_id@);
        let ghost report = |r: FolderChangelogView| r.changed();
        let mut out: Vec<ChangedFolder> = Vec::new();
        assert(rows.take(0) =~= Seq::empty());
        assert(rows.take(0).filter(of) =~= Seq::empty()) by {
            reveal(Seq::filter);
        }
        assert(changed_folder_views(out@) =~= rows.take(0).filter(of).map_values(report));
        let mut i: usize = 0;
        while i < log.len()
            invariant
                i <= log.len(),
                rows == folder_log_views(log@),
                drive@ == drive_id@,
                of == of_folder(drive_id@),
                report == |r: FolderChangelogView| r.changed(),
                changed_folder_views(out@) == rows.take(i as int).filter(of).map_values(report),
            decreases log.len() - i,
        {
            let row = &log[i];
            proof {
                assert(rows.take(i + 1) =~= rows.take(i as int).push(row@));
                rows.take(i as int).lemma_filter_push(row@, of);
            }
            if row.drive_id == drive {
                let ghost listed = changed_folder_views(out@);
                let changed = ChangedFolder::from(row.clone());
                out.push(changed);
                assert(changed_folder_views(out@) =~= listed.push(changed@));
                assert(rows.take(i as int).filter(of).push(row@).map_values(report)
                    =~= rows.take(i as int).filter(of).map_values(report).push(row@.changed()));
            }
            i += 1;
        }
        assert(rows.take(rows.len() as int) =~= rows);
        Ok(out)
    }

    /// Empties the folder changelog of a drive.
    pub fn clear(drive_id: &str, store: &mut Store) -> (r: Result<(), Error>)
        requires
            old(store).wf(),
        ensures
            final(store).wf(),
            r is Ok,
            final(store)@ == old(store)@.folder_changelog_clear(drive_id@),
    {
        let drive = drive_id.to_owned();
        let ghost rows = folder_log_views(store.tables.folder_changelog@);
        let ghost keep = not_of_folder(drive_id@);
        let ghost before = store@;
        let mut log: Vec<FolderChangelog> = Vec::new();
        core::mem::swap(&mut log, &mut store.tables.folder_changelog);
        assert(rows.take(0) =~= Seq::empty());
        assert(rows.take(0).filter(keep) =~= Seq::empty()) by {
            reveal(Seq::filter);
        }
        assert(folder_log_views(store.tables.folder_changelog@) =~= Seq::empty());
        for row in it: log
            invariant
                folder_log_views(it.seq()) == rows,
                drive@ == drive_id@,
                keep == not_of_folder(drive_id@),
                folder_log_views(store.tables.folder_changelog@) == rows.take(
                    it.index() as int,
                ).filter(keep),
                store.tables.drives == old(store).tables.drives,
                store.tables.folders == old(store).tables.folders,
                store.tables.files == old(store).tables.files,
                store.tables.file_changelog == old(store).tables.file_changelog,
        {
            proof {
                let i = it.index() as int;
                assert(rows.take(i + 1) =~= rows.take(i).push(row@));
                rows.take(i).lemma_filter_push(row@, keep);
            }
            if row.drive_id != drive {
                let ghost kept = folder_log_views(store.tables.folder_changelog@);
                store.tables.folder_changelog.push(row);
                assert(folder_log_views(store.tables.folder_changelog@) =~= kept.push(row@));
            }
        }
        proof {
            assert(rows.take(rows.len() as int) =~= rows);
            lemma_filter(rows, folder_log_key(), keep);
            assert(store.tables.wf());
            assert(store.tables@.drives == old(store).tables@.drives);
            assert(store.tables@.folders == old(store).tables@.folders);
            assert(store.tables@.files == old(store).tables@.files);
        }
        Ok(())
    }
}

} // verus!
