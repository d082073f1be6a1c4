use crate::database::{file_log_views, file_views, Error, Store, Transaction};
use crate::rows::{lemma_filter, lemma_position, lemma_push, lemma_remove, lemma_update};
use crate::state::{file_key, file_log_key, not_of_file, of_file};
use vstd::prelude::*;

verus! {

/// A file of a drive. It lies in the folder `parent` of the same drive.
#[derive(Debug)]
pub struct File {
    pub id: String,
    pub drive_id: String,
    pub name: String,
    pub trashed: bool,
    pub parent: String,
    pub md5: String,
    pub size: u64,
    pub mime_type: String,
}

/// A file row as plain text.
pub struct FileView {
    pub id: Seq<char>,
    pub drive_id: Seq<char>,
    pub name: Seq<char>,
    pub trashed: bool,
    pub parent: Seq<char>,
    pub md5: Seq<char>,
    pub size: u64,
    pub mime_type: Seq<char>,
}

impl FileView {
    /// The key of the row: the file's id within its drive.
    pub open spec fn key(self) -> (Seq<char>, Seq<char>) {
        (self.id, self.drive_id)
    }
}

impl View for File {
    type V = FileView;

    open spec fn view(&self) -> FileView {
        FileView {
            id: self.id@,
            drive_id: self.drive_id@,
            name: self.name@,
            trashed: self.trashed,
            parent: self.parent@,
            md5: self.md5@,
            size: self.size,
            mime_type: self.mime_type@,
        }
    }
}

impl Clone for File {
    fn clone(&self) -> (r: Self)
        ensures
            r == *self,
    {
        File {
            id: self.id.clone(),
            drive_id: self.drive_id.clone(),
            name: self.name.clone(),
            trashed: self.trashed,
            parent: self.parent.clone(),
            md5: self.md5.clone(),
            size: self.size,
            mime_type: self.mime_type.clone(),
        }
    }
}

impl File {
    /// Writes the file as a new row. A file with the same id in the same
    /// drive must not be there yet.
    pub fn create(&self, tx: &mut Transaction) -> (r: Result<(), Error>)
        requires
            old(tx).wf(),
        ensures
            final(tx).wf(),
            old(tx)@.file_create(self@) == (match r {
                Ok(()) => Ok(final(tx)@),
                Err(e) => Err(e),
            }),
            r is Err ==> final(tx)@ == old(tx)@,
    {
        match tx.find_file(&self.id, &self.drive_id) {
            Some(_) => Err(Error::Constraint),
            None => self.upsert(tx),
        }
    }

    /// Writes the file, in place of the row with the same id in the same
    /// drive where there is one.
    pub fn upsert(&self, tx: &mut Transaction) -> (r: Result<(), Error>)
        requires
            old(tx).wf(),
        ensures
            final(tx).wf(),
            r is Ok,
            final(tx)@ == old(tx)@.file_upsert(self@),
    {
        let ghost rows = file_views(tx.files@);
        match tx.find_file(&self.id, &self.drive_id) {
            Some(i) => {
                tx.files.set(i, self.clone());
                proof {
                    lemma_update(rows, file_key(), i as int, self@);
                    assert(file_views(tx.files@) =~= rows.update(i as int, self@));
                }
            },
            None => {
                tx.files.push(self.clone());
                proof {
                    lemma_push(rows, file_key(), self@);
                    assert(file_views(tx.files@) =~= rows.push(self@));
                }
            },
        }
        tx.log_file(FileChangelog::record(self, false));
        Ok(())
    }

    /// Deletes the file and writes the deletion to the changelog. Where the
    /// file is not there, nothing happens.
    pub fn delete(id: &str, drive_id: &str, tx: &mut Transaction) -> (r: Result<(), Error>)
        requires
            old(tx).wf(),
        ensures
            final(tx).wf(),
            r is Ok,
            final(tx)@ == old(tx)@.file_delete(id@, drive_id@),
    {
        let id = id.to_owned();
        let drive = drive_id.to_owned();
        let ghost rows = file_views(tx.files@);
        match tx.find_file(&id, &drive) {
            Some(i) => {
                let row = FileChangelog::record(&tx.files[i], true);
                tx.files.remove(i);
                proof {
                    lemma_position(rows, file_key(), i as int);
                    lemma_remove(rows, file_key(), i as int);
                    assert(file_views(tx.files@) =~= rows.remove(i as int));
                }
                tx.log_file(row);
            },
            None => {},
        }
        Ok(())
    }
}

/// A file as the changelog reports it: as it is now, or as it was when it
/// was deleted.
#[derive(Debug)]
pub enum ChangedFile {
    Created(File),
    Deleted(File),
}

/// A reported file as plain text.
pub enum ChangedFileView {
    Created(FileView),
    Deleted(FileView),
}

impl ChangedFileView {
    /// The file that the report is about.
    pub open spec fn file(self) -> FileView {
        match self {
            ChangedFileView::Created(f) => f,
            ChangedFileView::Deleted(f) => f,
        }
    }

    /// The report tells of a deletion.
    pub open spec fn deleted(self) -> bool {
        self is Deleted
    }
}

impl View for ChangedFile {
    type V = ChangedFileView;

    open spec fn view(&self) -> ChangedFileView {
        match *self {
            ChangedFile::Created(f) => ChangedFileView::Created(f@),
            ChangedFile::Deleted(f) => ChangedFileView::Deleted(f@),
        }
    }
}

/// A row of the file changelog: the file at the moment of the change, and
/// whether the change was its deletion.
#[derive(Debug)]
pub struct FileChangelog {
    pub id: String,
    pub drive_id: String,
    pub name: String,
    pub trashed: bool,
    pub parent: String,
    pub md5: String,
    pub size: u64,
    pub mime_type: String,
    pub deleted: bool,
}

/// A row of the file changelog as plain text.
pub struct FileChangelogView {
    pub file: FileView,
    pub deleted: bool,
}

impl FileChangelogView {
    /// The key of the row: that of the file it tells of.
    pub open spec fn key(self) -> (Seq<char>, Seq<char>) {
        self.file.key()
    }

    /// The row as the changelog reports it.
    pub open spec fn changed(self) -> ChangedFileView {
        if self.deleted {
            ChangedFileView::Deleted(self.file)
        } else {
            ChangedFileView::Created(self.file)
        }
    }
}

impl View for FileChangelog {
    type V = FileChangelogView;

    open spec fn view(&self) -> FileChangelogView {
        FileChangelogView {
            file: FileView {
                id: self.id@,
                drive_id: self.drive_id@,
                name: self.name@,
                trashed: self.trashed,
                parent: self.parent@,
                md5: self.md5@,
                size: self.size,
                mime_type: self.mime_type@,
            },
            deleted: self.deleted,
        }
    }
}

impl Clone for FileChangelog {
    fn clone(&self) -> (r: Self)
        ensures
            r == *self,
    {
        FileChangelog {
            id: self.id.clone(),
            drive_id: self.drive_id.clone(),
            name: self.name.clone(),
            trashed: self.trashed,
            parent: self.parent.clone(),
            md5: self.md5.clone(),
            size: self.size,
            mime_type: self.mime_type.clone(),
            deleted: self.deleted,
        }
    }
}

impl FileChangelog {
    /// The changelog row that records `file` as changed or as deleted.
    pub fn record(file: &File, deleted: bool) -> (r: Self)
        ensures
            r@ == (FileChangelogView { file: file@, deleted }),
    {
        let c = file.clone();
        FileChangelog {
            id: c.id,
            drive_id: c.drive_id,
            name: c.name,
            trashed: c.trashed,
            parent: c.parent,
            md5: c.md5,
            size: c.size,
            mime_type: c.mime_type,
            deleted,
        }
    }
}

impl From<ChangedFile> for File {
    fn from(file: ChangedFile) -> (r: Self)
        ensures
            r@ == file@.file(),
    {
        match file {
            ChangedFile::Created(file) => file,
            ChangedFile::Deleted(file) => file,
        }
    }
}

impl vstd::std_specs::convert::FromSpecImpl<ChangedFile> for File {
    open spec fn obeys_from_spec() -> bool {
        true
    }

    open spec fn from_spec(file: ChangedFile) -> Self {
        match file {
            ChangedFile::Created(file) => file,
            ChangedFile::Deleted(file) => file,
        }
    }
}

impl From<FileChangelog> for ChangedFile {
    fn from(f: FileChangelog) -> (r: Self)
        ensures
            r@ == f@.changed(),
    {
        let file = File {
            id: f.id,
            drive_id: f.drive_id,
            name: f.name,
            trashed: f.trashed,
            parent: f.parent,
            md5: f.md5,
            size: f.size,
            mime_type: f.mime_type,
        };

        match f.deleted {
            true => Self::Deleted(file),
            false => Self::Created(file),
        }
    }
}

impl vstd::std_specs::convert::FromSpecImpl<FileChangelog> for ChangedFile {
    open spec fn obeys_from_spec() -> bool {
        true
    }

    open spec fn from_spec(f: FileChangelog) -> Self {
        let file = File {
            id: f.id,
            drive_id: f.drive_id,
            name: f.name,
            trashed: f.trashed,
            parent: f.parent,
            md5: f.md5,
            size: f.size,
            mime_type: f.mime_type,
        };
        if f.deleted {
            ChangedFile::Deleted(file)
        } else {
            ChangedFile::Created(file)
        }
    }
}

/// The reports as plain text.
pub open spec fn changed_file_views(list: Seq<ChangedFile>) -> Seq<ChangedFileView> {
    list.map_values(|c: ChangedFile| c@)
}

impl ChangedFile {
    /// What the changelog reports of the files of a drive, oldest first.
    pub fn get_all(drive_id: &str, store: &Store) -> (r: Result<Vec<Self>, Error>)
        requires
            store.wf(),
        ensures
            r is Ok,
            changed_file_views(r->Ok_0@) == store@.changed_files(drive_id@),
    {
        let drive = drive_id.to_owned();
        let log = &store.tables.file_changelog;
        let ghost rows = file_log_views(log@);
        let ghost of = of_file(drive_id@);
        let ghost report = |r: FileChangelogView| r.changed();
        let mut out: Vec<ChangedFile> = Vec::new();
        assert(rows.take(0) =~= Seq::empty());
        assert(rows.take(0).filter(of) =~= Seq::empty()) by {
            reveal(Seq::filter);
        }
        assert(changed_file_views(out@) =~= rows.take(0).filter(of).map_values(report));
        let mut i: usize = 0;
        while i < log.len()
            invariant
                i <= log.len(),
                rows == file_log_views(log@),
                drive@ == drive_id@,
                of == of_file(drive_id@),
                report == |r: FileChangelogView| r.changed(),
                changed_file_views(out@) == rows.take(i as int).filter(of).map_values(report),
            decreases log.len() - i,
        {
            let row = &log[i];
            proof {
                assert(rows.take(i + 1) =~= rows.take(i as int).push(row@));
                rows.take(i as int).lemma_filter_push(row@, of);
            }
            if row.drive_id == drive {
                let ghost listed = changed_file_views(out@);
                let changed = ChangedFile::from(row.clone());
                out.push(changed);
                assert(changed_file_views(out@) =~= listed.push(changed@));
                assert(rows.take(i as int).filter(of).push(row@).map_values(report)
                    =~= rows.take(i as int).filter(of).map_values(report).push(row@.changed()));
            }
            i += 1;
        }
        assert(rows.take(rows.len() as int) =~= rows);
        Ok(out)
    }

    /// Empties the file changelog of a drive.
    pub fn clear(drive_id: &str, store: &mut Store) -> (r: Result<(), Error>)
        requires
            old(store).wf(),
        ensures
            final(store).wf(),
            r is Ok,
            final(store)@ == old(store)@.file_changelog_clear(drive_id@),
    {
        let drive = drive_id.to_owned();
        let ghost rows = file_log_views(store.tables.file_changelog@);
        let ghost keep = not_of_file(drive_id@);
        let mut log: Vec<FileChangelog> = Vec::new();
        core::mem::swap(&mut log, &mut store.tables.file_changelog);
        assert(rows.take(0) =~= Seq::empty());
        assert(rows.take(0).filter(keep) =~= Seq::empty()) by {
            reveal(Seq::filter);
        }
        assert(file_log_views(store.tables.file_changelog@) =~= Seq::empty());
        for row in it: log
            invariant
                file_log_views(it.seq()) == rows,
                drive@ == drive_id@,
                keep == not_of_file(drive_id@),
                file_log_views(store.tables.file_changelog@) == rows.take(it.index() as int).filter(
                    keep,
                ),
                store.tables.drives == old(store).tables.drives,
                store.tables.folders == old(store).tables.folders,
                store.tables.files == old(store).tables.files,
                store.tables.folder_changelog == old(store).tables.folder_changelog,
        {
            proof {
                let i = it.index() as int;
                assert(rows.take(i + 1) =~= rows.take(i).push(row@));
                rows.take(i).lemma_filter_push(row@, keep);
            }
            if row.drive_id != drive {
                let ghost kept = file_log_views(store.tables.file_changelog@);
                store.tables.file_changelog.push(row);
                assert(file_log_views(store.tables.file_changelog@) =~= kept.push(row@));
            }
        }
        proof {
            assert(rows.take(rows.len() as int) =~= rows);
            lemma_filter(rows, file_log_key(), keep);
            assert(store.tables.wf());
            assert(store.tables@.drives == old(store).tables@.drives);
            assert(store.tables@.folders == old(store).tables@.folders);
            assert(store.tables@.files == old(store).tables@.files);
        }
        Ok(())
    }
}

} // verus!
