//! The store of the mirror: its tables held in memory, and transactions on
//! them.

use crate::fetch::{change_views, item_views, Change, Item};
use crate::model::drive::{Drive, DriveView};
use crate::model::file::{
    changed_file_views, ChangedFile, File, FileChangelog, FileChangelogView, FileView,
};
use crate::model::folder::{
    changed_folder_views, ChangedFolder, Folder, FolderChangelog, FolderChangelogView, FolderView,
};
use crate::model::path::{changed_path_views, ChangedPath};
use crate::reach::{descend, in_scope, is_placed, lemma_row_link, linked, one_each, row_links};
use crate::rows::{
    distinct, holds, lemma_absent, lemma_filter, lemma_position, lemma_push, lemma_remove,
    lemma_update, position, put, table, written,
};
use crate::state::{
    drive_key, file_key, file_log_key, file_op_key, folder_id_key, folder_key, folder_log_key,
    folder_op_key, in_order, listed_files, listed_folders, not_of_file, not_of_folder,
    parents_first, reached, top_folder, FileChangeView, FolderChangeView, Plan, State,
};
use vstd::prelude::*;

verus! {

/// Why the store refused an operation.
#[derive(Debug, PartialEq, Eq, Structural, Clone, Copy)]
pub enum Error {
    /// The store could not be opened, read or written.
    Unavailable,
    /// A row with the same key is there already.
    Constraint,
    /// A row refers to a drive or to a parent folder that is not there.
    DataIntegrity,
}

/// The drive rows as plain text.
pub open spec fn drive_views(rows: Seq<Drive>) -> Seq<DriveView> {
    rows.map_values(|d: Drive| d@)
}

/// The folder rows as plain text.
pub open spec fn folder_views(rows: Seq<Folder>) -> Seq<FolderView> {
    rows.map_values(|f: Folder| f@)
}

/// The file rows as plain text.
pub open spec fn file_views(rows: Seq<File>) -> Seq<FileView> {
    rows.map_values(|f: File| f@)
}

/// The rows of the folder changelog as plain text.
pub open spec fn folder_log_views(rows: Seq<FolderChangelog>) -> Seq<FolderChangelogView> {
    rows.map_values(|r: FolderChangelog| r@)
}

/// The rows of the file changelog as plain text.
pub open spec fn file_log_views(rows: Seq<FileChangelog>) -> Seq<FileChangelogView> {
    rows.map_values(|r: FileChangelog| r@)
}

/// A working copy of the tables. Rows are written to it one by one; whether
/// every row refers to rows that are there is asked only when the
/// transaction is committed.
pub struct Transaction {
    pub(crate) drives: Vec<Drive>,
    pub(crate) folders: Vec<Folder>,
    pub(crate) files: Vec<File>,
    pub(crate) folder_changelog: Vec<FolderChangelog>,
    pub(crate) file_changelog: Vec<FileChangelog>,
}

impl View for Transaction {
    type V = State;

    open(crate) spec fn view(&self) -> State {
        State {
            drives: table(drive_views(self.drives@), drive_key()),
            folders: table(folder_views(self.folders@), folder_key()),
            files: table(file_views(self.files@), file_key()),
            folder_changelog: folder_log_views(self.folder_changelog@),
            file_changelog: file_log_views(self.file_changelog@),
        }
    }
}

impl Transaction {
    /// No table and no changelog holds a key twice.
    pub open(crate) spec fn wf(&self) -> bool {
        &&& distinct(drive_views(self.drives@), drive_key())
        &&& distinct(folder_views(self.folders@), folder_key())
        &&& distinct(file_views(self.files@), file_key())
        &&& distinct(folder_log_views(self.folder_changelog@), folder_log_key())
        &&& distinct(file_log_views(self.file_changelog@), file_log_key())
    }

    /// A well-formed working copy is keyed.
    pub proof fn lemma_keyed(&self)
        requires
            self.wf(),
        ensures
            self@.keyed(),
    {
        let s = self@;
        assert forall|d: Seq<char>| #[trigger] s.drives.contains_key(d) implies s.drives[d].id
            == d by {
            let rows = drive_views(self.drives@);
            let i = position(rows, drive_key(), d);
            assert(drive_key()(rows[i]) == d);
        }
        assert forall|k: (Seq<char>, Seq<char>)| #[trigger]
            s.folders.contains_key(k) implies s.folders[k].key() == k by {
            let rows = folder_views(self.folders@);
            let i = position(rows, folder_key(), k);
            assert(folder_key()(rows[i]) == k);
        }
        assert forall|k: (Seq<char>, Seq<char>)| #[trigger]
            s.files.contains_key(k) implies s.files[k].key() == k by {
            let rows = file_views(self.files@);
            let i = position(rows, file_key(), k);
            assert(file_key()(rows[i]) == k);
        }
    }

    /// The parent links of a drive's folders, read from the rows.
    pub(crate) proof fn lemma_links(&self, drive: Seq<char>)
        requires
            self.wf(),
        ensures
            one_each(folder_views(self.folders@), Some(drive)),
            self@.links(drive) == row_links(folder_views(self.folders@), Some(drive)),
    {
        let rows = folder_views(self.folders@);
        let scope = Some(drive);
        assert forall|i: int, j: int|
            0 <= i < j < rows.len() && in_scope(#[trigger] rows[i], scope) && in_scope(
                #[trigger] rows[j],
                scope,
            ) implies rows[i].id != rows[j].id by {
            assert(folder_key()(rows[i]) != folder_key()(rows[j]));
        }
        let links = self@.links(drive);
        let other = row_links(rows, scope);
        assert forall|x: Seq<char>| #[trigger]
            links.dom().contains(x) <==> other.dom().contains(x) by {
            if links.contains_key(x) {
                let i = position(rows, folder_key(), (x, drive));
                lemma_position(rows, folder_key(), i);
                assert(linked(rows, scope, x, i));
            }
            if other.contains_key(x) {
                let i = choose|i: int| linked(rows, scope, x, i);
                lemma_position(rows, folder_key(), i);
            }
        }
        assert forall|x: Seq<char>| #[trigger] links.dom().contains(x) implies links[x]
            == other[x] by {
            let i = position(rows, folder_key(), (x, drive));
            lemma_position(rows, folder_key(), i);
            assert(linked(rows, scope, x, i));
            lemma_row_link(rows, scope, i);
        }
        assert(links =~= other);
    }

    pub(crate) fn find_drive(&self, id: &String) -> (r: Option<usize>)
        requires
            self.wf(),
        ensures
            match r {
                Some(i) => i < self.drives.len() && self.drives[i as int].id@ == id@
                    && self@.drives.contains_key(id@) && self@.drives[id@]
                    == self.drives[i as int]@,
                None => !self@.drives.contains_key(id@),
            },
    {
        let mut i: usize = 0;
        while i < self.drives.len()
            invariant
                self.wf(),
                i <= self.drives.len(),
                forall|j: int| 0 <= j < i ==> self.drives[j].id@ != id@,
            decreases self.drives.len() - i,
        {
            if self.drives[i].id == *id {
                proof {
                    lemma_position(drive_views(self.drives@), drive_key(), i as int);
                }
                return Some(i);
            }
            i += 1;
        }
        proof {
            lemma_absent(drive_views(self.drives@), drive_key(), id@);
        }
        None
    }

    pub(crate) fn find_folder(&self, id: &String, drive_id: &String) -> (r: Option<usize>)
        requires
            self.wf(),
        ensures
            match r {
                Some(i) => i < self.folders.len() && self.folders[i as int]@.key() == (
                    id@,
                    drive_id@,
                ) && self@.folders.contains_key((id@, drive_id@)) && self@.folders[(
                    id@,
                    drive_id@,
                )] == self.folders[i as int]@,
                None => !self@.folders.contains_key((id@, drive_id@)),
            },
    {
        let mut i: usize = 0;
        while i < self.folders.len()
            invariant
                self.wf(),
                i <= self.folders.len(),
                forall|j: int| 0 <= j < i ==> self.folders[j]@.key() != (id@, drive_id@),
            decreases self.folders.len() - i,
        {
            if self.folders[i].id == *id && self.folders[i].drive_id == *drive_id {
                proof {
                    lemma_position(folder_views(self.folders@), folder_key(), i as int);
                }
                return Some(i);
            }
            i += 1;
        }
        proof {
            lemma_absent(folder_views(self.folders@), folder_key(), (id@, drive_id@));
        }
        None
    }

    pub(crate) fn find_file(&self, id: &String, drive_id: &String) -> (r: Option<usize>)
        requires
            self.wf(),
        ensures
            match r {
                Some(i) => i < self.files.len() && self.files[i as int]@.key() == (id@, drive_id@)
                    && self@.files.contains_key((id@, drive_id@)) && self@.files[(id@, drive_id@)]
                    == self.files[i as int]@,
                None => !self@.files.contains_key((id@, drive_id@)),
            },
    {
        let mut i: usize = 0;
        while i < self.files.len()
            invariant
                self.wf(),
                i <= self.files.len(),
                forall|j: int| 0 <= j < i ==> self.files[j]@.key() != (id@, drive_id@),
            decreases self.files.len() - i,
        {
            if self.files[i].id == *id && self.files[i].drive_id == *drive_id {
                proof {
                    lemma_position(file_views(self.files@), file_key(), i as int);
                }
                return Some(i);
            }
            i += 1;
        }
        proof {
            lemma_absent(file_views(self.files@), file_key(), (id@, drive_id@));
        }
        None
    }

    pub(crate) fn find_folder_log(&self, id: &String, drive_id: &String) -> (r: Option<usize>)
        requires
            self.wf(),
        ensures
            match r {
                Some(i) => i < self.folder_changelog.len() && self.folder_changelog[i as int]@.key()
                    == (id@, drive_id@),
                None => forall|j: int|
                    0 <= j < self.folder_changelog.len() ==> self.folder_changelog[j]@.key() != (
                        id@,
                        drive_id@,
                    ),
            },
    {
        let mut i: usize = 0;
        while i < self.folder_changelog.len()
            invariant
                i <= self.folder_changelog.len(),
                forall|j: int| 0 <= j < i ==> self.folder_changelog[j]@.key() != (id@, drive_id@),
            decreases self.folder_changelog.len() - i,
        {
            if self.folder_changelog[i].id == *id && self.folder_changelog[i].drive_id
                == *drive_id {
                return Some(i);
            }
            i += 1;
        }
        None
    }

    pub(crate) fn find_file_log(&self, id: &String, drive_id: &String) -> (r: Option<usize>)
        requires
            self.wf(),
        ensures
            match r {
                Some(i) => i < self.file_changelog.len() && self.file_changelog[i as int]@.key()
                    == (id@, drive_id@),
                None => forall|j: int|
                    0 <= j < self.file_changelog.len() ==> self.file_changelog[j]@.key() != (
                        id@,
                        drive_id@,
                    ),
            },
    {
        let mut i: usize = 0;
        while i < self.file_changelog.len()
            invariant
                i <= self.file_changelog.len(),
                forall|j: int| 0 <= j < i ==> self.file_changelog[j]@.key() != (id@, drive_id@),
            decreases self.file_changelog.len() - i,
        {
            if self.file_changelog[i].id == *id && self.file_changelog[i].drive_id
                == *drive_id {
                return Some(i);
            }
            i += 1;
        }
        None
    }

    /// Writes a row to the folder changelog, in place of the row that the
    /// changelog has for the same folder, if it has one.
    pub(crate) fn log_folder(&mut self, row: FolderChangelog)
        requires
            old(self).wf(),
        ensures
            final(self).wf(),
            final(self)@ == (State {
                folder_changelog: written(old(self)@.folder_changelog, folder_log_key(), row@),
                ..old(self)@
            }),
    {
        let ghost before = folder_log_views(self.folder_changelog@);
        match self.find_folder_log(&row.id, &row.drive_id) {
            Some(p) => {
                self.folder_changelog.remove(p);
                proof {
                    lemma_remove(before, folder_log_key(), p as int);
                    assert(folder_log_views(self.folder_changelog@) =~= before.remove(p as int));
                }
            },
            None => {
                proof {
                    lemma_absent(before, folder_log_key(), row@.key());
                }
            },
        }
        let ghost middle = folder_log_views(self.folder_changelog@);
        self.folder_changelog.push(row);
        proof {
            lemma_push(middle, folder_log_key(), row@);
            assert(folder_log_views(self.folder_changelog@) =~= middle.push(row@));
        }
    }

    /// Writes a row to the file changelog, in place of the row that the
    /// changelog has for the same file, if it has one.
    pub(crate) fn log_file(&mut self, row: FileChangelog)
        requires
            old(self).wf(),
        ensures
            final(self).wf(),
            final(self)@ == (State {
                file_changelog: written(old(self)@.file_changelog, file_log_key(), row@),
                ..old(self)@
            }),
    {
        let ghost before = file_log_views(self.file_changelog@);
        match self.find_file_log(&row.id, &row.drive_id) {
            Some(p) => {
                self.file_changelog.remove(p);
                proof {
                    lemma_remove(before, file_log_key(), p as int);
                    assert(file_log_views(self.file_changelog@) =~= before.remove(p as int));
                }
            },
            None => {
                proof {
                    lemma_absent(before, file_log_key(), row@.key());
                }
            },
        }
        let ghost middle = file_log_views(self.file_changelog@);
        self.file_changelog.push(row);
        proof {
            lemma_push(middle, file_log_key(), row@);
            assert(file_log_views(self.file_changelog@) =~= middle.push(row@));
        }
    }

    /// A working copy without any row.
    pub fn new() -> (r: Transaction)
        ensures
            r.wf(),
            r@ == State::empty(),
    {
        let r = Transaction {
            drives: Vec::new(),
            folders: Vec::new(),
            files: Vec::new(),
            folder_changelog: Vec::new(),
            file_changelog: Vec::new(),
        };
        proof {
            assert(r@.drives =~= Map::empty());
            assert(r@.folders =~= Map::empty());
            assert(r@.files =~= Map::empty());
            assert(r@.folder_changelog =~= Seq::empty());
            assert(r@.file_changelog =~= Seq::empty());
        }
        r
    }

    /// Another working copy with the same rows.
    pub fn copy(&self) -> (r: Transaction)
        ensures
            r@ == self@,
            r.wf() == self.wf(),
    {
        let r = Transaction {
            drives: self.drives.clone(),
            folders: self.folders.clone(),
            files: self.files.clone(),
            folder_changelog: self.folder_changelog.clone(),
            file_changelog: self.file_changelog.clone(),
        };
        proof {
            assert(r.drives@ =~= self.drives@);
            assert(r.folders@ =~= self.folders@);
            assert(r.files@ =~= self.files@);
            assert(r.folder_changelog@ =~= self.folder_changelog@);
            assert(r.file_changelog@ =~= self.file_changelog@);
        }
        r
    }

    /// Whether every row refers to rows that are there.
    pub fn check(&self) -> (r: bool)
        requires
            self.wf(),
        ensures
            r == self@.consistent(),
    {
        let ghost rows = folder_views(self.folders@);
        let mut i: usize = 0;
        while i < self.folders.len()
            invariant
                self.wf(),
                rows == folder_views(self.folders@),
                i <= self.folders.len(),
                forall|j: int|
                    0 <= j < i ==> self@.drives.contains_key((#[trigger] rows[j]).drive_id) && (
                    rows[j].parent matches Some(p) ==> self@.folders.contains_key(
                        (p, rows[j].drive_id),
                    )),
            decreases self.folders.len() - i,
        {
            let folder = &self.folders[i];
            assert(rows[i as int] == folder@);
            let mut sound = self.find_drive(&folder.drive_id).is_some();
            if sound {
                sound = match &folder.parent {
                    Some(p) => self.find_folder(p, &folder.drive_id).is_some(),
                    None => true,
                };
            }
            if !sound {
                proof {
                    lemma_position(rows, folder_key(), i as int);
                }
                return false;
            }
            i += 1;
        }
        let ghost file_rows = file_views(self.files@);
        let mut i: usize = 0;
        while i < self.files.len()
            invariant
                self.wf(),
                file_rows == file_views(self.files@),
                i <= self.files.len(),
                forall|j: int|
                    0 <= j < i ==> self@.folders.contains_key(
                        ((#[trigger] file_rows[j]).parent, file_rows[j].drive_id),
                    ),
            decreases self.files.len() - i,
        {
            let file = &self.files[i];
            assert(file_rows[i as int] == file@);
            if self.find_folder(&file.parent, &file.drive_id).is_none() {
                proof {
                    lemma_position(file_rows, file_key(), i as int);
                    let k = (file@.id, file@.drive_id);
                    assert(file_key()(file_rows[i as int]) == k);
                    assert(self@.files.contains_key(k) && self@.files[k] == file@);
                    assert(!self@.folders.contains_key((self@.files[k].parent, k.1)));
                }
                return false;
            }
            i += 1;
        }
        proof {
            let s = self@;
            assert forall|k: (Seq<char>, Seq<char>)| #[trigger]
                s.folders.contains_key(k) implies s.drives.contains_key(k.1) && (
            s.folders[k].parent matches Some(p) ==> s.folders.contains_key((p, k.1))) by {
                let j = position(rows, folder_key(), k);
                lemma_position(rows, folder_key(), j);
            }
            assert forall|k: (Seq<char>, Seq<char>)| #[trigger]
                s.files.contains_key(k) implies s.folders.contains_key(
                (s.files[k].parent, k.1),
            ) by {
                let j = position(file_rows, file_key(), k);
                lemma_position(file_rows, file_key(), j);
            }
        }
        true
    }
}

/// All rows of the mirror, as they are written to a file and read from it.
#[derive(Debug)]
pub struct Rows {
    pub drives: Vec<Drive>,
    pub folders: Vec<Folder>,
    pub files: Vec<File>,
    pub folder_changelog: Vec<FolderChangelog>,
    pub file_changelog: Vec<FileChangelog>,
}

impl View for Rows {
    type V = State;

    open spec fn view(&self) -> State {
        State {
            drives: table(drive_views(self.drives@), drive_key()),
            folders: table(folder_views(self.folders@), folder_key()),
            files: table(file_views(self.files@), file_key()),
            folder_changelog: folder_log_views(self.folder_changelog@),
            file_changelog: file_log_views(self.file_changelog@),
        }
    }
}

impl Rows {
    /// No table and no changelog holds a key twice.
    pub open spec fn keyed(&self) -> bool {
        &&& distinct(drive_views(self.drives@), drive_key())
        &&& distinct(folder_views(self.folders@), folder_key())
        &&& distinct(file_views(self.files@), file_key())
        &&& distinct(folder_log_views(self.folder_changelog@), folder_log_key())
        &&& distinct(file_log_views(self.file_changelog@), file_log_key())
    }
}

/// Rows of which the first `n` hold no key twice and the row at `n` has the
/// key of one of them hold a key twice.
proof fn lemma_twice<V, K>(rows: Seq<V>, key: spec_fn(V) -> K, n: int)
    requires
        0 <= n < rows.len(),
        holds(rows.take(n), key, key(rows[n])),
    ensures
        !distinct(rows, key),
{
    let j = position(rows.take(n), key, key(rows[n]));
    assert(key(rows.take(n)[j]) == key(rows[n]));
    assert(rows.take(n)[j] == rows[j]);
    if distinct(rows, key) {
        assert(key(rows[j]) != key(rows[n]));
    }
}

impl Transaction {
    /// The rows of the working copy.
    pub fn into_rows(self) -> (r: Rows)
        requires
            self.wf(),
        ensures
            r.keyed(),
            r@ == self@,
    {
        Rows {
            drives: self.drives,
            folders: self.folders,
            files: self.files,
            folder_changelog: self.folder_changelog,
            file_changelog: self.file_changelog,
        }
    }

    /// A working copy that holds the rows given, unless they hold a key
    /// twice.
    pub fn from_rows(rows: Rows) -> (r: Result<Transaction, Error>)
        ensures
            match r {
                Ok(tx) => rows.keyed() && tx.wf() && tx@ == rows@,
                Err(e) => e == Error::Constraint && !rows.keyed(),
            },
    {
        let mut tx = Transaction {
            drives: Vec::new(),
            folders: Vec::new(),
            files: Vec::new(),
            folder_changelog: Vec::new(),
            file_changelog: Vec::new(),
        };
        let ghost drives = drive_views(rows.drives@);
        let ghost folders = folder_views(rows.folders@);
        let ghost files = file_views(rows.files@);
        let ghost folder_log = folder_log_views(rows.folder_changelog@);
        let ghost file_log = file_log_views(rows.file_changelog@);
        let Rows { drives: d, folders: fo, files: fi, folder_changelog: fol, file_changelog: fil } =
            rows;
        assert(drive_views(tx.drives@) =~= drives.take(0));
        assert(folder_views(tx.folders@) =~= folders.take(0));
        assert(file_views(tx.files@) =~= files.take(0));
        assert(folder_log_views(tx.folder_changelog@) =~= folder_log.take(0));
        assert(file_log_views(tx.file_changelog@) =~= file_log.take(0));
        for row in it: d
            invariant
                tx.wf(),
                drive_views(it.seq()) == drives,
                drive_views(tx.drives@) == drives.take(it.index() as int),
                folder_views(tx.folders@) == folders.take(0),
                file_views(tx.files@) == files.take(0),
                folder_log_views(tx.folder_changelog@) == folder_log.take(0),
                file_log_views(tx.file_changelog@) == file_log.take(0),
                drives == drive_views(rows.drives@),
        {
            let ghost i = it.index() as int;
            assert(drives[i] == row@);
            if tx.find_drive(&row.id).is_some() {
                proof {
                    assert(drive_key()(drives[i]) == row.id@);
                    lemma_twice(drives, drive_key(), i);
                }
                return Err(Error::Constraint);
            }
            proof {
                lemma_push(drives.take(i), drive_key(), row@);
                assert(drives.take(i + 1) =~= drives.take(i).push(row@));
            }
            let ghost before = drive_views(tx.drives@);
            tx.drives.push(row);
            assert(drive_views(tx.drives@) =~= before.push(row@));
        }
        assert(drives.take(drives.len() as int) =~= drives);
        for row in it: fo
            invariant
                tx.wf(),
                folder_views(it.seq()) == folders,
                drive_views(tx.drives@) == drives,
                folder_views(tx.folders@) == folders.take(it.index() as int),
                file_views(tx.files@) == files.take(0),
                folder_log_views(tx.folder_changelog@) == folder_log.take(0),
                file_log_views(tx.file_changelog@) == file_log.take(0),
                folders == folder_views(rows.folders@),
        {
            let ghost i = it.index() as int;
            assert(folders[i] == row@);
            if tx.find_folder(&row.id, &row.drive_id).is_some() {
                proof {
                    assert(folder_key()(folders[i]) == (row.id@, row.drive_id@));
                    lemma_twice(folders, folder_key(), i);
                }
                return Err(Error::Constraint);
            }
            proof {
                lemma_push(folders.take(i), folder_key(), row@);
                assert(folders.take(i + 1) =~= folders.take(i).push(row@));
            }
            let ghost before = folder_views(tx.folders@);
            tx.folders.push(row);
            assert(folder_views(tx.folders@) =~= before.push(row@));
        }
        assert(folders.take(folders.len() as int) =~= folders);
        for row in it: fi
            invariant
                tx.wf(),
                file_views(it.seq()) == files,
                drive_views(tx.drives@) == drives,
                folder_views(tx.folders@) == folders,
                file_views(tx.files@) == files.take(it.index() as int),
                folder_log_views(tx.folder_changelog@) == folder_log.take(0),
                file_log_views(tx.file_changelog@) == file_log.take(0),
                files == file_views(rows.files@),
        {
            let ghost i = it.index() as int;
            assert(files[i] == row@);
            if tx.find_file(&row.id, &row.drive_id).is_some() {
                proof {
                    assert(file_key()(files[i]) == (row.id@, row.drive_id@));
                    lemma_twice(files, file_key(), i);
                }
                return Err(Error::Constraint);
            }
            proof {
                lemma_push(files.take(i), file_key(), row@);
                assert(files.take(i + 1) =~= files.take(i).push(row@));
            }
            let ghost before = file_views(tx.files@);
            tx.files.push(row);
            assert(file_views(tx.files@) =~= before.push(row@));
        }
        assert(files.take(files.len() as int) =~= files);
        for row in it: fol
            invariant
                tx.wf(),
                folder_log_views(it.seq()) == folder_log,
                drive_views(tx.drives@) == drives,
                folder_views(tx.folders@) == folders,
                file_views(tx.files@) == files,
                folder_log_views(tx.folder_changelog@) == folder_log.take(it.index() as int),
                file_log_views(tx.file_changelog@) == file_log.take(0),
                folder_log == folder_log_views(rows.folder_changelog@),
        {
            let ghost i = it.index() as int;
            assert(folder_log[i] == row@);
            match tx.find_folder_log(&row.id, &row.drive_id) {
                Some(j) => {
                    proof {
                        assert(folder_log_key()(folder_log.take(i)[j as int]) == folder_log_key()(
                            folder_log[i],
                        ));
                        lemma_twice(folder_log, folder_log_key(), i);
                    }
                    return Err(Error::Constraint);
                },
                None => {},
            }
            proof {
                lemma_absent(folder_log.take(i), folder_log_key(), row@.key());
                lemma_push(folder_log.take(i), folder_log_key(), row@);
                assert(folder_log.take(i + 1) =~= folder_log.take(i).push(row@));
            }
            let ghost before = folder_log_views(tx.folder_changelog@);
            tx.folder_changelog.push(row);
            assert(folder_log_views(tx.folder_changelog@) =~= before.push(row@));
        }
        assert(folder_log.take(folder_log.len() as int) =~= folder_log);
        for row in it: fil
            invariant
                tx.wf(),
                file_log_views(it.seq()) == file_log,
                drive_views(tx.drives@) == drives,
                folder_views(tx.folders@) == folders,
                file_views(tx.files@) == files,
                folder_log_views(tx.folder_changelog@) == folder_log,
                file_log_views(tx.file_changelog@) == file_log.take(it.index() as int),
                file_log == file_log_views(rows.file_changelog@),
        {
            let ghost i = it.index() as int;
            assert(file_log[i] == row@);
            match tx.find_file_log(&row.id, &row.drive_id) {
                Some(j) => {
                    proof {
                        assert(file_log_key()(file_log.take(i)[j as int]) == file_log_key()(
                            file_log[i],
                        ));
                        lemma_twice(file_log, file_log_key(), i);
                    }
                    return Err(Error::Constraint);
                },
                None => {},
            }
            proof {
                lemma_absent(file_log.take(i), file_log_key(), row@.key());
                lemma_push(file_log.take(i), file_log_key(), row@);
                assert(file_log.take(i + 1) =~= file_log.take(i).push(row@));
            }
            let ghost before = file_log_views(tx.file_changelog@);
            tx.file_changelog.push(row);
            assert(file_log_views(tx.file_changelog@) =~= before.push(row@));
        }
        assert(file_log.take(file_log.len() as int) =~= file_log);
        Ok(tx)
    }
}

/// The tables of the mirror as they were last committed. Every row of it
/// refers to rows that are there.
pub struct Store {
    pub(crate) tables: Transaction,
}

impl View for Store {
    type V = State;

    open(crate) spec fn view(&self) -> State {
        self.tables@
    }
}

impl Store {
    /// No key occurs twice, and every row refers to rows that are there.
    pub open(crate) spec fn wf(&self) -> bool {
        self.tables.wf() && self.tables@.consistent()
    }

    /// A well-formed store is keyed and consistent.
    pub proof fn lemma_sound(&self)
        requires
            self.wf(),
        ensures
            self@.keyed(),
            self@.consistent(),
    {
        self.tables.lemma_keyed();
    }

    /// A store that follows no drive.
    pub fn new() -> (r: Store)
        ensures
            r.wf(),
            r@ == State::empty(),
    {
        Store { tables: Transaction::new() }
    }

    /// The committed rows, to read.
    pub fn tables(&self) -> (r: &Transaction)
        requires
            self.wf(),
        ensures
            r.wf(),
            r@ == self@,
    {
        &self.tables
    }

    /// All rows of the store.
    pub fn rows(&self) -> (r: Rows)
        requires
            self.wf(),
        ensures
            r.keyed(),
            r@ == self@,
    {
        self.tables.copy().into_rows()
    }

    /// A store that holds the rows given. The rows must hold no key twice,
    /// and every row must refer to rows that are there.
    pub fn restore(rows: Rows) -> (r: Result<Store, Error>)
        ensures
            match r {
                Ok(store) => rows.keyed() && rows@.consistent() && store.wf() && store@ == rows@,
                Err(Error::Constraint) => !rows.keyed(),
                Err(Error::DataIntegrity) => rows.keyed() && !rows@.consistent(),
                Err(Error::Unavailable) => false,
            },
    {
        let tx = match Transaction::from_rows(rows) {
            Ok(tx) => tx,
            Err(e) => {
                return Err(e);
            },
        };
        let mut store = Store::new();
        match store.commit(tx) {
            Ok(()) => Ok(store),
            Err(e) => Err(e),
        }
    }

    /// Starts a transaction: a working copy of the committed rows. The store
    /// has one writer at a time: a transaction that is committed takes the
    /// place of all that was committed since it started.
    pub fn begin(&self) -> (r: Transaction)
        requires
            self.wf(),
        ensures
            r.wf(),
            r@ == self@,
    {
        self.tables.copy()
    }

    /// Ends a transaction. Where every row of the working copy refers to
    /// rows that are there, the working copy becomes the store. Where one
    /// does not, the store stays as it was.
    pub fn commit(&mut self, tx: Transaction) -> (r: Result<(), Error>)
        requires
            old(self).wf(),
            tx.wf(),
        ensures
            final(self).wf(),
            match r {
                Ok(()) => tx@.consistent() && final(self)@ == tx@,
                Err(e) => e == Error::DataIntegrity && !tx@.consistent() && final(self)@ == old(
                    self,
                )@,
            },
    {
        if tx.check() {
            self.tables = tx;
            Ok(())
        } else {
            Err(Error::DataIntegrity)
        }
    }

    /// Ends a transaction without keeping anything of it.
    pub fn rollback(&self, tx: Transaction)
        requires
            self.wf(),
    {
    }
}

/// What a page of changes asks for a folder.
pub enum FolderChange {
    Update(Folder),
    Remove,
}

/// What a page of changes asks for a file.
pub enum FileChange {
    Update(File),
    Remove,
}

impl View for FolderChange {
    type V = FolderChangeView;

    open spec fn view(&self) -> FolderChangeView {
        match *self {
            FolderChange::Update(f) => FolderChangeView::Update(f@),
            FolderChange::Remove => FolderChangeView::Remove,
        }
    }
}

impl View for FileChange {
    type V = FileChangeView;

    open spec fn view(&self) -> FileChangeView {
        match *self {
            FileChange::Update(f) => FileChangeView::Update(f@),
            FileChange::Remove => FileChangeView::Remove,
        }
    }
}

/// The folder operations as plain text.
pub open spec fn folder_op_views(ops: Seq<(String, FolderChange)>) -> Seq<
    (Seq<char>, FolderChangeView),
> {
    ops.map_values(|e: (String, FolderChange)| (e.0@, e.1@))
}

/// The file operations as plain text.
pub open spec fn file_op_views(ops: Seq<(String, FileChange)>) -> Seq<(Seq<char>, FileChangeView)> {
    ops.map_values(|e: (String, FileChange)| (e.0@, e.1@))
}

fn find_folder_op(ops: &Vec<(String, FolderChange)>, id: &String) -> (r: Option<usize>)
    ensures
        match r {
            Some(i) => i < ops.len() && ops[i as int].0@ == id@ && holds(
                folder_op_views(ops@),
                folder_op_key(),
                id@,
            ),
            None => !holds(folder_op_views(ops@), folder_op_key(), id@),
        },
{
    let mut i: usize = 0;
    while i < ops.len()
        invariant
            i <= ops.len(),
            forall|j: int| 0 <= j < i ==> ops[j].0@ != id@,
        decreases ops.len() - i,
    {
        if ops[i].0 == *id {
            assert(folder_op_key()(folder_op_views(ops@)[i as int]) == id@);
            return Some(i);
        }
        i += 1;
    }
    proof {
        lemma_absent(folder_op_views(ops@), folder_op_key(), id@);
    }
    None
}

fn find_file_op(ops: &Vec<(String, FileChange)>, id: &String) -> (r: Option<usize>)
    ensures
        match r {
            Some(i) => i < ops.len() && ops[i as int].0@ == id@ && holds(
                file_op_views(ops@),
                file_op_key(),
                id@,
            ),
            None => !holds(file_op_views(ops@), file_op_key(), id@),
        },
{
    let mut i: usize = 0;
    while i < ops.len()
        invariant
            i <= ops.len(),
            forall|j: int| 0 <= j < i ==> ops[j].0@ != id@,
        decreases ops.len() - i,
    {
        if ops[i].0 == *id {
            assert(file_op_key()(file_op_views(ops@)[i as int]) == id@);
            return Some(i);
        }
        i += 1;
    }
    proof {
        lemma_absent(file_op_views(ops@), file_op_key(), id@);
    }
    None
}

/// Notes an operation for a folder, in place of the one noted for the same
/// id where there is one.
fn put_folder_op(ops: &mut Vec<(String, FolderChange)>, id: String, op: FolderChange)
    requires
        distinct(folder_op_views(old(ops)@), folder_op_key()),
    ensures
        distinct(folder_op_views(final(ops)@), folder_op_key()),
        folder_op_views(final(ops)@) == put(
            folder_op_views(old(ops)@),
            folder_op_key(),
            (id@, op@),
        ),
{
    let ghost before = folder_op_views(ops@);
    let ghost entry = (id@, op@);
    match find_folder_op(ops, &id) {
        Some(i) => {
            proof {
                lemma_position(before, folder_op_key(), i as int);
                lemma_update(before, folder_op_key(), i as int, entry);
            }
            ops.set(i, (id, op));
            assert(folder_op_views(ops@) =~= before.update(i as int, entry));
        },
        None => {
            proof {
                lemma_push(before, folder_op_key(), entry);
            }
            ops.push((id, op));
            assert(folder_op_views(ops@) =~= before.push(entry));
        },
    }
}

/// Notes an operation for a file, in place of the one noted for the same id
/// where there is one.
fn put_file_op(ops: &mut Vec<(String, FileChange)>, id: String, op: FileChange)
    requires
        distinct(file_op_views(old(ops)@), file_op_key()),
    ensures
        distinct(file_op_views(final(ops)@), file_op_key()),
        file_op_views(final(ops)@) == put(file_op_views(old(ops)@), file_op_key(), (id@, op@)),
{
    let ghost before = file_op_views(ops@);
    let ghost entry = (id@, op@);
    match find_file_op(ops, &id) {
        Some(i) => {
            proof {
                lemma_position(before, file_op_key(), i as int);
                lemma_update(before, file_op_key(), i as int, entry);
            }
            ops.set(i, (id, op));
            assert(file_op_views(ops@) =~= before.update(i as int, entry));
        },
        None => {
            proof {
                lemma_push(before, file_op_key(), entry);
            }
            ops.push((id, op));
            assert(file_op_views(ops@) =~= before.push(entry));
        },
    }
}

/// Notes the removal of an id of which the page does not tell the kind.
fn put_removal(
    folder_changes: &mut Vec<(String, FolderChange)>,
    file_changes: &mut Vec<(String, FileChange)>,
    id: String,
)
    requires
        distinct(folder_op_views(old(folder_changes)@), folder_op_key()),
        distinct(file_op_views(old(file_changes)@), file_op_key()),
    ensures
        distinct(folder_op_views(final(folder_changes)@), folder_op_key()),
        distinct(file_op_views(final(file_changes)@), file_op_key()),
        (Plan {
            folders: folder_op_views(final(folder_changes)@),
            files: file_op_views(final(file_changes)@),
        }) == (Plan {
            folders: folder_op_views(old(folder_changes)@),
            files: file_op_views(old(file_changes)@),
        }).remove(id@),
{
    if find_file_op(file_changes, &id).is_none() {
        put_folder_op(folder_changes, id, FolderChange::Remove);
    } else {
        put_file_op(file_changes, id, FileChange::Remove);
    }
}

/// Notes the removal of an item that has moved away to another drive.
fn put_moved_away(
    folder_changes: &mut Vec<(String, FolderChange)>,
    file_changes: &mut Vec<(String, FileChange)>,
    item: Item,
)
    requires
        distinct(folder_op_views(old(folder_changes)@), folder_op_key()),
        distinct(file_op_views(old(file_changes)@), file_op_key()),
    ensures
        distinct(folder_op_views(final(folder_changes)@), folder_op_key()),
        distinct(file_op_views(final(file_changes)@), file_op_key()),
        (Plan {
            folders: folder_op_views(final(folder_changes)@),
            files: file_op_views(final(file_changes)@),
        }) == (Plan {
            folders: folder_op_views(old(folder_changes)@),
            files: file_op_views(old(file_changes)@),
        }).moved_away(item@),
{
    let is_file = match &item {
        Item::File(_) => true,
        Item::Folder(_) => false,
    };
    let id = item.into_id();
    let as_file = find_file_op(file_changes, &id).is_some() || (is_file && find_folder_op(
        folder_changes,
        &id,
    ).is_none());
    if as_file {
        put_file_op(file_changes, id, FileChange::Remove);
    } else {
        put_folder_op(folder_changes, id, FolderChange::Remove);
    }
}

/// Applies a page of changes of a drive as one transaction.
///
/// The cursor of the drive moves to `page_token`, and a new name of the
/// drive goes to its top folder. Of each folder and each file the page's
/// last word counts: it is written as given, or deleted. An item that the
/// page shows in another drive has moved away and is deleted here. An id
/// that the page tells to be gone without telling its kind is looked for
/// among the files where the page has shown it as a file, and among the
/// folders otherwise. Folders
/// come first, in the order in which the page first named them, then the
/// files. Where afterwards a row refers to a folder or a drive that is not
/// there, the page was not whole: nothing of it is kept, the cursor stays,
/// and the error tells so.
pub fn merge_changes(
    drive_id: &str,
    changes: Vec<Change>,
    page_token: &str,
    store: &mut Store,
) -> (r: Result<(), Error>)
    requires
        old(store).wf(),
    ensures
        final(store).wf(),
        old(store)@.merge(drive_id@, change_views(changes@), page_token@) == (match r {
            Ok(()) => Ok(final(store)@),
            Err(e) => Err(e),
        }),
        r is Err ==> final(store)@ == old(store)@,
{
    let mut tx = store.begin();

    // Update the page token
    Drive::update_page_token(drive_id, page_token, &mut tx)?;

    // Collect all changes
    let mut folder_changes: Vec<(String, FolderChange)> = Vec::new();
    let mut file_changes: Vec<(String, FileChange)> = Vec::new();

    let drive = drive_id.to_owned();
    let ghost all = change_views(changes@);
    let ghost start = tx@;
    assert(folder_op_views(folder_changes@) =~= Seq::empty());
    assert(file_op_views(file_changes@) =~= Seq::empty());
    assert(all.take(0) =~= Seq::empty());

    for change in it: changes
        invariant
            tx.wf(),
            drive@ == drive_id@,
            change_views(it.seq()) == all,
            tx@ == start.renamed(drive_id@, all.take(it.index() as int)),
            distinct(folder_op_views(folder_changes@), folder_op_key()),
            distinct(file_op_views(file_changes@), file_op_key()),
            (Plan {
                folders: folder_op_views(folder_changes@),
                files: file_op_views(file_changes@),
            }) == Plan::of(drive_id@, all.take(it.index() as int)),
    {
        proof {
            let i = it.index() as int;
            assert(all.take(i + 1).drop_last() =~= all.take(i));
            assert(all.take(i + 1).last() == change@);
        }
        match change {
            Change::DriveChanged(changed) => {
                Folder::update_name(drive_id, drive_id, changed.name.as_str(), &mut tx)?;
            },
            Change::DriveRemoved(_) => (),  // Ignore, as we're processing this drive
            Change::ItemChanged(item) => {
                if *item.drive_id() == drive {
                    match item {
                        Item::Folder(folder) => {
                            put_folder_op(
                                &mut folder_changes,
                                folder.id.clone(),
                                FolderChange::Update(folder),
                            );
                        },
                        Item::File(file) => {
                            put_file_op(
                                &mut file_changes,
                                file.id.clone(),
                                FileChange::Update(file),
                            );
                        },
                    }
                } else {
                    // Moved to another shared drive: removed from this one.
                    put_moved_away(&mut folder_changes, &mut file_changes, item);
                }
            },
            Change::ItemRemoved(id) => {
                put_removal(&mut folder_changes, &mut file_changes, id);
            },
        }
    }
    assert(all.take(all.len() as int) =~= all);

    // Process folder changes
    let ghost renamed = tx@;
    let ghost folder_ops = folder_op_views(folder_changes@);
    assert(folder_ops.take(0) =~= Seq::empty());
    for entry in it: folder_changes
        invariant
            tx.wf(),
            folder_op_views(it.seq()) == folder_ops,
            tx@ == renamed.with_folder_ops(drive_id@, folder_ops.take(it.index() as int)),
    {
        proof {
            let i = it.index() as int;
            assert(folder_ops.take(i + 1).drop_last() =~= folder_ops.take(i));
            assert(folder_ops.take(i + 1).last() == (entry.0@, entry.1@));
        }
        match entry.1 {
            FolderChange::Update(folder) => {
                folder.upsert(&mut tx)?;
            },
            FolderChange::Remove => {
                // Cascade delete will handle child items
                Folder::delete(entry.0.as_str(), drive_id, &mut tx)?;
            },
        }
    }
    assert(folder_ops.take(folder_ops.len() as int) =~= folder_ops);

    // Process file changes
    let ghost foldered = tx@;
    let ghost file_ops = file_op_views(file_changes@);
    assert(file_ops.take(0) =~= Seq::empty());
    for entry in it: file_changes
        invariant
            tx.wf(),
            file_op_views(it.seq()) == file_ops,
            tx@ == foldered.with_file_ops(drive_id@, file_ops.take(it.index() as int)),
    {
        proof {
            let i = it.index() as int;
            assert(file_ops.take(i + 1).drop_last() =~= file_ops.take(i));
            assert(file_ops.take(i + 1).last() == (entry.0@, entry.1@));
        }
        match entry.1 {
            FileChange::Update(file) => {
                file.upsert(&mut tx)?;
            },
            FileChange::Remove => {
                File::delete(entry.0.as_str(), drive_id, &mut tx)?;
            },
        }
    }
    assert(file_ops.take(file_ops.len() as int) =~= file_ops);

    store.commit(tx)
}

/// Notes a folder of a listing, in place of the one noted for the same id
/// where there is one.
fn put_listed(folders: &mut Vec<Folder>, folder: Folder)
    requires
        distinct(folder_views(old(folders)@), folder_id_key()),
    ensures
        distinct(folder_views(final(folders)@), folder_id_key()),
        folder_views(final(folders)@) == put(
            folder_views(old(folders)@),
            folder_id_key(),
            folder@,
        ),
{
    let ghost before = folder_views(folders@);
    let mut i: usize = 0;
    while i < folders.len()
        invariant
            i <= folders.len(),
            *folders == *old(folders),
            before == folder_views(folders@),
            distinct(before, folder_id_key()),
            forall|j: int| 0 <= j < i ==> folders[j].id@ != folder.id@,
        decreases folders.len() - i,
    {
        if folders[i].id == folder.id {
            proof {
                lemma_position(before, folder_id_key(), i as int);
                lemma_update(before, folder_id_key(), i as int, folder@);
            }
            folders.set(i, folder);
            assert(folder_views(folders@) =~= before.update(i as int, folder@));
            return ;
        }
        i += 1;
    }
    proof {
        lemma_absent(before, folder_id_key(), folder@.id);
        lemma_push(before, folder_id_key(), folder@);
    }
    folders.push(folder);
    assert(folder_views(folders@) =~= before.push(folder@));
}

/// Fills a new drive from a listing of its items, as one transaction.
///
/// The drive gets its row with `page_token` as its cursor, and a top folder
/// with the drive's id and `name`. Of the listed folders those are written
/// that hang from the top folder, every parent before its children; a folder
/// whose chain of parents does not lead to the top folder is an orphan and
/// is left out, and so is a folder that the listing shows without a parent:
/// the top folder is the one folder of the drive without a parent. A file
/// is written where its folder was. Where the drive is
/// followed already, or a row to write is there already, or a row written
/// refers to rows that are not there, nothing is kept.
#[verifier::loop_isolation(false)]
pub fn add_drive(
    drive_id: &str,
    name: &str,
    page_token: &str,
    items: Vec<Item>,
    store: &mut Store,
) -> (r: Result<(), Error>)
    requires
        old(store).wf(),
    ensures
        final(store).wf(),
        exists|order: Seq<usize>| #[trigger]
            parents_first(listed_folders(item_views(items@)), drive_id@, order) && old(
                store,
            )@.bootstrap(drive_id@, name@, page_token@, item_views(items@), order) == (match r {
                Ok(()) => Ok(final(store)@),
                Err(e) => Err(e),
            }),
        r is Err ==> final(store)@ == old(store)@,
{
    let mut tx = store.begin();
    let ghost all = item_views(items@);
    let ghost listing = listed_folders(all);
    let ghost before = store@;

    // Separate folders and files
    let mut folders: Vec<Folder> = Vec::new();
    let mut files: Vec<File> = Vec::new();
    assert(folder_views(folders@) =~= Seq::empty());
    assert(file_views(files@) =~= Seq::empty());
    assert(all.take(0) =~= Seq::empty());

    for item in it: items
        invariant
            item_views(it.seq()) == all,
            distinct(folder_views(folders@), folder_id_key()),
            folder_views(folders@) == listed_folders(all.take(it.index() as int)),
            file_views(files@) == listed_files(all.take(it.index() as int)),
    {
        proof {
            let i = it.index() as int;
            assert(all.take(i + 1).drop_last() =~= all.take(i));
            assert(all.take(i + 1).last() == item@);
        }
        match item {
            Item::Folder(folder) => {
                put_listed(&mut folders, folder);
            },
            Item::File(file) => {
                let ghost listed = file_views(files@);
                files.push(file);
                assert(file_views(files@) =~= listed.push(file@));
            },
        }
    }
    assert(all.take(all.len() as int) =~= all);

    // Find the folders that hang from the top folder, parents first
    let drive = drive_id.to_owned();
    proof {
        let rows = folder_views(folders@);
        assert forall|i: int, j: int|
            0 <= i < j < rows.len() && in_scope(#[trigger] rows[i], None) && in_scope(
                #[trigger] rows[j],
                None,
            ) implies rows[i].id != rows[j].id by {
            assert(folder_id_key()(rows[i]) != folder_id_key()(rows[j]));
        }
    }
    let (order, placed) = descend(&folders, &drive, &None);
    assert(placed@ =~= reached(listing, drive_id@));
    assert(parents_first(listing, drive_id@, order@));
    let ghost planned = in_order(listing, order@);

    // Create the drive
    match Drive::create(drive_id, page_token, &mut tx) {
        Ok(()) => {},
        Err(e) => {
            return Err(e);
        },
    }

    // Create the root folder
    let root_folder = Folder {
        id: drive_id.to_owned(),
        drive_id: drive_id.to_owned(),
        name: name.to_owned(),
        parent: None,
        trashed: false,
    };
    assert(root_folder@ == top_folder(drive_id@, name@));
    match root_folder.create(&mut tx) {
        Ok(()) => {},
        Err(e) => {
            return Err(e);
        },
    }

    // Process folders
    let ghost rooted = tx@;
    assert(planned.take(0) =~= Seq::empty());
    let mut q: usize = 0;
    while q < order.len()
        invariant
            tx.wf(),
            q <= order.len(),
            listing == folder_views(folders@),
            planned == in_order(listing, order@),
            forall|a: int| 0 <= a < order.len() ==> (#[trigger] order[a]) < folders.len(),
            rooted.with_folders(planned.take(q as int)) == Ok::<State, Error>(tx@),
            before.drive_create(drive_id@, page_token@) is Ok,
            before.drive_create(drive_id@, page_token@)->Ok_0.folder_create(
                top_folder(drive_id@, name@),
            ) == Ok::<State, Error>(rooted),
            store.wf(),
            store@ == before,
        decreases order.len() - q,
    {
        let folder = &folders[order[q]];
        proof {
            assert(planned.take(q + 1).drop_last() =~= planned.take(q as int));
            assert(planned.take(q + 1).last() == folder@);
        }
        match folder.create(&mut tx) {
            Ok(()) => {},
            Err(e) => {
                proof {
                    lemma_with_folders_fails(rooted, planned, q + 1);
                }
                return Err(e);
            },
        }
        q += 1;
    }
    assert(planned.take(planned.len() as int) =~= planned);

    // Process files
    let ghost foldered = tx@;
    let ghost file_rows = file_views(files@);
    assert(file_rows.take(0) =~= Seq::empty());
    let mut f: usize = 0;
    while f < files.len()
        invariant
            tx.wf(),
            f <= files.len(),
            listing == folder_views(folders@),
            file_rows == file_views(files@),
            placed@ == reached(listing, drive_id@),
            drive@ == drive_id@,
            foldered.with_files(file_rows.take(f as int), listing, drive_id@) == Ok::<
                State,
                Error,
            >(tx@),
            store.wf(),
            store@ == before,
        decreases files.len() - f,
    {
        let file = &files[f];
        proof {
            assert(file_rows.take(f + 1).drop_last() =~= file_rows.take(f as int));
            assert(file_rows.take(f + 1).last() == file@);
        }
        if file.parent == drive || is_placed(&folders, &placed, &file.parent) {
            match file.create(&mut tx) {
                Ok(()) => {},
                Err(e) => {
                    proof {
                        lemma_with_files_fails(foldered, file_rows, listing, drive_id@, f + 1);
                    }
                    return Err(e);
                },
            }
        }
        f += 1;
    }
    assert(file_rows.take(file_rows.len() as int) =~= file_rows);

    // Commit the transaction
    store.commit(tx)
}

/// Where writing the first folders fails, writing all of them fails alike.
proof fn lemma_with_folders_fails(s: State, folders: Seq<FolderView>, n: int)
    requires
        0 <= n <= folders.len(),
        s.with_folders(folders.take(n)) is Err,
    ensures
        s.with_folders(folders) == s.with_folders(folders.take(n)),
    decreases folders.len() - n,
{
    if n < folders.len() {
        assert(folders.take(n + 1).drop_last() =~= folders.take(n));
        lemma_with_folders_fails(s, folders, n + 1);
    } else {
        assert(folders.take(n) =~= folders);
    }
}

/// Where writing the first files fails, writing all of them fails alike.
proof fn lemma_with_files_fails(
    s: State,
    files: Seq<FileView>,
    folders: Seq<FolderView>,
    drive: Seq<char>,
    n: int,
)
    requires
        0 <= n <= files.len(),
        s.with_files(files.take(n), folders, drive) is Err,
    ensures
        s.with_files(files, folders, drive) == s.with_files(files.take(n), folders, drive),
    decreases files.len() - n,
{
    if n < files.len() {
        assert(files.take(n + 1).drop_last() =~= files.take(n));
        lemma_with_files_fails(s, files, folders, drive, n + 1);
    } else {
        assert(files.take(n) =~= files);
    }
}

/// Empties the folder changelog and the file changelog of a drive.
pub fn clear_changelog(drive_id: &str, store: &mut Store) -> (r: Result<(), Error>)
    requires
        old(store).wf(),
    ensures
        final(store).wf(),
        r is Ok,
        final(store)@ == old(store)@.changelog_clear(drive_id@),
{
    ChangedFolder::clear(drive_id, store)?;
    ChangedFile::clear(drive_id, store)?;

    Ok(())
}

/// Stops following a drive: its row goes, and with it every folder, every
/// file and every changelog row of the drive.
pub fn remove_drive(drive_id: &str, store: &mut Store) -> (r: Result<(), Error>)
    requires
        old(store).wf(),
    ensures
        final(store).wf(),
        r is Ok,
        final(store)@ == old(store)@.drive_remove(drive_id@),
{
    let drive = drive_id.to_owned();
    let ghost before = store@;
    ChangedFolder::clear(drive_id, store)?;
    ChangedFile::clear(drive_id, store)?;
    let ghost drive_rows = drive_views(store.tables.drives@);
    let ghost folder_rows = folder_views(store.tables.folders@);
    let ghost file_rows = file_views(store.tables.files@);
    let ghost other_folder = |f: FolderView| f.drive_id != drive_id@;
    let ghost other_file = |f: FileView| f.drive_id != drive_id@;
    proof {
        store.tables.lemma_keyed();
    }
    match store.tables.find_drive(&drive) {
        Some(i) => {
            store.tables.drives.remove(i);
            proof {
                lemma_position(drive_rows, drive_key(), i as int);
                lemma_remove(drive_rows, drive_key(), i as int);
                assert(drive_views(store.tables.drives@) =~= drive_rows.remove(i as int));
            }
        },
        None => {
            assert(before.drives.remove(drive_id@) =~= before.drives);
        },
    }
    let mut folders: Vec<Folder> = Vec::new();
    core::mem::swap(&mut folders, &mut store.tables.folders);
    assert(folder_rows.take(0).filter(other_folder) =~= Seq::empty()) by {
        reveal(Seq::filter);
    }
    assert(folder_views(store.tables.folders@) =~= Seq::empty());
    for folder in it: folders
        invariant
            folder_views(it.seq()) == folder_rows,
            drive@ == drive_id@,
            other_folder == |f: FolderView| f.drive_id != drive_id@,
            folder_views(store.tables.folders@) == folder_rows.take(it.index() as int).filter(
                other_folder,
            ),
            file_views(store.tables.files@) == file_rows,
            table(drive_views(store.tables.drives@), drive_key()) == before.drives.remove(
                drive_id@,
            ),
            distinct(drive_views(store.tables.drives@), drive_key()),
            folder_log_views(store.tables.folder_changelog@) == before.folder_changelog.filter(
                not_of_folder(drive_id@),
            ),
            file_log_views(store.tables.file_changelog@) == before.file_changelog.filter(
                not_of_file(drive_id@),
            ),
            distinct(folder_log_views(store.tables.folder_changelog@), folder_log_key()),
            distinct(file_log_views(store.tables.file_changelog@), file_log_key()),
    {
        proof {
            let i = it.index() as int;
            assert(folder_rows.take(i + 1) =~= folder_rows.take(i).push(folder@));
            folder_rows.take(i).lemma_filter_push(folder@, other_folder);
        }
        if folder.drive_id != drive {
            let ghost kept = folder_views(store.tables.folders@);
            store.tables.folders.push(folder);
            assert(folder_views(store.tables.folders@) =~= kept.push(folder@));
        }
    }
    assert(folder_rows.take(folder_rows.len() as int) =~= folder_rows);
    let mut files: Vec<File> = Vec::new();
    core::mem::swap(&mut files, &mut store.tables.files);
    assert(file_rows.take(0).filter(other_file) =~= Seq::empty()) by {
        reveal(Seq::filter);
    }
    assert(file_views(store.tables.files@) =~= Seq::empty());
    for file in it: files
        invariant
            file_views(it.seq()) == file_rows,
            drive@ == drive_id@,
            other_file == |f: FileView| f.drive_id != drive_id@,
            file_views(store.tables.files@) == file_rows.take(it.index() as int).filter(
                other_file,
            ),
            folder_views(store.tables.folders@) == folder_rows.filter(other_folder),
            table(drive_views(store.tables.drives@), drive_key()) == before.drives.remove(
                drive_id@,
            ),
            distinct(drive_views(store.tables.drives@), drive_key()),
            folder_log_views(store.tables.folder_changelog@) == before.folder_changelog.filter(
                not_of_folder(drive_id@),
            ),
            file_log_views(store.tables.file_changelog@) == before.file_changelog.filter(
                not_of_file(drive_id@),
            ),
            distinct(folder_log_views(store.tables.folder_changelog@), folder_log_key()),
            distinct(file_log_views(store.tables.file_changelog@), file_log_key()),
    {
        proof {
            let i = it.index() as int;
            assert(file_rows.take(i + 1) =~= file_rows.take(i).push(file@));
            file_rows.take(i).lemma_filter_push(file@, other_file);
        }
        if file.drive_id != drive {
            let ghost kept = file_views(store.tables.files@);
            store.tables.files.push(file);
            assert(file_views(store.tables.files@) =~= kept.push(file@));
        }
    }
    proof {
        assert(file_rows.take(file_rows.len() as int) =~= file_rows);
        lemma_filter(folder_rows, folder_key(), other_folder);
        lemma_filter(file_rows, file_key(), other_file);
        let gone = Set::new(|k: (Seq<char>, Seq<char>)| k.1 == drive_id@);
        assert(store@.folders =~= before.folders.remove_keys(gone));
        assert(store@.files =~= before.files.remove_keys(gone));
        assert(store.tables.wf());
        assert(store@ == before.drive_remove(drive_id@));
        assert(store@.consistent());
    }
    Ok(())
}

/// The drive with this id, if the store follows it.
pub fn get_drive(drive_id: &str, store: &Store) -> (r: Result<Option<Drive>, Error>)
    requires
        store.wf(),
    ensures
        r is Ok,
        match r->Ok_0 {
            Some(drive) => store@.drives.contains_key(drive_id@) && drive@
                == store@.drives[drive_id@],
            None => !store@.drives.contains_key(drive_id@),
        },
{
    Drive::get_by_id(drive_id, store)
}

/// What the changelog reports of the files of a drive, oldest first.
pub fn get_changed_files(drive_id: &str, store: &Store) -> (r: Result<Vec<ChangedFile>, Error>)
    requires
        store.wf(),
    ensures
        r is Ok,
        changed_file_views(r->Ok_0@) == store@.changed_files(drive_id@),
{
    ChangedFile::get_all(drive_id, store)
}

/// What the changelog reports of the folders of a drive, oldest first.
pub fn get_changed_folders(drive_id: &str, store: &Store) -> (r: Result<Vec<ChangedFolder>, Error>)
    requires
        store.wf(),
    ensures
        r is Ok,
        changed_folder_views(r->Ok_0@) == store@.changed_folders(drive_id@),
{
    ChangedFolder::get_all(drive_id, store)
}

/// What the changelog reports of the paths of a drive: for each path its
/// latest row.
pub fn get_changed_paths(drive_id: &str, store: &Store) -> (r: Result<Vec<ChangedPath>, Error>)
    requires
        store.wf(),
    ensures
        r is Ok,
        changed_path_views(r->Ok_0@) == store@.changed_paths(drive_id@),
{
    ChangedPath::get_all(drive_id, store)
}

/// The folder with this id in this drive, if it is there.
pub fn get_folder(id: &str, drive_id: &str, store: &Store) -> (r: Result<Option<Folder>, Error>)
    requires
        store.wf(),
    ensures
        r is Ok,
        match r->Ok_0 {
            Some(folder) => store@.folders.contains_key((id@, drive_id@)) && folder@
                == store@.folders[(id@, drive_id@)],
            None => !store@.folders.contains_key((id@, drive_id@)),
        },
{
    let id = id.to_owned();
    let drive = drive_id.to_owned();
    match store.tables.find_folder(&id, &drive) {
        Some(i) => Ok(Some(store.tables.folders[i].clone())),
        None => Ok(None),
    }
}

/// The file with this id in this drive, if it is there.
pub fn get_file(id: &str, drive_id: &str, store: &Store) -> (r: Result<Option<File>, Error>)
    requires
        store.wf(),
    ensures
        r is Ok,
        match r->Ok_0 {
            Some(file) => store@.files.contains_key((id@, drive_id@)) && file@ == store@.files[(
                id@,
                drive_id@,
            )],
            None => !store@.files.contains_key((id@, drive_id@)),
        },
{
    let id = id.to_owned();
    let drive = drive_id.to_owned();
    match store.tables.find_file(&id, &drive) {
        Some(i) => Ok(Some(store.tables.files[i].clone())),
        None => Ok(None),
    }
}

} // verus!
