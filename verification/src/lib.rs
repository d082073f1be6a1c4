//! A mirror of shared drives: the folders and files of each drive as the
//! remote service last told them, and a changelog of what has changed since
//! the changelog was last emptied.
//!
//! The library holds the rows and decides what every listing and every page
//! of changes does to them. It asks the remote service nothing itself: the
//! caller learns from [`Bernard::prepare_sync`] what to ask for, and hands
//! the answer to [`Bernard::sync_drive`].

use crate::auth::Account;
use crate::database::{file_log_views, folder_log_views, Store};
use crate::fetch::{change_views, item_views, Change, Item};
use crate::model::file::{changed_file_views, ChangedFileView};
use crate::model::folder::{changed_folder_views, text_of, ChangedFolderView, FolderView};
use crate::model::path::{changed_path_views, resolve};
use crate::state::{listed_folders, parents_first, FetchedView, State};
use vstd::prelude::*;

pub mod auth;
pub mod database;
pub mod facts;
pub mod fetch;
pub mod laws;
pub mod model;
pub mod reach;
pub mod rows;
pub mod state;
pub mod tree;

pub use model::{ChangedFile, ChangedFolder, ChangedPath, Drive, File, Folder, Path};

verus! {

/// Why an operation of the mirror failed.
#[derive(Debug)]
#[allow(inconsistent_fields)]
pub enum Error {
    /// The store refused the operation.
    Database { source: database::Error },
    /// The remote service could not be asked.
    Network { source: fetch::Error },
    /// The page of changes was not whole: it refers to a folder that neither
    /// the store nor the page has. Nothing of the page was kept, and the
    /// cursor of the drive stays where it was.
    PartialChangeList { source: database::Error },
}

impl From<database::Error> for Error {
    fn from(error: database::Error) -> (r: Self) {
        match error {
            database::Error::DataIntegrity => Self::PartialChangeList { source: error },
            _ => Self::Database { source: error },
        }
    }
}

impl vstd::std_specs::convert::FromSpecImpl<database::Error> for Error {
    open spec fn obeys_from_spec() -> bool {
        true
    }

    open spec fn from_spec(error: database::Error) -> Self {
        raised(error)
    }
}

impl From<fetch::Error> for Error {
    fn from(source: fetch::Error) -> (r: Self) {
        Self::Network { source }
    }
}

impl vstd::std_specs::convert::FromSpecImpl<fetch::Error> for Error {
    open spec fn obeys_from_spec() -> bool {
        true
    }

    open spec fn from_spec(source: fetch::Error) -> Self {
        Error::Network { source }
    }
}

/// The error of the mirror that stands for an error of the store: a breach
/// of integrity tells of a page of changes that was not whole.
pub open spec fn raised(e: database::Error) -> Error {
    match e {
        database::Error::DataIntegrity => Error::PartialChangeList { source: e },
        _ => Error::Database { source: e },
    }
}

impl Error {
    /// The error in words.
    pub fn describe(&self) -> (r: String)
        ensures
            r@ == match *self {
                Error::Database { .. } => "Database"@,
                Error::Network { .. } => "Network"@,
                Error::PartialChangeList { .. } => "Received a partial change list from Google"@,
            },
    {
        match self {
            Error::Database { .. } => "Database".to_owned(),
            Error::Network { .. } => "Network".to_owned(),
            Error::PartialChangeList { .. } => "Received a partial change list from Google"
                .to_owned(),
        }
    }
}

/// What to ask the remote service for, to bring a drive up to date.
#[derive(Debug)]
pub enum Fetch {
    /// The drive is not followed yet: its name, the cursor of its changes as
    /// of now, and the listing of all its items.
    Listing,
    /// The changes of the drive since this cursor, and the cursor after them.
    Changes { page_token: String },
}

/// What the remote service told.
#[derive(Debug)]
pub enum Fetched {
    Listing { name: String, page_token: String, items: Vec<Item> },
    Changes { changes: Vec<Change>, page_token: String },
}

impl View for Fetched {
    type V = FetchedView;

    open spec fn view(&self) -> FetchedView {
        match *self {
            Fetched::Listing { name, page_token, items } => FetchedView::Listing {
                name: name@,
                page_token: page_token@,
                items: item_views(items@),
            },
            Fetched::Changes { changes, page_token } => FetchedView::Changes {
                changes: change_views(changes@),
                page_token: page_token@,
            },
        }
    }
}

/// The folders of a listing or of an answer that holds one.
pub open spec fn fetched_folders(fetched: FetchedView) -> Seq<FolderView> {
    match fetched {
        FetchedView::Listing { items, .. } => listed_folders(items),
        FetchedView::Changes { .. } => Seq::empty(),
    }
}

/// The mirror: the store and what it takes to reach the remote service.
pub struct Bernard {
    store: Store,
    setup: BernardBuilder,
}

impl View for Bernard {
    type V = State;

    closed spec fn view(&self) -> State {
        self.store@
    }
}

impl Bernard {
    /// The store is well-formed.
    pub closed spec fn wf(&self) -> bool {
        self.store.wf()
    }

    /// What the mirror was set up with.
    pub closed spec fn settings(&self) -> BernardBuilder {
        self.setup
    }

    /// The rows of a well-formed mirror are keyed and consistent.
    pub proof fn lemma_sound(&self)
        requires
            self.wf(),
        ensures
            self@.keyed(),
            self@.consistent(),
    {
        self.store.lemma_sound();
    }

    /// Begins to set up a mirror whose store is kept at `database_path` and
    /// that asks the remote service in the name of `account`.
    pub fn builder(database_path: &str, account: &Account) -> (r: BernardBuilder)
        ensures
            r.database_path@ == database_path@,
            r.account == *account,
            r.proxy is None,
    {
        BernardBuilder::new(database_path, account)
    }

    /// The store, to read.
    pub fn store(&self) -> (r: &Store)
        requires
            self.wf(),
        ensures
            r.wf(),
            r@ == self@,
    {
        &self.store
    }

    /// What the mirror was set up with: where the store is kept, and the
    /// account and the proxy for the remote service.
    pub fn setup(&self) -> (r: &BernardBuilder)
        ensures
            *r == self.settings(),
    {
        &self.setup
    }

    /// Adds a drive that is not followed yet, from what the remote service
    /// told of it: its name, the cursor of its changes and the listing of
    /// its items. Afterwards the changelog of the drive is empty.
    pub fn add_drive(
        &mut self,
        drive_id: &str,
        name: &str,
        page_token: &str,
        items: Vec<Item>,
    ) -> (r: Result<(), Error>)
        requires
            old(self).wf(),
        ensures
            final(self).wf(),
            final(self).settings() == old(self).settings(),
            exists|order: Seq<usize>| #[trigger]
                parents_first(listed_folders(item_views(items@)), drive_id@, order) && (match old(
                    self,
                )@.added(drive_id@, name@, page_token@, item_views(items@), order) {
                    Ok(s) => r is Ok && final(self)@ == s,
                    Err(e) => r == Err::<(), Error>(raised(e)) && final(self)@ == old(self)@,
                }),
    {
        match database::add_drive(drive_id, name, page_token, items, &mut self.store) {
            Ok(()) => {},
            Err(e) => {
                return Err(Error::from(e));
            },
        }
        match database::clear_changelog(drive_id, &mut self.store) {
            Ok(()) => Ok(()),
            Err(e) => Err(Error::from(e)),
        }
    }

    /// Begins to bring a drive up to date: empties the changelog of the
    /// drive and tells what to ask the remote service for.
    pub fn prepare_sync(&mut self, drive_id: &str) -> (r: Result<Fetch, Error>)
        requires
            old(self).wf(),
        ensures
            final(self).wf(),
            final(self).settings() == old(self).settings(),
            final(self)@ == old(self)@.changelog_clear(drive_id@),
            match r {
                Ok(Fetch::Listing) => !old(self)@.drives.contains_key(drive_id@),
                Ok(Fetch::Changes { page_token }) => old(self)@.drives.contains_key(drive_id@)
                    && page_token@ == old(self)@.drives[drive_id@].page_token,
                Err(_) => false,
            },
    {
        match database::clear_changelog(drive_id, &mut self.store) {
            Ok(()) => {},
            Err(e) => {
                return Err(Error::from(e));
            },
        }
        match database::get_drive(drive_id, &self.store) {
            Ok(None) => Ok(Fetch::Listing),
            Ok(Some(drive)) => Ok(Fetch::Changes { page_token: drive.page_token }),
            Err(e) => Err(Error::from(e)),
        }
    }

    /// Brings a drive up to date with what the remote service told.
    ///
    /// The changelog of the drive is emptied first, so that afterwards it
    /// holds the changes of this sync and no others. A listing adds the
    /// drive as a new one. A page of changes whose cursor is the one that
    /// the drive has already changes nothing. Another page is merged as one
    /// transaction; where it is not whole, nothing of it is kept.
    pub fn sync_drive(&mut self, drive_id: &str, fetched: Fetched) -> (r: Result<(), Error>)
        requires
            old(self).wf(),
        ensures
            final(self).wf(),
            final(self).settings() == old(self).settings(),
            exists|order: Seq<usize>| #[trigger]
                parents_first(fetched_folders(fetched@), drive_id@, order) && (match old(
                    self,
                )@.synced(drive_id@, fetched@, order) {
                    Ok(s) => r is Ok && final(self)@ == s,
                    Err(e) => r == Err::<(), Error>(raised(e)) && final(self)@ == old(
                        self,
                    )@.changelog_clear(drive_id@),
                }),
    {
        // Always clear changelog for consistent database state when sync_drive is called.
        match database::clear_changelog(drive_id, &mut self.store) {
            Ok(()) => {},
            Err(e) => {
                return Err(Error::from(e));
            },
        }
        let drive = match database::get_drive(drive_id, &self.store) {
            Ok(drive) => drive,
            Err(e) => {
                return Err(Error::from(e));
            },
        };

        let ghost told = fetched@;
        let ghost cleared = self@;
        match fetched {
            Fetched::Listing { name, page_token, items } => {
                assert(fetched_folders(told) == listed_folders(item_views(items@)));
                let added = self.add_drive(drive_id, name.as_str(), page_token.as_str(), items);
                proof {
                    let order = choose|order: Seq<usize>| #[trigger]
                        parents_first(listed_folders(item_views(items@)), drive_id@, order) && (
                        match cleared.added(
                            drive_id@,
                            name@,
                            page_token@,
                            item_views(items@),
                            order,
                        ) {
                            Ok(s) => added is Ok && self@ == s,
                            Err(e) => added == Err::<(), Error>(raised(e)) && self@ == cleared,
                        });
                    assert(parents_first(fetched_folders(told), drive_id@, order));
                }
                added
            },
            Fetched::Changes { changes, page_token } => {
                let unchanged = match &drive {
                    Some(drive) => drive.page_token == page_token,
                    None => false,
                };
                // Do not perform database operation if no changes are available.
                if unchanged {
                    proof {
                        assert(parents_first(fetched_folders(told), drive_id@, Seq::empty()));
                    }
                    return Ok(());
                }
                let merged = database::merge_changes(
                    drive_id,
                    changes,
                    page_token.as_str(),
                    &mut self.store,
                );
                proof {
                    assert(parents_first(fetched_folders(told), drive_id@, Seq::empty()));
                }
                match merged {
                    Ok(()) => Ok(()),
                    Err(e) => Err(Error::from(e)),
                }
            },
        }
    }

    /// Stops following a drive: the drive goes, and with it every folder,
    /// every file and every changelog row of it.
    pub fn remove_drive(&mut self, drive_id: &str) -> (r: Result<(), Error>)
        requires
            old(self).wf(),
        ensures
            final(self).wf(),
            final(self).settings() == old(self).settings(),
            r is Ok,
            final(self)@ == old(self)@.drive_remove(drive_id@),
    {
        match database::remove_drive(drive_id, &mut self.store) {
            Ok(()) => Ok(()),
            Err(e) => Err(Error::from(e)),
        }
    }

    /// Empties the changelog of a drive.
    pub fn clear_changelog(&mut self, drive_id: &str) -> (r: Result<(), Error>)
        requires
            old(self).wf(),
        ensures
            final(self).wf(),
            final(self).settings() == old(self).settings(),
            r is Ok,
            final(self)@ == old(self)@.changelog_clear(drive_id@),
    {
        match database::clear_changelog(drive_id, &mut self.store) {
            Ok(()) => Ok(()),
            Err(e) => Err(Error::from(e)),
        }
    }

    /// The drive with this id, if the mirror follows it.
    pub fn get_drive(&self, drive_id: &str) -> (r: Result<Option<Drive>, Error>)
        requires
            self.wf(),
        ensures
            r is Ok,
            match r->Ok_0 {
                Some(drive) => self@.drives.contains_key(drive_id@) && drive@
                    == self@.drives[drive_id@],
                None => !self@.drives.contains_key(drive_id@),
            },
    {
        match database::get_drive(drive_id, &self.store) {
            Ok(drive) => Ok(drive),
            Err(e) => Err(Error::from(e)),
        }
    }

    /// What the changelog reports of the folders of a drive, oldest first.
    pub fn get_changed_folders(&self, drive_id: &str) -> (r: Result<Vec<ChangedFolder>, Error>)
        requires
            self.wf(),
        ensures
            r is Ok,
            changed_folder_views(r->Ok_0@) == self@.changed_folders(drive_id@),
    {
        match database::get_changed_folders(drive_id, &self.store) {
            Ok(changed_folders) => Ok(changed_folders),
            Err(e) => Err(Error::from(e)),
        }
    }

    /// What the changelog reports of the files of a drive, oldest first.
    pub fn get_changed_files(&self, drive_id: &str) -> (r: Result<Vec<ChangedFile>, Error>)
        requires
            self.wf(),
        ensures
            r is Ok,
            changed_file_views(r->Ok_0@) == self@.changed_files(drive_id@),
    {
        match database::get_changed_files(drive_id, &self.store) {
            Ok(changed_files) => Ok(changed_files),
            Err(e) => Err(Error::from(e)),
        }
    }

    /// What the changelog reports of the paths of a drive: for each path its
    /// latest row.
    pub fn get_changed_paths(&self, drive_id: &str) -> (r: Result<Vec<ChangedPath>, Error>)
        requires
            self.wf(),
        ensures
            r is Ok,
            changed_path_views(r->Ok_0@) == self@.changed_paths(drive_id@),
    {
        match database::get_changed_paths(drive_id, &self.store) {
            Ok(changed_paths) => Ok(changed_paths),
            Err(e) => Err(Error::from(e)),
        }
    }

    /// The changed folders of a drive that have a path, each with its path,
    /// oldest first.
    pub fn get_changed_folders_paths(&self, drive_id: &str) -> (r: Result<
        Vec<(ChangedFolder, String)>,
        Error,
    >)
        requires
            self.wf(),
        ensures
            r is Ok,
            folder_pair_views(r->Ok_0@) == self@.folders_with_paths(
                self@.folder_changelog,
                drive_id@,
            ),
    {
        let drive = drive_id.to_owned();
        let tx = self.store.tables();
        let ghost s = self@;
        let ghost log = s.folder_changelog;
        let mut out: Vec<(ChangedFolder, String)> = Vec::new();
        assert(folder_pair_views(out@) =~= Seq::empty());
        assert(log.take(0) =~= Seq::empty());
        let mut i: usize = 0;
        while i < tx.folder_changelog.len()
            invariant
                tx.wf(),
                s == tx@,
                drive@ == drive_id@,
                i <= tx.folder_changelog.len(),
                log == folder_log_views(tx.folder_changelog@),
                folder_pair_views(out@) == s.folders_with_paths(log.take(i as int), drive_id@),
            decreases tx.folder_changelog.len() - i,
        {
            let row = &tx.folder_changelog[i];
            proof {
                assert(log.take(i + 1).drop_last() =~= log.take(i as int));
                assert(log.take(i + 1).last() == row@);
            }
            if row.drive_id == drive {
                match resolve(tx, &row.drive_id, &row.id, &row.parent, &row.name) {
                    Some(path) => {
                        let ghost listed = folder_pair_views(out@);
                        let changed = ChangedFolder::from(row.clone());
                        out.push((changed, path));
                        assert(folder_pair_views(out@) =~= listed.push((changed@, path@)));
                    },
                    None => {},
                }
            }
            i += 1;
        }
        assert(log.take(log.len() as int) =~= log);
        Ok(out)
    }

    /// The changed files of a drive that have a path, each with its path,
    /// oldest first.
    pub fn get_changed_files_paths(&self, drive_id: &str) -> (r: Result<
        Vec<(ChangedFile, String)>,
        Error,
    >)
        requires
            self.wf(),
        ensures
            r is Ok,
            file_pair_views(r->Ok_0@) == self@.files_with_paths(self@.file_changelog, drive_id@),
    {
        let drive = drive_id.to_owned();
        let tx = self.store.tables();
        let ghost s = self@;
        let ghost log = s.file_changelog;
        let mut out: Vec<(ChangedFile, String)> = Vec::new();
        assert(file_pair_views(out@) =~= Seq::empty());
        assert(log.take(0) =~= Seq::empty());
        let mut i: usize = 0;
        while i < tx.file_changelog.len()
            invariant
                tx.wf(),
                s == tx@,
                drive@ == drive_id@,
                i <= tx.file_changelog.len(),
                log == file_log_views(tx.file_changelog@),
                file_pair_views(out@) == s.files_with_paths(log.take(i as int), drive_id@),
            decreases tx.file_changelog.len() - i,
        {
            let row = &tx.file_changelog[i];
            proof {
                assert(log.take(i + 1).drop_last() =~= log.take(i as int));
                assert(log.take(i + 1).last() == row@);
            }
            if row.drive_id == drive {
                let parent = Some(row.parent.clone());
                match resolve(tx, &row.drive_id, &row.id, &parent, &row.name) {
                    Some(path) => {
                        let ghost listed = file_pair_views(out@);
                        let changed = ChangedFile::from(row.clone());
                        out.push((changed, path));
                        assert(file_pair_views(out@) =~= listed.push((changed@, path@)));
                    },
                    None => {},
                }
            }
            i += 1;
        }
        assert(log.take(log.len() as int) =~= log);
        Ok(out)
    }
}

/// The pairs as plain text.
pub open spec fn folder_pair_views(list: Seq<(ChangedFolder, String)>) -> Seq<
    (ChangedFolderView, Seq<char>),
> {
    list.map_values(|e: (ChangedFolder, String)| (e.0@, e.1@))
}

/// The pairs as plain text.
pub open spec fn file_pair_views(list: Seq<(ChangedFile, String)>) -> Seq<
    (ChangedFileView, Seq<char>),
> {
    list.map_values(|e: (ChangedFile, String)| (e.0@, e.1@))
}

/// What it takes to set up a mirror.
pub struct BernardBuilder {
    pub database_path: String,
    pub account: Account,
    pub proxy: Option<String>,
}

impl BernardBuilder {
    /// What it takes to set up a mirror whose store is kept at
    /// `database_path` and that asks the remote service in the name of
    /// `account`, without a proxy.
    pub fn new(database_path: &str, account: &Account) -> (r: Self)
        ensures
            r.database_path@ == database_path@,
            r.account == *account,
            r.proxy is None,
    {
        Self { database_path: database_path.to_owned(), account: account.clone(), proxy: None }
    }

    /// Sets up the mirror on a store that has been opened.
    pub fn build(self, store: Store) -> (r: Bernard)
        requires
            store.wf(),
        ensures
            r.wf(),
            r@ == store@,
            r.settings() == self,
    {
        Bernard { store, setup: self }
    }

    /// Asks the remote service through a proxy.
    pub fn proxy(self, url: &str) -> (r: Self)
        ensures
            text_of(r.proxy) == Some(url@),
            r.database_path == self.database_path,
            r.account == self.account,
    {
        Self {
            database_path: self.database_path,
            account: self.account,
            proxy: Some(url.to_owned()),
        }
    }
}

} // verus!
