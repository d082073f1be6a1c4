use crate::database::{drive_views, Error, Store, Transaction};
use crate::rows::{lemma_push, lemma_update};
use crate::state::drive_key;
use vstd::prelude::*;

verus! {

/// A shared drive that the mirror follows, with the cursor up to which the
/// drive's changes have been applied.
#[derive(Debug)]
pub struct Drive {
    pub id: String,
    pub page_token: String,
}

/// A drive row as plain text.
pub struct DriveView {
    pub id: Seq<char>,
    pub page_token: Seq<char>,
}

impl View for Drive {
    type V = DriveView;

    open spec fn view(&self) -> DriveView {
        DriveView { id: self.id@, page_token: self.page_token@ }
    }
}

impl Clone for Drive {
    fn clone(&self) -> (r: Self)
        ensures
            r == *self,
    {
        Drive { id: self.id.clone(), page_token: self.page_token.clone() }
    }
}

impl Drive {
    /// Writes a drive that is not followed yet, with the cursor from which
    /// its changes will be asked.
    pub fn create(id: &str, page_token: &str, tx: &mut Transaction) -> (r: Result<(), Error>)
        requires
            old(tx).wf(),
        ensures
            final(tx).wf(),
            old(tx)@.drive_create(id@, page_token@) == (match r {
                Ok(()) => Ok(final(tx)@),
                Err(e) => Err(e),
            }),
            r is Err ==> final(tx)@ == old(tx)@,
    {
        let drive = Drive { id: id.to_owned(), page_token: page_token.to_owned() };
        let ghost rows = drive_views(tx.drives@);
        match tx.find_drive(&drive.id) {
            Some(_) => Err(Error::Constraint),
            None => {
                proof {
                    lemma_push(rows, drive_key(), drive@);
                }
                tx.drives.push(drive);
                assert(drive_views(tx.drives@) =~= rows.push(drive@));
                Ok(())
            },
        }
    }

    /// The drive with this id, if the store follows it.
    pub fn get_by_id(id: &str, store: &Store) -> (r: Result<Option<Self>, Error>)
        requires
            store.wf(),
        ensures
            r is Ok,
            match r->Ok_0 {
                Some(drive) => store@.drives.contains_key(id@) && drive@ == store@.drives[id@],
                None => !store@.drives.contains_key(id@),
            },
    {
        let id = id.to_owned();
        match store.tables.find_drive(&id) {
            Some(i) => Ok(Some(store.tables.drives[i].clone())),
            None => Ok(None),
        }
    }

    /// Moves the cursor of a drive. Where the drive is not followed, nothing
    /// happens.
    pub fn update_page_token(id: &str, page_token: &str, tx: &mut Transaction) -> (r: Result<
        (),
        Error,
    >)
        requires
            old(tx).wf(),
        ensures
            final(tx).wf(),
            r is Ok,
            final(tx)@ == old(tx)@.drive_update_token(id@, page_token@),
    {
        let drive = Drive { id: id.to_owned(), page_token: page_token.to_owned() };
        let ghost rows = drive_views(tx.drives@);
        match tx.find_drive(&drive.id) {
            Some(i) => {
                proof {
                    lemma_update(rows, drive_key(), i as int, drive@);
                }
                tx.drives.set(i, drive);
                assert(drive_views(tx.drives@) =~= rows.update(i as int, drive@));
            },
            None => {},
        }
        Ok(())
    }
}

} // verus!
