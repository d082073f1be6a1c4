//! What the remote service tells of a drive: its items, and the changes to
//! them since a cursor.

use crate::model::file::{File, FileView};
use crate::model::folder::{Folder, FolderView};
use vstd::prelude::*;
use vstd::string::*;

verus! {

/// Why the remote service could not be asked, after every retry.
#[derive(Debug)]
pub enum Error {
    /// The request did not reach the service, or its answer could not be read.
    Transport { reason: String },
    /// The service did not accept the account.
    Authentication { reason: String },
    /// The service answered with a status that tells of a failure.
    Status { code: u16 },
}

/// A folder or a file of a drive.
#[derive(Debug)]
pub enum Item {
    Folder(Folder),
    File(File),
}

/// An item as plain text.
pub enum ItemView {
    Folder(FolderView),
    File(FileView),
}

impl ItemView {
    /// The id of the item, whatever its kind.
    pub open spec fn id(self) -> Seq<char> {
        match self {
            ItemView::Folder(f) => f.id,
            ItemView::File(f) => f.id,
        }
    }

    /// The drive that the item says it belongs to.
    pub open spec fn drive_id(self) -> Seq<char> {
        match self {
            ItemView::Folder(f) => f.drive_id,
            ItemView::File(f) => f.drive_id,
        }
    }
}

impl View for Item {
    type V = ItemView;

    open spec fn view(&self) -> ItemView {
        match *self {
            Item::Folder(f) => ItemView::Folder(f@),
            Item::File(f) => ItemView::File(f@),
        }
    }
}

impl Item {
    /// The drive that the item says it belongs to.
    pub fn drive_id(&self) -> (r: &String)
        ensures
            r@ == self@.drive_id(),
    {
        match self {
            Item::Folder(f) => &f.drive_id,
            Item::File(f) => &f.drive_id,
        }
    }

    /// The id of the item, whatever its kind.
    pub fn into_id(self) -> (r: String)
        ensures
            r@ == self@.id(),
    {
        match self {
            Item::Folder(f) => f.id,
            Item::File(f) => f.id,
        }
    }
}

/// What a change tells of the drive itself.
#[derive(Debug)]
pub struct PartialDrive {
    pub id: String,
    pub name: String,
}

/// One record of a drive's list of changes.
#[derive(Debug)]
pub enum Change {
    /// The drive itself changed: it has this name now.
    DriveChanged(PartialDrive),
    /// The drive with this id is gone.
    DriveRemoved(String),
    /// The item is now as given. Its drive may be another than the one asked
    /// about: then it has moved there.
    ItemChanged(Item),
    /// Nothing has this id any more. Whether it was a folder or a file is
    /// not told.
    ItemRemoved(String),
}

/// A change as plain text.
pub enum ChangeView {
    DriveChanged { id: Seq<char>, name: Seq<char> },
    DriveRemoved(Seq<char>),
    ItemChanged(ItemView),
    ItemRemoved(Seq<char>),
}

impl View for Change {
    type V = ChangeView;

    open spec fn view(&self) -> ChangeView {
        match *self {
            Change::DriveChanged(d) => ChangeView::DriveChanged { id: d.id@, name: d.name@ },
            Change::DriveRemoved(id) => ChangeView::DriveRemoved(id@),
            Change::ItemChanged(item) => ChangeView::ItemChanged(item@),
            Change::ItemRemoved(id) => ChangeView::ItemRemoved(id@),
        }
    }
}

/// The items of a listing as plain text.
pub open spec fn item_views(items: Seq<Item>) -> Seq<ItemView> {
    items.map_values(|i: Item| i@)
}

/// The changes of a page as plain text.
pub open spec fn change_views(changes: Seq<Change>) -> Seq<ChangeView> {
    changes.map_values(|c: Change| c@)
}

/// A request to the remote service: where to ask, and with which
/// parameters.
#[derive(Debug)]
pub struct Request {
    pub url: String,
    pub query: Vec<(String, String)>,
}

/// The parameters as plain text.
pub open spec fn query_views(query: Seq<(String, String)>) -> Seq<(Seq<char>, Seq<char>)> {
    query.map_values(|p: (String, String)| (p.0@, p.1@))
}

fn pair(name: &str, value: &str) -> (r: (String, String))
    ensures
        r.0@ == name@,
        r.1@ == value@,
{
    (name.to_owned(), value.to_owned())
}

/// The request for the name of a drive.
pub fn drive_request(drive_id: &str) -> (r: Request)
    ensures
        r.url@ == "https://www.googleapis.com/drive/v3/drives/"@ + drive_id@,
        query_views(r.query@) == seq![("fields"@, "name"@)],
{
    let mut url = "https://www.googleapis.com/drive/v3/drives/".to_owned();
    url.append(drive_id);
    let mut query: Vec<(String, String)> = Vec::new();
    query.push(pair("fields", "name"));
    assert(query_views(query@) =~= seq![("fields"@, "name"@)]);
    Request { url, query }
}

/// The request for the cursor that marks the changes of a drive as of now.
pub fn start_page_token_request(drive_id: &str) -> (r: Request)
    ensures
        r.url@ == "https://www.googleapis.com/drive/v3/changes/startPageToken"@,
        query_views(r.query@) == seq![("driveId"@, drive_id@), ("supportsAllDrives"@, "true"@)],
{
    let mut query: Vec<(String, String)> = Vec::new();
    query.push(pair("driveId", drive_id));
    query.push(pair("supportsAllDrives", "true"));
    assert(query_views(query@) =~= seq![
        ("driveId"@, drive_id@),
        ("supportsAllDrives"@, "true"@),
    ]);
    Request { url: "https://www.googleapis.com/drive/v3/changes/startPageToken".to_owned(), query }
}

/// The parameters of a request for one page of the listing of a drive.
pub open spec fn files_query(drive_id: Seq<char>, page_token: Option<Seq<char>>) -> Seq<
    (Seq<char>, Seq<char>),
> {
    let first = seq![
        ("driveId"@, drive_id),
        ("corpora"@, "drive"@),
        ("includeItemsFromAllDrives"@, "true"@),
        ("supportsAllDrives"@, "true"@),
        (
            "fields"@,
            "nextPageToken,files(id,driveId,name,parents,trashed,mimeType,md5Checksum,size)"@,
        ),
    ];
    match page_token {
        Some(token) => first.push(("pageToken"@, token)),
        None => first,
    }
}

/// The request for one page of the listing of a drive: the first page, or
/// the page that a cursor of the page before leads to.
pub fn files_request(drive_id: &str, page_token: Option<&str>) -> (r: Request)
    ensures
        r.url@ == "https://www.googleapis.com/drive/v3/files"@,
        query_views(r.query@) == files_query(
            drive_id@,
            match page_token {
                Some(token) => Some(token@),
                None => None,
            },
        ),
{
    let mut query: Vec<(String, String)> = Vec::new();
    query.push(pair("driveId", drive_id));
    query.push(pair("corpora", "drive"));
    query.push(pair("includeItemsFromAllDrives", "true"));
    query.push(pair("supportsAllDrives", "true"));
    query.push(
        pair(
            "fields",
            "nextPageToken,files(id,driveId,name,parents,trashed,mimeType,md5Checksum,size)",
        ),
    );
    match page_token {
        Some(token) => {
            query.push(pair("pageToken", token));
            assert(query_views(query@) =~= files_query(drive_id@, Some(token@)));
        },
        None => {
            assert(query_views(query@) =~= files_query(drive_id@, None));
        },
    }
    Request { url: "https://www.googleapis.com/drive/v3/files".to_owned(), query }
}

/// The request for one page of the changes of a drive since a cursor.
pub fn changes_request(drive_id: &str, page_token: &str) -> (r: Request)
    ensures
        r.url@ == "https://www.googleapis.com/drive/v3/changes"@,
        query_views(r.query@) == seq![
            ("driveId"@, drive_id@),
            ("pageToken"@, page_token@),
            ("includeItemsFromAllDrives"@, "true"@),
            ("supportsAllDrives"@, "true"@),
            (
                "fields"@,
                "nextPageToken,newStartPageToken,changes(changeType,removed,fileId,driveId,drive(name),file(id,driveId,name,parents,trashed,mimeType,md5Checksum,size))"@,
            ),
        ],
{
    let mut query: Vec<(String, String)> = Vec::new();
    query.push(pair("driveId", drive_id));
    query.push(pair("pageToken", page_token));
    query.push(pair("includeItemsFromAllDrives", "true"));
    query.push(pair("supportsAllDrives", "true"));
    query.push(
        pair(
            "fields",
            "nextPageToken,newStartPageToken,changes(changeType,removed,fileId,driveId,drive(name),file(id,driveId,name,parents,trashed,mimeType,md5Checksum,size))",
        ),
    );
    assert(query_views(query@) =~= seq![
        ("driveId"@, drive_id@),
        ("pageToken"@, page_token@),
        ("includeItemsFromAllDrives"@, "true"@),
        ("supportsAllDrives"@, "true"@),
        (
            "fields"@,
            "nextPageToken,newStartPageToken,changes(changeType,removed,fileId,driveId,drive(name),file(id,driveId,name,parents,trashed,mimeType,md5Checksum,size))"@,
        ),
    ]);
    Request { url: "https://www.googleapis.com/drive/v3/changes".to_owned(), query }
}

/// Where the list of changes goes on after a page.
#[derive(Debug)]
pub enum NextPage {
    /// There is another page, which this cursor leads to.
    More { page_token: String },
    /// The page was the last. The cursor marks the changes as applied up to
    /// here; the next list of changes is asked for from it.
    Done { page_token: String },
}

/// Where the list of changes goes on after the page that was asked for with
/// `page_token`, from the two cursors that the page may bring. A cursor to a
/// next page leads on. Without one the page was the last, and the cursor to
/// start from anew is the one to keep; a last page that brings no cursor
/// leaves the one it was asked for with.
pub fn next_page(
    next_page_token: Option<String>,
    new_start_page_token: Option<String>,
    page_token: String,
) -> (r: NextPage)
    ensures
        r == (match (next_page_token, new_start_page_token) {
            (Some(next), _) => NextPage::More { page_token: next },
            (None, Some(new)) => NextPage::Done { page_token: new },
            (None, None) => NextPage::Done { page_token },
        }),
{
    match next_page_token {
        Some(next) => NextPage::More { page_token: next },
        None => match new_start_page_token {
            Some(new) => NextPage::Done { page_token: new },
            None => NextPage::Done { page_token },
        },
    }
}

/// The longest that a request waits before it is made again, in
/// milliseconds.
pub const LONGEST_WAIT: u64 = 64000;

/// Half a second doubled `times` times, but never more than the longest
/// wait, in milliseconds.
pub open spec fn wait_after(times: nat) -> nat
    decreases times,
{
    if times == 0 {
        500
    } else if 2 * wait_after((times - 1) as nat) >= LONGEST_WAIT {
        LONGEST_WAIT as nat
    } else {
        2 * wait_after((times - 1) as nat)
    }
}

/// Whether a request that was answered with `status`, after `attempt`
/// requests before it were answered so too, is made again, and after how
/// many milliseconds.
///
/// A request that the service turned away for coming too often, with the
/// status 429, is made again, however often it takes: after a second the
/// first time, and each time after twice the wait of the time before, up to
/// the longest wait. Every other failure is final.
pub fn retry_delay(status: u16, attempt: u32) -> (r: Option<u64>)
    ensures
        r == (if status == 429 {
            Some(wait_after(attempt as nat + 1) as u64)
        } else {
            None
        }),
        r matches Some(wait) ==> 1000 <= wait <= LONGEST_WAIT,
{
    if status != 429 {
        return None;
    }
    let mut wait: u64 = 500;
    let mut done: u64 = 0;
    while done <= attempt as u64 && wait < LONGEST_WAIT
        invariant
            done <= attempt + 1,
            wait == wait_after(done as nat),
            500 <= wait <= LONGEST_WAIT,
            done >= 1 ==> wait >= 1000,
        decreases attempt + 1 - done,
    {
        wait = if 2 * wait >= LONGEST_WAIT {
            LONGEST_WAIT
        } else {
            2 * wait
        };
        done = done + 1;
    }
    proof {
        if done <= attempt {
            lemma_wait_stays(done as nat, attempt as nat + 1);
        }
    }
    Some(wait)
}

/// Once the wait has reached the longest wait, it stays there.
proof fn lemma_wait_stays(from: nat, to: nat)
    requires
        from <= to,
        wait_after(from) == LONGEST_WAIT,
    ensures
        wait_after(to) == LONGEST_WAIT,
    decreases to - from,
{
    if from < to {
        lemma_wait_stays(from, (to - 1) as nat);
    }
}

/// A file or a folder as the remote service describes it.
#[derive(Debug)]
pub struct RemoteFile {
    pub id: String,
    /// The shared drive that the item belongs to, if it belongs to one.
    pub drive_id: Option<String>,
    pub name: String,
    /// The folders that the item lies in. An item of a shared drive lies in
    /// one.
    pub parents: Vec<String>,
    pub trashed: bool,
    pub mime_type: String,
    pub md5: Option<String>,
    pub size: Option<u64>,
}

/// A record of the list of changes as the remote service describes it.
#[derive(Debug)]
pub struct RemoteChange {
    /// What the change is about: `drive` or `file`.
    pub change_type: String,
    /// Whether what the change is about is gone.
    pub removed: bool,
    pub file_id: Option<String>,
    pub file: Option<RemoteFile>,
    pub drive_id: Option<String>,
    pub drive_name: Option<String>,
}

/// The text, or the empty text where there is none.
pub open spec fn text_or_empty(t: Option<String>) -> Seq<char> {
    match t {
        Some(s) => s@,
        None => Seq::empty(),
    }
}

fn or_empty(t: Option<String>) -> (r: String)
    ensures
        r@ == text_or_empty(t),
{
    match t {
        Some(s) => s,
        None => String::new(),
    }
}

impl RemoteFile {
    /// The folder that the item lies in: the first of its parents.
    pub open spec fn parent(self) -> Option<Seq<char>> {
        if self.parents.len() > 0 {
            Some(self.parents[0]@)
        } else {
            None
        }
    }

    /// The item that the description stands for. What has the type of a
    /// folder is a folder, everything else is a file. An item that belongs
    /// to no shared drive has the empty text for its drive. A file without a
    /// parent lies in the top folder of its drive; a file without a checksum
    /// or a size has the empty checksum and the size zero.
    pub open spec fn item(self) -> ItemView {
        if self.mime_type@ == "application/vnd.google-apps.folder"@ {
            ItemView::Folder(
                FolderView {
                    id: self.id@,
                    drive_id: text_or_empty(self.drive_id),
                    name: self.name@,
                    trashed: self.trashed,
                    parent: self.parent(),
                },
            )
        } else {
            ItemView::File(
                FileView {
                    id: self.id@,
                    drive_id: text_or_empty(self.drive_id),
                    name: self.name@,
                    trashed: self.trashed,
                    parent: match self.parent() {
                        Some(p) => p,
                        None => text_or_empty(self.drive_id),
                    },
                    md5: text_or_empty(self.md5),
                    size: match self.size {
                        Some(n) => n,
                        None => 0,
                    },
                    mime_type: self.mime_type@,
                },
            )
        }
    }
}

impl Item {
    /// The item that a description of the remote service stands for.
    pub fn from_remote(file: RemoteFile) -> (r: Item)
        ensures
            r@ == file.item(),
    {
        let RemoteFile { id, drive_id, name, parents, trashed, mime_type, md5, size } = file;
        let drive_id = or_empty(drive_id);
        let parent = if parents.len() > 0 {
            Some(parents[0].clone())
        } else {
            None
        };
        let folder_type = "application/vnd.google-apps.folder".to_owned();
        if mime_type == folder_type {
            Item::Folder(Folder { id, drive_id, name, trashed, parent })
        } else {
            let parent = match parent {
                Some(p) => p,
                None => drive_id.clone(),
            };
            let size = match size {
                Some(n) => n,
                None => 0,
            };
            Item::File(
                File { id, drive_id, name, trashed, parent, md5: or_empty(md5), size, mime_type },
            )
        }
    }
}

impl RemoteChange {
    /// The change that the record stands for. A record about a drive tells
    /// that the drive has changed, or, where it is marked as removed or has
    /// no name, that it is gone. Every other record is about an item: it
    /// tells how the item is now, or, where it is marked as removed or has
    /// no item, that the item is gone.
    pub open spec fn change(self) -> ChangeView {
        if self.change_type@ == "drive"@ {
            if self.removed || self.drive_name is None {
                ChangeView::DriveRemoved(text_or_empty(self.drive_id))
            } else {
                ChangeView::DriveChanged {
                    id: text_or_empty(self.drive_id),
                    name: text_or_empty(self.drive_name),
                }
            }
        } else {
            if self.removed || self.file is None {
                ChangeView::ItemRemoved(text_or_empty(self.file_id))
            } else {
                ChangeView::ItemChanged(self.file->0.item())
            }
        }
    }
}

impl Change {
    /// The change that a record of the remote service stands for.
    pub fn from_remote(record: RemoteChange) -> (r: Change)
        ensures
            r@ == record.change(),
    {
        let RemoteChange { change_type, removed, file_id, file, drive_id, drive_name } = record;
        let about_drive = "drive".to_owned();
        if change_type == about_drive {
            match drive_name {
                Some(name) => {
                    if removed {
                        Change::DriveRemoved(or_empty(drive_id))
                    } else {
                        Change::DriveChanged(PartialDrive { id: or_empty(drive_id), name })
                    }
                },
                None => Change::DriveRemoved(or_empty(drive_id)),
            }
        } else {
            match file {
                Some(file) => {
                    if removed {
                        Change::ItemRemoved(or_empty(file_id))
                    } else {
                        Change::ItemChanged(Item::from_remote(file))
                    }
                },
                None => Change::ItemRemoved(or_empty(file_id)),
            }
        }
    }
}

} // verus!
