//! Requests to the remote service and what its answers stand for.

use bernard::fetch::{
    changes_request, drive_request, files_request, next_page, retry_delay,
    start_page_token_request, Change, Item, NextPage, RemoteChange, RemoteFile, LONGEST_WAIT,
};

fn pairs(query: &[(String, String)]) -> Vec<(&str, &str)> {
    query.iter().map(|(k, v)| (k.as_str(), v.as_str())).collect()
}

fn remote(id: &str, mime_type: &str) -> RemoteFile {
    RemoteFile {
        id: id.to_string(),
        drive_id: Some("D1".to_string()),
        name: format!("name of {}", id),
        parents: vec!["P".to_string(), "Q".to_string()],
        trashed: false,
        mime_type: mime_type.to_string(),
        md5: Some("abc".to_string()),
        size: Some(42),
    }
}

#[test]
fn request_for_the_name_of_a_drive() {
    let request = drive_request("0AExample");
    assert_eq!(request.url, "https://www.googleapis.com/drive/v3/drives/0AExample");
    assert_eq!(pairs(&request.query), vec![("fields", "name")]);
}

#[test]
fn request_for_the_first_cursor() {
    let request = start_page_token_request("0AExample");
    assert_eq!(request.url, "https://www.googleapis.com/drive/v3/changes/startPageToken");
    assert_eq!(
        pairs(&request.query),
        vec![("driveId", "0AExample"), ("supportsAllDrives", "true")]
    );
}

#[test]
fn request_for_a_page_of_the_listing() {
    let fields = "nextPageToken,files(id,driveId,name,parents,trashed,mimeType,md5Checksum,size)";
    let request = files_request("0AExample", None);
    assert_eq!(request.url, "https://www.googleapis.com/drive/v3/files");
    assert_eq!(
        pairs(&request.query),
        vec![
            ("driveId", "0AExample"),
            ("corpora", "drive"),
            ("includeItemsFromAllDrives", "true"),
            ("supportsAllDrives", "true"),
            ("fields", fields),
        ]
    );
    let request = files_request("0AExample", Some("next"));
    assert_eq!(request.query.len(), 6);
    assert_eq!(pairs(&request.query)[5], ("pageToken", "next"));
    assert_eq!(pairs(&request.query)[0], ("driveId", "0AExample"));
}

#[test]
fn request_for_a_page_of_changes() {
    let request = changes_request("0AExample", "t0");
    assert_eq!(request.url, "https://www.googleapis.com/drive/v3/changes");
    let query = pairs(&request.query);
    assert_eq!(query.len(), 5);
    assert_eq!(query[0], ("driveId", "0AExample"));
    assert_eq!(query[1], ("pageToken", "t0"));
    assert_eq!(query[2], ("includeItemsFromAllDrives", "true"));
    assert_eq!(query[3], ("supportsAllDrives", "true"));
    assert_eq!(query[4].0, "fields");
    assert!(query[4].1.starts_with("nextPageToken,newStartPageToken,changes("));
}

#[test]
fn only_requests_that_came_too_often_are_made_again() {
    assert_eq!(retry_delay(429, 0), Some(1000));
    assert_eq!(retry_delay(429, 1), Some(2000));
    assert_eq!(retry_delay(429, 2), Some(4000));
    assert_eq!(retry_delay(429, 5), Some(32000));
    assert_eq!(retry_delay(429, 6), Some(64000));
    assert_eq!(retry_delay(429, 7), Some(LONGEST_WAIT));
    assert_eq!(retry_delay(429, 1000), Some(64000));
    assert_eq!(retry_delay(429, u32::MAX), Some(64000));
    assert_eq!(retry_delay(200, 0), None);
    assert_eq!(retry_delay(403, 0), None);
    assert_eq!(retry_delay(404, 3), None);
    assert_eq!(retry_delay(500, 0), None);
    assert_eq!(retry_delay(503, 2), None);
}

#[test]
fn where_the_list_of_changes_goes_on() {
    let some = |t: &str| Some(t.to_string());
    assert!(matches!(
        next_page(some("n1"), None, "t0".to_string()),
        NextPage::More { page_token } if page_token == "n1"
    ));
    assert!(matches!(
        next_page(some("n1"), some("s1"), "t0".to_string()),
        NextPage::More { page_token } if page_token == "n1"
    ));
    assert!(matches!(
        next_page(None, some("s1"), "t0".to_string()),
        NextPage::Done { page_token } if page_token == "s1"
    ));
    assert!(matches!(
        next_page(None, None, "t0".to_string()),
        NextPage::Done { page_token } if page_token == "t0"
    ));
}

#[test]
fn description_of_a_folder() {
    match Item::from_remote(remote("A", "application/vnd.google-apps.folder")) {
        Item::Folder(f) => {
            assert_eq!(f.id, "A");
            assert_eq!(f.drive_id, "D1");
            assert_eq!(f.name, "name of A");
            assert_eq!(f.parent.as_deref(), Some("P"));
            assert!(!f.trashed);
        }
        Item::File(_) => panic!("what has the type of a folder is a folder"),
    }
    let mut top = remote("A", "application/vnd.google-apps.folder");
    top.parents = Vec::new();
    top.drive_id = None;
    top.trashed = true;
    match Item::from_remote(top) {
        Item::Folder(f) => {
            assert_eq!(f.parent, None);
            assert_eq!(f.drive_id, "");
            assert!(f.trashed);
        }
        Item::File(_) => panic!("what has the type of a folder is a folder"),
    }
}

#[test]
fn description_of_a_file() {
    match Item::from_remote(remote("f", "text/plain")) {
        Item::File(f) => {
            assert_eq!(f.id, "f");
            assert_eq!(f.drive_id, "D1");
            assert_eq!(f.parent, "P");
            assert_eq!(f.md5, "abc");
            assert_eq!(f.size, 42);
            assert_eq!(f.mime_type, "text/plain");
        }
        Item::Folder(_) => panic!("what has another type is a file"),
    }
    let mut bare = remote("f", "application/vnd.google-apps.document");
    bare.parents = Vec::new();
    bare.md5 = None;
    bare.size = None;
    match Item::from_remote(bare) {
        Item::File(f) => {
            assert_eq!(f.parent, "D1");
            assert_eq!(f.md5, "");
            assert_eq!(f.size, 0);
        }
        Item::Folder(_) => panic!("what has another type is a file"),
    }
}

fn record(change_type: &str) -> RemoteChange {
    RemoteChange {
        change_type: change_type.to_string(),
        removed: false,
        file_id: Some("f".to_string()),
        file: Some(remote("f", "text/plain")),
        drive_id: Some("D1".to_string()),
        drive_name: Some("Team".to_string()),
    }
}

#[test]
fn record_about_a_drive() {
    match Change::from_remote(record("drive")) {
        Change::DriveChanged(d) => {
            assert_eq!(d.id, "D1");
            assert_eq!(d.name, "Team");
        }
        other => panic!("unexpected {:?}", other),
    }
    let mut removed = record("drive");
    removed.removed = true;
    assert!(matches!(Change::from_remote(removed), Change::DriveRemoved(id) if id == "D1"));
    let mut nameless = record("drive");
    nameless.drive_name = None;
    nameless.drive_id = None;
    assert!(matches!(Change::from_remote(nameless), Change::DriveRemoved(id) if id.is_empty()));
}

#[test]
fn record_about_an_item() {
    assert!(matches!(
        Change::from_remote(record("file")),
        Change::ItemChanged(Item::File(f)) if f.id == "f" && f.parent == "P"
    ));
    let mut removed = record("file");
    removed.removed = true;
    assert!(matches!(Change::from_remote(removed), Change::ItemRemoved(id) if id == "f"));
    let mut gone = record("file");
    gone.file = None;
    assert!(matches!(Change::from_remote(gone), Change::ItemRemoved(id) if id == "f"));
    let mut folder = record("file");
    folder.file = Some(remote("A", "application/vnd.google-apps.folder"));
    assert!(matches!(
        Change::from_remote(folder),
        Change::ItemChanged(Item::Folder(f)) if f.id == "A"
    ));
    // Whatever is not about a drive is about an item.
    assert!(matches!(Change::from_remote(record("")), Change::ItemChanged(_)));
}
