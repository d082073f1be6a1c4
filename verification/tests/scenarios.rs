//! Whole runs of the mirror against a remote service that is played by hand.

use bernard::auth::Account;
use bernard::database::{get_file, get_folder, Store};
use bernard::fetch::{Change, Item, PartialDrive};
use bernard::{
    Bernard, BernardBuilder, ChangedFile, ChangedFolder, Error, Fetch, Fetched, File, Folder,
};

fn account() -> Account {
    Account {
        client_email: "mirror@example.test".to_string(),
        private_key: "no key".to_string(),
        token_uri: "https://oauth2.example.test/token".to_string(),
    }
}

fn mirror() -> Bernard {
    BernardBuilder::new("mirror.db", &account()).build(Store::new())
}

fn folder(id: &str, drive: &str, name: &str, parent: Option<&str>) -> Folder {
    Folder {
        id: id.to_string(),
        drive_id: drive.to_string(),
        name: name.to_string(),
        trashed: false,
        parent: parent.map(|p| p.to_string()),
    }
}

fn file(id: &str, drive: &str, name: &str, parent: &str, md5: &str) -> File {
    File {
        id: id.to_string(),
        drive_id: drive.to_string(),
        name: name.to_string(),
        trashed: false,
        parent: parent.to_string(),
        md5: md5.to_string(),
        size: 3,
        mime_type: "text/plain".to_string(),
    }
}

/// A mirror that follows the drive D1 named Team, with the folder A in the
/// top folder, the folder B in A and the file f in B.
fn mirror_with_tree() -> Bernard {
    let mut bernard = mirror();
    let items = vec![
        Item::Folder(folder("A", "D1", "A", Some("D1"))),
        Item::Folder(folder("B", "D1", "B", Some("A"))),
        Item::File(file("f", "D1", "f", "B", "abc")),
    ];
    bernard.add_drive("D1", "Team", "t0", items).unwrap();
    bernard
}

fn token(bernard: &Bernard, drive: &str) -> String {
    bernard.get_drive(drive).unwrap().unwrap().page_token
}

#[test]
fn empty_drive() {
    let mut bernard = mirror();
    match bernard.prepare_sync("D1").unwrap() {
        Fetch::Listing => {}
        other => panic!("a drive that is not followed is listed, not {:?}", other),
    }
    let fetched = Fetched::Listing {
        name: "Team".to_string(),
        page_token: "t0".to_string(),
        items: Vec::new(),
    };
    bernard.sync_drive("D1", fetched).unwrap();

    let rows = bernard.store().rows();
    assert_eq!(rows.drives.len(), 1);
    assert_eq!(rows.drives[0].id, "D1");
    assert_eq!(rows.drives[0].page_token, "t0");
    assert_eq!(rows.folders.len(), 1);
    assert_eq!(rows.folders[0].id, "D1");
    assert_eq!(rows.folders[0].drive_id, "D1");
    assert_eq!(rows.folders[0].name, "Team");
    assert_eq!(rows.folders[0].parent, None);
    assert!(!rows.folders[0].trashed);
    assert!(rows.files.is_empty());
    assert!(rows.folder_changelog.is_empty());
    assert!(rows.file_changelog.is_empty());
    assert!(bernard.get_changed_folders("D1").unwrap().is_empty());
    assert!(bernard.get_changed_files("D1").unwrap().is_empty());
    assert!(bernard.get_changed_paths("D1").unwrap().is_empty());
}

#[test]
fn simple_tree() {
    let bernard = mirror_with_tree();
    let rows = bernard.store().rows();
    assert_eq!(rows.drives.len(), 1);
    assert_eq!(rows.folders.len(), 3);
    assert_eq!(rows.files.len(), 1);
    assert!(rows.folder_changelog.is_empty());
    assert!(rows.file_changelog.is_empty());

    let a = get_folder("A", "D1", bernard.store()).unwrap().unwrap();
    assert_eq!(a.parent.as_deref(), Some("D1"));
    let b = get_folder("B", "D1", bernard.store()).unwrap().unwrap();
    assert_eq!(b.parent.as_deref(), Some("A"));
    let f = get_file("f", "D1", bernard.store()).unwrap().unwrap();
    assert_eq!(f.parent, "B");
    assert_eq!(f.md5, "abc");

    assert!(bernard.get_changed_paths("D1").unwrap().is_empty());
    assert!(bernard.get_changed_folders("D1").unwrap().is_empty());
    assert!(bernard.get_changed_files("D1").unwrap().is_empty());
}

#[test]
fn delta_rename() {
    let mut bernard = mirror_with_tree();
    match bernard.prepare_sync("D1").unwrap() {
        Fetch::Changes { page_token } => assert_eq!(page_token, "t0"),
        other => panic!("a drive that is followed is asked for changes, not {:?}", other),
    }
    let fetched = Fetched::Changes {
        changes: vec![Change::DriveChanged(PartialDrive {
            id: "D1".to_string(),
            name: "Renamed".to_string(),
        })],
        page_token: "t1".to_string(),
    };
    bernard.sync_drive("D1", fetched).unwrap();

    let root = get_folder("D1", "D1", bernard.store()).unwrap().unwrap();
    assert_eq!(root.name, "Renamed");
    assert_eq!(root.parent, None);
    assert_eq!(token(&bernard, "D1"), "t1");
    let changed = bernard.get_changed_folders("D1").unwrap();
    assert_eq!(changed.len(), 1);
    match &changed[0] {
        ChangedFolder::Created(f) => {
            assert_eq!(f.id, "D1");
            assert_eq!(f.name, "Renamed");
        }
        ChangedFolder::Deleted(_) => panic!("a renamed folder is not deleted"),
    }
    assert!(bernard.get_changed_files("D1").unwrap().is_empty());
}

#[test]
fn move_out() {
    let mut bernard = mirror();
    let items = vec![
        Item::Folder(folder("A", "D1", "A", Some("D1"))),
        Item::File(file("f", "D1", "f", "A", "abc")),
    ];
    bernard.add_drive("D1", "Team", "t0", items).unwrap();

    let fetched = Fetched::Changes {
        changes: vec![Change::ItemChanged(Item::File(file("f", "D2", "f", "X", "abc")))],
        page_token: "t2".to_string(),
    };
    bernard.sync_drive("D1", fetched).unwrap();

    assert!(get_file("f", "D1", bernard.store()).unwrap().is_none());
    assert!(get_folder("A", "D1", bernard.store()).unwrap().is_some());
    assert_eq!(token(&bernard, "D1"), "t2");
    let changed = bernard.get_changed_files("D1").unwrap();
    assert_eq!(changed.len(), 1);
    match &changed[0] {
        ChangedFile::Deleted(f) => {
            assert_eq!(f.id, "f");
            assert_eq!(f.drive_id, "D1");
            assert_eq!(f.parent, "A");
            assert_eq!(f.md5, "abc");
        }
        ChangedFile::Created(_) => panic!("a file that has moved away is deleted"),
    }
    assert!(bernard.get_changed_folders("D1").unwrap().is_empty());
    assert_eq!(bernard.store().rows().folders.len(), 2);
}

#[test]
fn move_out_after_a_change_here() {
    let mut bernard = mirror();
    let items = vec![
        Item::Folder(folder("A", "D1", "A", Some("D1"))),
        Item::File(file("f", "D1", "f", "A", "abc")),
    ];
    bernard.add_drive("D1", "Team", "t0", items).unwrap();

    let fetched = Fetched::Changes {
        changes: vec![
            Change::ItemChanged(Item::File(file("f", "D1", "f", "A", "abd"))),
            Change::ItemChanged(Item::File(file("f", "D2", "f", "X", "abd"))),
        ],
        page_token: "t2".to_string(),
    };
    bernard.sync_drive("D1", fetched).unwrap();

    assert!(get_file("f", "D1", bernard.store()).unwrap().is_none());
    assert!(get_folder("A", "D1", bernard.store()).unwrap().is_some());
    let changed = bernard.get_changed_files("D1").unwrap();
    assert_eq!(changed.len(), 1);
    // The file is told of as it was in the store, not as the page had it.
    assert!(matches!(&changed[0], ChangedFile::Deleted(f) if f.id == "f" && f.md5 == "abc"));
    assert!(bernard.get_changed_folders("D1").unwrap().is_empty());
}

#[test]
fn move_out_of_what_was_never_here() {
    let mut bernard = mirror_with_tree();
    let fetched = Fetched::Changes {
        changes: vec![
            Change::ItemChanged(Item::File(file("x", "D2", "x", "X", "abc"))),
            Change::ItemChanged(Item::Folder(folder("Y", "D2", "Y", Some("D2")))),
        ],
        page_token: "t1".to_string(),
    };
    bernard.sync_drive("D1", fetched).unwrap();
    assert_eq!(token(&bernard, "D1"), "t1");
    assert_eq!(bernard.store().rows().folders.len(), 3);
    assert_eq!(bernard.store().rows().files.len(), 1);
    assert!(bernard.get_changed_files("D1").unwrap().is_empty());
    assert!(bernard.get_changed_folders("D1").unwrap().is_empty());
}

#[test]
fn folder_shown_in_another_drive_is_deleted_here_and_created_there() {
    let mut bernard = mirror_with_tree();
    bernard.add_drive("D2", "Other", "u0", Vec::new()).unwrap();

    let moved = folder("B", "D2", "B", Some("D2"));
    let here = Fetched::Changes {
        changes: vec![Change::ItemChanged(Item::Folder(folder("B", "D2", "B", Some("D2"))))],
        page_token: "t1".to_string(),
    };
    bernard.sync_drive("D1", here).unwrap();
    assert!(get_folder("B", "D1", bernard.store()).unwrap().is_none());
    assert!(get_file("f", "D1", bernard.store()).unwrap().is_none());
    let changed = bernard.get_changed_folders("D1").unwrap();
    assert_eq!(changed.len(), 1);
    assert!(matches!(&changed[0], ChangedFolder::Deleted(f) if f.id == "B" && f.drive_id == "D1"));

    let there = Fetched::Changes {
        changes: vec![Change::ItemChanged(Item::Folder(moved))],
        page_token: "u1".to_string(),
    };
    bernard.sync_drive("D2", there).unwrap();
    let b = get_folder("B", "D2", bernard.store()).unwrap().unwrap();
    assert_eq!(b.parent.as_deref(), Some("D2"));
    let changed = bernard.get_changed_folders("D2").unwrap();
    assert_eq!(changed.len(), 1);
    assert!(matches!(&changed[0], ChangedFolder::Created(f) if f.id == "B" && f.drive_id == "D2"));
}

#[test]
fn delete_cascade() {
    let mut bernard = mirror_with_tree();
    let fetched = Fetched::Changes {
        changes: vec![Change::ItemRemoved("A".to_string())],
        page_token: "t1".to_string(),
    };
    bernard.sync_drive("D1", fetched).unwrap();

    assert!(get_folder("A", "D1", bernard.store()).unwrap().is_none());
    assert!(get_folder("B", "D1", bernard.store()).unwrap().is_none());
    assert!(get_file("f", "D1", bernard.store()).unwrap().is_none());
    assert!(get_folder("D1", "D1", bernard.store()).unwrap().is_some());

    let changed = bernard.get_changed_folders("D1").unwrap();
    assert_eq!(changed.len(), 1);
    assert!(matches!(&changed[0], ChangedFolder::Deleted(f) if f.id == "A" && f.name == "A"));
    // Nothing told of the file on its own, so the changelog does not either.
    assert!(bernard.get_changed_files("D1").unwrap().is_empty());
}

#[test]
fn delete_cascade_with_the_children_told_first() {
    let mut bernard = mirror_with_tree();
    let fetched = Fetched::Changes {
        changes: vec![
            Change::ItemChanged(Item::File(file("f", "D1", "f", "B", "abc"))),
            Change::ItemRemoved("f".to_string()),
            Change::ItemRemoved("B".to_string()),
            Change::ItemRemoved("A".to_string()),
        ],
        page_token: "t1".to_string(),
    };
    bernard.sync_drive("D1", fetched).unwrap();

    assert!(get_folder("A", "D1", bernard.store()).unwrap().is_none());
    assert!(get_folder("B", "D1", bernard.store()).unwrap().is_none());
    assert!(get_file("f", "D1", bernard.store()).unwrap().is_none());
    let changed = bernard.get_changed_folders("D1").unwrap();
    assert_eq!(changed.len(), 2);
    assert!(matches!(&changed[0], ChangedFolder::Deleted(f) if f.id == "B"));
    assert!(matches!(&changed[1], ChangedFolder::Deleted(f) if f.id == "A"));
    // The folder of the file went before the file's own turn came.
    assert!(bernard.get_changed_files("D1").unwrap().is_empty());
}

#[test]
fn torn_page() {
    let mut bernard = mirror_with_tree();
    let before = bernard.store().rows();
    let fetched = Fetched::Changes {
        changes: vec![Change::ItemChanged(Item::File(file("g", "D1", "g", "Z", "xyz")))],
        page_token: "t1".to_string(),
    };
    match bernard.sync_drive("D1", fetched) {
        Err(Error::PartialChangeList { .. }) => {}
        other => panic!("a page that is not whole is refused, not {:?}", other),
    }
    let after = bernard.store().rows();
    assert_eq!(token(&bernard, "D1"), "t0");
    assert_eq!(after.drives.len(), before.drives.len());
    assert_eq!(after.folders.len(), before.folders.len());
    assert_eq!(after.files.len(), before.files.len());
    assert!(get_file("g", "D1", bernard.store()).unwrap().is_none());
    assert!(get_file("f", "D1", bernard.store()).unwrap().is_some());
    assert!(after.folder_changelog.is_empty());
    assert!(after.file_changelog.is_empty());
}

#[test]
fn torn_page_with_a_folder() {
    let mut bernard = mirror_with_tree();
    let fetched = Fetched::Changes {
        changes: vec![Change::ItemChanged(Item::Folder(folder("C", "D1", "C", Some("Z"))))],
        page_token: "t1".to_string(),
    };
    assert!(matches!(
        bernard.sync_drive("D1", fetched),
        Err(Error::PartialChangeList { .. })
    ));
    assert_eq!(token(&bernard, "D1"), "t0");
    assert!(get_folder("C", "D1", bernard.store()).unwrap().is_none());
}

#[test]
fn page_that_brings_the_parent_along_is_whole() {
    let mut bernard = mirror_with_tree();
    let fetched = Fetched::Changes {
        changes: vec![
            Change::ItemChanged(Item::File(file("g", "D1", "g", "Z", "xyz"))),
            Change::ItemChanged(Item::Folder(folder("Y", "D1", "Y", Some("Z")))),
            Change::ItemChanged(Item::Folder(folder("Z", "D1", "Z", Some("A")))),
        ],
        page_token: "t1".to_string(),
    };
    bernard.sync_drive("D1", fetched).unwrap();
    assert_eq!(token(&bernard, "D1"), "t1");
    assert!(get_folder("Z", "D1", bernard.store()).unwrap().is_some());
    assert!(get_folder("Y", "D1", bernard.store()).unwrap().is_some());
    assert_eq!(get_file("g", "D1", bernard.store()).unwrap().unwrap().parent, "Z");
}

#[test]
fn sync_twice_changes_nothing_the_second_time() {
    let mut bernard = mirror_with_tree();
    let first = Fetched::Changes {
        changes: vec![Change::ItemChanged(Item::Folder(folder("C", "D1", "C", Some("A"))))],
        page_token: "t1".to_string(),
    };
    bernard.sync_drive("D1", first).unwrap();
    assert_eq!(bernard.get_changed_folders("D1").unwrap().len(), 1);
    let after_first = bernard.store().rows();

    match bernard.prepare_sync("D1").unwrap() {
        Fetch::Changes { page_token } => assert_eq!(page_token, "t1"),
        other => panic!("unexpected {:?}", other),
    }
    // The service has nothing new: the cursor that comes back is the old one.
    // Whatever came with it is not looked at.
    let second = Fetched::Changes {
        changes: vec![Change::ItemRemoved("A".to_string())],
        page_token: "t1".to_string(),
    };
    bernard.sync_drive("D1", second).unwrap();
    let after_second = bernard.store().rows();

    assert_eq!(format!("{:?}", after_second.drives), format!("{:?}", after_first.drives));
    assert_eq!(format!("{:?}", after_second.folders), format!("{:?}", after_first.folders));
    assert_eq!(format!("{:?}", after_second.files), format!("{:?}", after_first.files));
    assert!(bernard.get_changed_folders("D1").unwrap().is_empty());
    assert!(bernard.get_changed_files("D1").unwrap().is_empty());
    assert!(bernard.get_changed_paths("D1").unwrap().is_empty());
}

#[test]
fn sync_reports_only_the_changes_of_the_last_page() {
    let mut bernard = mirror_with_tree();
    let first = Fetched::Changes {
        changes: vec![Change::ItemChanged(Item::Folder(folder("C", "D1", "C", Some("A"))))],
        page_token: "t1".to_string(),
    };
    bernard.sync_drive("D1", first).unwrap();
    let second = Fetched::Changes {
        changes: vec![Change::ItemChanged(Item::File(file("g", "D1", "g", "C", "xyz")))],
        page_token: "t2".to_string(),
    };
    bernard.sync_drive("D1", second).unwrap();
    assert!(bernard.get_changed_folders("D1").unwrap().is_empty());
    let files = bernard.get_changed_files("D1").unwrap();
    assert_eq!(files.len(), 1);
    assert!(matches!(&files[0], ChangedFile::Created(f) if f.id == "g"));
}

#[test]
fn listing_for_a_drive_that_is_followed_is_refused() {
    let mut bernard = mirror_with_tree();
    let fetched = Fetched::Listing {
        name: "Team".to_string(),
        page_token: "t9".to_string(),
        items: Vec::new(),
    };
    match bernard.sync_drive("D1", fetched) {
        Err(Error::Database { source }) => {
            assert_eq!(source, bernard::database::Error::Constraint)
        }
        other => panic!("unexpected {:?}", other),
    }
    assert_eq!(token(&bernard, "D1"), "t0");
    assert_eq!(bernard.store().rows().folders.len(), 3);
}

#[test]
fn add_drive_twice_is_refused() {
    let mut bernard = mirror_with_tree();
    assert!(matches!(
        bernard.add_drive("D1", "Team", "t5", Vec::new()),
        Err(Error::Database { source: bernard::database::Error::Constraint })
    ));
    assert_eq!(token(&bernard, "D1"), "t0");
}

#[test]
fn changes_for_a_drive_that_is_not_followed() {
    let mut bernard = mirror();
    let nothing = Fetched::Changes { changes: Vec::new(), page_token: "t1".to_string() };
    bernard.sync_drive("D9", nothing).unwrap();
    assert!(bernard.get_drive("D9").unwrap().is_none());

    let something = Fetched::Changes {
        changes: vec![Change::ItemChanged(Item::Folder(folder("A", "D9", "A", None)))],
        page_token: "t1".to_string(),
    };
    assert!(matches!(
        bernard.sync_drive("D9", something),
        Err(Error::PartialChangeList { .. })
    ));
    assert!(bernard.store().rows().folders.is_empty());
}

#[test]
fn remove_drive_takes_everything_of_the_drive() {
    let mut bernard = mirror_with_tree();
    bernard
        .add_drive(
            "D2",
            "Other",
            "u0",
            vec![Item::Folder(folder("K", "D2", "K", Some("D2")))],
        )
        .unwrap();
    let page = Fetched::Changes {
        changes: vec![Change::ItemChanged(Item::Folder(folder("C", "D1", "C", Some("A"))))],
        page_token: "t1".to_string(),
    };
    bernard.sync_drive("D1", page).unwrap();
    assert_eq!(bernard.store().rows().folder_changelog.len(), 1);

    bernard.remove_drive("D1").unwrap();
    let rows = bernard.store().rows();
    assert_eq!(rows.drives.len(), 1);
    assert_eq!(rows.drives[0].id, "D2");
    assert_eq!(rows.folders.len(), 2);
    assert!(rows.folders.iter().all(|f| f.drive_id == "D2"));
    assert!(rows.files.is_empty());
    assert!(rows.folder_changelog.is_empty());
    assert!(bernard.get_drive("D1").unwrap().is_none());

    // Removing a drive that is not followed changes nothing.
    bernard.remove_drive("D1").unwrap();
    assert_eq!(bernard.store().rows().folders.len(), 2);
}

#[test]
fn clear_changelog_leaves_the_other_drives_alone() {
    let mut bernard = mirror_with_tree();
    bernard.add_drive("D2", "Other", "u0", Vec::new()).unwrap();
    let one = Fetched::Changes {
        changes: vec![Change::ItemChanged(Item::Folder(folder("C", "D1", "C", Some("A"))))],
        page_token: "t1".to_string(),
    };
    bernard.sync_drive("D1", one).unwrap();
    let two = Fetched::Changes {
        changes: vec![Change::ItemChanged(Item::Folder(folder("K", "D2", "K", Some("D2"))))],
        page_token: "u1".to_string(),
    };
    bernard.sync_drive("D2", two).unwrap();
    assert_eq!(bernard.get_changed_folders("D1").unwrap().len(), 1);
    assert_eq!(bernard.get_changed_folders("D2").unwrap().len(), 1);

    bernard.clear_changelog("D1").unwrap();
    assert!(bernard.get_changed_folders("D1").unwrap().is_empty());
    assert_eq!(bernard.get_changed_folders("D2").unwrap().len(), 1);
}

#[test]
fn builder_keeps_what_it_is_given() {
    let account = account();
    let builder = Bernard::builder("mirror.db", &account);
    assert_eq!(builder.database_path, "mirror.db");
    assert_eq!(builder.account.client_email, "mirror@example.test");
    assert_eq!(builder.proxy, None);
    let builder = builder.proxy("http://proxy.example.test:8080");
    assert_eq!(builder.proxy.as_deref(), Some("http://proxy.example.test:8080"));
    assert_eq!(builder.database_path, "mirror.db");
    let bernard = builder.build(Store::new());
    assert_eq!(bernard.setup().database_path, "mirror.db");
    assert_eq!(bernard.setup().proxy.as_deref(), Some("http://proxy.example.test:8080"));
    assert_eq!(bernard.setup().account.token_uri, "https://oauth2.example.test/token");
    assert!(bernard.store().rows().drives.is_empty());
}

#[test]
fn errors_in_words() {
    let database = Error::from(bernard::database::Error::Constraint);
    assert!(matches!(database, Error::Database { .. }));
    assert_eq!(database.describe(), "Database");
    let unavailable = Error::from(bernard::database::Error::Unavailable);
    assert!(matches!(unavailable, Error::Database { .. }));
    let partial = Error::from(bernard::database::Error::DataIntegrity);
    assert!(matches!(partial, Error::PartialChangeList { .. }));
    assert_eq!(partial.describe(), "Received a partial change list from Google");
    let network = Error::from(bernard::fetch::Error::Status { code: 503 });
    assert!(matches!(
        network,
        Error::Network { source: bernard::fetch::Error::Status { code: 503 } }
    ));
    assert_eq!(network.describe(), "Network");
    let transport = Error::from(bernard::fetch::Error::Transport { reason: "reset".to_string() });
    assert_eq!(transport.describe(), "Network");
}
