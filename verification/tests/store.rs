//! The store, its transactions and the rows written one by one.

use bernard::database::{
    add_drive, clear_changelog, get_changed_files, get_changed_folders, get_drive, get_file,
    get_folder, remove_drive, Error, Rows, Store, Transaction,
};
use bernard::fetch::Item;
use bernard::model::file::FileChangelog;
use bernard::model::folder::FolderChangelog;
use bernard::{ChangedFile, ChangedFolder, Drive, File, Folder};

fn folder(id: &str, drive: &str, name: &str, parent: Option<&str>) -> Folder {
    Folder {
        id: id.to_string(),
        drive_id: drive.to_string(),
        name: name.to_string(),
        trashed: false,
        parent: parent.map(|p| p.to_string()),
    }
}

fn file(id: &str, drive: &str, name: &str, parent: &str) -> File {
    File {
        id: id.to_string(),
        drive_id: drive.to_string(),
        name: name.to_string(),
        trashed: false,
        parent: parent.to_string(),
        md5: "abc".to_string(),
        size: 12,
        mime_type: "text/plain".to_string(),
    }
}

fn store_with_tree() -> Store {
    let mut store = Store::new();
    let items = vec![
        Item::Folder(folder("A", "D1", "a", Some("D1"))),
        Item::Folder(folder("B", "D1", "b", Some("A"))),
        Item::Folder(folder("C", "D1", "c", Some("A"))),
        Item::Folder(folder("E", "D1", "e", Some("D1"))),
        Item::File(file("f", "D1", "f", "B")),
        Item::File(file("g", "D1", "g", "E")),
    ];
    add_drive("D1", "Team", "t0", items, &mut store).unwrap();
    clear_changelog("D1", &mut store).unwrap();
    store
}

#[test]
fn new_store_is_empty() {
    let store = Store::new();
    let rows = store.rows();
    assert!(rows.drives.is_empty());
    assert!(rows.folders.is_empty());
    assert!(rows.files.is_empty());
    assert!(rows.folder_changelog.is_empty());
    assert!(rows.file_changelog.is_empty());
    assert!(get_drive("D1", &store).unwrap().is_none());
    assert!(Transaction::new().into_rows().drives.is_empty());
}

#[test]
fn committed_rows_are_kept() {
    let mut store = Store::new();
    let mut tx = store.begin();
    Drive::create("D1", "t0", &mut tx).unwrap();
    folder("D1", "D1", "Team", None).create(&mut tx).unwrap();
    folder("A", "D1", "a", Some("D1")).create(&mut tx).unwrap();
    file("f", "D1", "f", "A").create(&mut tx).unwrap();
    // Nothing is seen before the transaction ends.
    assert!(get_drive("D1", &store).unwrap().is_none());
    assert!(tx.check());
    store.commit(tx).unwrap();

    let drive = get_drive("D1", &store).unwrap().unwrap();
    assert_eq!(drive.id, "D1");
    assert_eq!(drive.page_token, "t0");
    assert_eq!(get_folder("A", "D1", &store).unwrap().unwrap().name, "a");
    assert_eq!(get_file("f", "D1", &store).unwrap().unwrap().size, 12);
    assert_eq!(get_changed_folders("D1", &store).unwrap().len(), 2);
    assert_eq!(get_changed_files("D1", &store).unwrap().len(), 1);
}

#[test]
fn rolled_back_rows_are_dropped() {
    let store = store_with_tree();
    let mut tx = store.begin();
    Folder::delete("A", "D1", &mut tx).unwrap();
    store.rollback(tx);
    assert!(get_folder("A", "D1", &store).unwrap().is_some());
    assert_eq!(store.rows().folders.len(), 5);
}

#[test]
fn commit_asks_for_every_parent_and_drive() {
    let mut store = store_with_tree();

    let mut tx = store.begin();
    folder("X", "D1", "x", Some("nowhere")).create(&mut tx).unwrap();
    assert!(!tx.check());
    assert_eq!(store.commit(tx), Err(Error::DataIntegrity));
    assert!(get_folder("X", "D1", &store).unwrap().is_none());

    let mut tx = store.begin();
    file("x", "D1", "x", "nowhere").create(&mut tx).unwrap();
    assert_eq!(store.commit(tx), Err(Error::DataIntegrity));

    let mut tx = store.begin();
    folder("D5", "D5", "no such drive", None).create(&mut tx).unwrap();
    assert_eq!(store.commit(tx), Err(Error::DataIntegrity));

    let mut tx = store.begin();
    file("x", "D5", "x", "A").create(&mut tx).unwrap();
    assert_eq!(store.commit(tx), Err(Error::DataIntegrity));
    assert_eq!(store.rows().files.len(), 2);
}

#[test]
fn order_within_a_transaction_is_free() {
    let mut store = store_with_tree();
    let mut tx = store.begin();
    file("x", "D1", "x", "Y").create(&mut tx).unwrap();
    folder("Y", "D1", "y", Some("Z")).create(&mut tx).unwrap();
    assert!(!tx.check());
    folder("Z", "D1", "z", Some("E")).create(&mut tx).unwrap();
    assert!(tx.check());
    store.commit(tx).unwrap();
    assert_eq!(get_file("x", "D1", &store).unwrap().unwrap().parent, "Y");
}

#[test]
fn create_refuses_a_row_that_is_there() {
    let store = store_with_tree();
    let mut tx = store.begin();
    assert_eq!(Drive::create("D1", "t9", &mut tx), Err(Error::Constraint));
    assert_eq!(folder("A", "D1", "again", Some("D1")).create(&mut tx), Err(Error::Constraint));
    assert_eq!(file("f", "D1", "again", "A").create(&mut tx), Err(Error::Constraint));
    // The same ids in another drive are other rows.
    Drive::create("D2", "u0", &mut tx).unwrap();
    folder("D2", "D2", "Other", None).create(&mut tx).unwrap();
    folder("A", "D2", "a", Some("D2")).create(&mut tx).unwrap();
    file("f", "D2", "f", "A").create(&mut tx).unwrap();
    let rows = tx.into_rows();
    assert_eq!(rows.drives.len(), 2);
    assert_eq!(rows.folders.len(), 7);
    assert_eq!(rows.files.len(), 3);
    assert_eq!(rows.folders.iter().find(|f| f.id == "A" && f.drive_id == "D1").unwrap().name, "a");
}

#[test]
fn upsert_replaces_the_whole_row() {
    let store = store_with_tree();
    let mut tx = store.begin();
    let mut a = folder("A", "D1", "renamed", Some("E"));
    a.trashed = true;
    a.upsert(&mut tx).unwrap();
    let mut f = file("f", "D1", "renamed.txt", "C");
    f.md5 = "def".to_string();
    f.size = 99;
    f.upsert(&mut tx).unwrap();
    folder("N", "D1", "new", Some("A")).upsert(&mut tx).unwrap();
    let rows = tx.into_rows();
    let a = rows.folders.iter().find(|r| r.id == "A").unwrap();
    assert_eq!(a.name, "renamed");
    assert_eq!(a.parent.as_deref(), Some("E"));
    assert!(a.trashed);
    let f = rows.files.iter().find(|r| r.id == "f").unwrap();
    assert_eq!((f.name.as_str(), f.parent.as_str(), f.md5.as_str(), f.size), ("renamed.txt", "C", "def", 99));
    assert_eq!(rows.folders.len(), 6);
    assert_eq!(rows.files.len(), 2);
    assert_eq!(rows.folder_changelog.len(), 2);
    assert_eq!(rows.file_changelog.len(), 1);
    assert!(!rows.folder_changelog[0].deleted);
}

#[test]
fn changelog_keeps_one_row_for_each_item_the_latest_last() {
    let store = store_with_tree();
    let mut tx = store.begin();
    folder("A", "D1", "one", Some("D1")).upsert(&mut tx).unwrap();
    folder("E", "D1", "e", Some("D1")).upsert(&mut tx).unwrap();
    folder("A", "D1", "two", Some("D1")).upsert(&mut tx).unwrap();
    Folder::update_name("A", "D1", "three", &mut tx).unwrap();
    file("g", "D1", "g", "E").upsert(&mut tx).unwrap();
    File::delete("g", "D1", &mut tx).unwrap();
    let rows = tx.into_rows();
    let ids: Vec<&str> = rows.folder_changelog.iter().map(|r| r.id.as_str()).collect();
    assert_eq!(ids, vec!["E", "A"]);
    assert_eq!(rows.folder_changelog[1].name, "three");
    assert!(!rows.folder_changelog[1].deleted);
    assert_eq!(rows.file_changelog.len(), 1);
    assert!(rows.file_changelog[0].deleted);
    assert_eq!(rows.file_changelog[0].id, "g");
}

#[test]
fn delete_takes_all_that_lies_below() {
    let store = store_with_tree();
    let mut tx = store.begin();
    Folder::delete("A", "D1", &mut tx).unwrap();
    assert!(tx.check());
    let rows = tx.into_rows();
    let left: Vec<&str> = rows.folders.iter().map(|f| f.id.as_str()).collect();
    assert_eq!(left, vec!["D1", "E"]);
    let left: Vec<&str> = rows.files.iter().map(|f| f.id.as_str()).collect();
    assert_eq!(left, vec!["g"]);
    assert_eq!(rows.folder_changelog.len(), 1);
    assert_eq!(rows.folder_changelog[0].id, "A");
    assert_eq!(rows.folder_changelog[0].name, "a");
    assert_eq!(rows.folder_changelog[0].parent.as_deref(), Some("D1"));
    assert!(rows.folder_changelog[0].deleted);
    assert!(rows.file_changelog.is_empty());
}

#[test]
fn delete_of_the_top_folder_empties_the_drive_but_keeps_it() {
    let store = store_with_tree();
    let mut tx = store.begin();
    Folder::delete("D1", "D1", &mut tx).unwrap();
    assert!(tx.check());
    let rows = tx.into_rows();
    assert_eq!(rows.drives.len(), 1);
    assert!(rows.folders.is_empty());
    assert!(rows.files.is_empty());
    assert_eq!(rows.folder_changelog.len(), 1);
}

#[test]
fn delete_of_what_is_not_there_does_nothing() {
    let store = store_with_tree();
    let mut tx = store.begin();
    Folder::delete("f", "D1", &mut tx).unwrap();
    Folder::delete("A", "D2", &mut tx).unwrap();
    File::delete("A", "D1", &mut tx).unwrap();
    File::delete("f", "D2", &mut tx).unwrap();
    Folder::update_name("Z", "D1", "z", &mut tx).unwrap();
    Drive::update_page_token("D2", "u1", &mut tx).unwrap();
    let rows = tx.into_rows();
    assert_eq!(rows.folders.len(), 5);
    assert_eq!(rows.files.len(), 2);
    assert_eq!(rows.drives.len(), 1);
    assert!(rows.folder_changelog.is_empty());
    assert!(rows.file_changelog.is_empty());
}

#[test]
fn delete_goes_round_a_circle() {
    let store = store_with_tree();
    let mut tx = store.begin();
    // A hangs from C, which hangs from A.
    folder("A", "D1", "a", Some("C")).upsert(&mut tx).unwrap();
    assert!(tx.check());
    Folder::delete("B", "D1", &mut tx).unwrap();
    let rows = tx.copy().into_rows();
    assert_eq!(rows.folders.len(), 4);
    assert_eq!(rows.files.len(), 1);
    Folder::delete("C", "D1", &mut tx).unwrap();
    let rows = tx.into_rows();
    let left: Vec<&str> = rows.folders.iter().map(|f| f.id.as_str()).collect();
    assert_eq!(left, vec!["D1", "E"]);
}

#[test]
fn delete_stays_within_the_drive() {
    let mut store = store_with_tree();
    let items = vec![
        Item::Folder(folder("A", "D2", "a", Some("D2"))),
        Item::Folder(folder("B", "D2", "b", Some("A"))),
        Item::File(file("f", "D2", "f", "B")),
    ];
    add_drive("D2", "Other", "u0", items, &mut store).unwrap();
    let mut tx = store.begin();
    Folder::delete("A", "D1", &mut tx).unwrap();
    store.commit(tx).unwrap();
    assert!(get_folder("A", "D1", &store).unwrap().is_none());
    assert!(get_folder("A", "D2", &store).unwrap().is_some());
    assert!(get_folder("B", "D2", &store).unwrap().is_some());
    assert!(get_file("f", "D2", &store).unwrap().is_some());
}

#[test]
fn update_page_token_moves_the_cursor() {
    let mut store = store_with_tree();
    let mut tx = store.begin();
    Drive::update_page_token("D1", "t7", &mut tx).unwrap();
    store.commit(tx).unwrap();
    assert_eq!(Drive::get_by_id("D1", &store).unwrap().unwrap().page_token, "t7");
    assert!(Drive::get_by_id("D2", &store).unwrap().is_none());
}

#[test]
fn children_of_a_folder() {
    let store = store_with_tree();
    let mut children =
        Folder::get_children("A", "D1", store.tables()).unwrap().unwrap();
    children.sort();
    assert_eq!(children, vec!["B".to_string(), "C".to_string()]);
    let mut top = Folder::get_children("D1", "D1", store.tables()).unwrap().unwrap();
    top.sort();
    assert_eq!(top, vec!["A".to_string(), "E".to_string()]);
    assert_eq!(Folder::get_children("B", "D1", store.tables()).unwrap(), None);
    assert_eq!(Folder::get_children("A", "D2", store.tables()).unwrap(), None);
    assert_eq!(Folder::get_children("nowhere", "D1", store.tables()).unwrap(), None);
}

#[test]
fn changelog_reports_in_the_order_of_writing() {
    let mut store = store_with_tree();
    let mut tx = store.begin();
    folder("N", "D1", "n", Some("A")).create(&mut tx).unwrap();
    Folder::delete("E", "D1", &mut tx).unwrap();
    file("h", "D1", "h", "N").create(&mut tx).unwrap();
    File::delete("f", "D1", &mut tx).unwrap();
    store.commit(tx).unwrap();
    let folders = get_changed_folders("D1", &store).unwrap();
    assert_eq!(folders.len(), 2);
    assert!(matches!(&folders[0], ChangedFolder::Created(f) if f.id == "N"));
    assert!(matches!(&folders[1], ChangedFolder::Deleted(f) if f.id == "E"));
    let files = get_changed_files("D1", &store).unwrap();
    assert_eq!(files.len(), 2);
    assert!(matches!(&files[0], ChangedFile::Created(f) if f.id == "h"));
    assert!(matches!(&files[1], ChangedFile::Deleted(f) if f.id == "f" && f.parent == "B"));
    assert!(get_changed_folders("D2", &store).unwrap().is_empty());

    ChangedFolder::clear("D1", &mut store).unwrap();
    assert!(get_changed_folders("D1", &store).unwrap().is_empty());
    assert_eq!(get_changed_files("D1", &store).unwrap().len(), 2);
    ChangedFile::clear("D1", &mut store).unwrap();
    assert!(get_changed_files("D1", &store).unwrap().is_empty());
}

#[test]
fn remove_drive_keeps_the_store_whole() {
    let mut store = store_with_tree();
    remove_drive("D1", &mut store).unwrap();
    assert!(store.rows().drives.is_empty());
    assert!(store.rows().folders.is_empty());
    assert!(store.rows().files.is_empty());
    assert!(store.begin().check());
}

#[test]
fn rows_are_restored_as_they_were() {
    let store = store_with_tree();
    let rows = store.rows();
    let again = Store::restore(rows).unwrap();
    assert_eq!(format!("{:?}", again.rows()), format!("{:?}", store.rows()));
    assert_eq!(get_file("f", "D1", &again).unwrap().unwrap().parent, "B");
}

fn empty_rows() -> Rows {
    Rows {
        drives: Vec::new(),
        folders: Vec::new(),
        files: Vec::new(),
        folder_changelog: Vec::new(),
        file_changelog: Vec::new(),
    }
}

#[test]
fn rows_with_a_key_twice_are_not_restored() {
    let drive = || Drive { id: "D1".to_string(), page_token: "t0".to_string() };

    let mut rows = empty_rows();
    rows.drives = vec![drive(), drive()];
    assert!(matches!(Store::restore(rows), Err(Error::Constraint)));

    let mut rows = empty_rows();
    rows.drives = vec![drive()];
    rows.folders = vec![folder("D1", "D1", "Team", None), folder("D1", "D1", "again", None)];
    assert!(matches!(Store::restore(rows), Err(Error::Constraint)));

    let mut rows = empty_rows();
    rows.drives = vec![drive()];
    rows.folders = vec![folder("D1", "D1", "Team", None)];
    rows.files = vec![file("f", "D1", "f", "D1"), file("f", "D1", "f", "D1")];
    assert!(matches!(Store::restore(rows), Err(Error::Constraint)));

    let mut rows = empty_rows();
    rows.folder_changelog = vec![
        FolderChangelog::record(&folder("A", "D1", "a", None), false),
        FolderChangelog::record(&folder("A", "D1", "a", None), true),
    ];
    assert!(matches!(Store::restore(rows), Err(Error::Constraint)));

    let mut rows = empty_rows();
    rows.file_changelog = vec![
        FileChangelog::record(&file("f", "D1", "f", "A"), false),
        FileChangelog::record(&file("f", "D1", "g", "B"), false),
    ];
    assert!(matches!(Transaction::from_rows(rows), Err(Error::Constraint)));
}

#[test]
fn rows_that_refer_to_nothing_are_not_restored() {
    let mut rows = empty_rows();
    rows.folders = vec![folder("D1", "D1", "Team", None)];
    assert!(matches!(Store::restore(rows), Err(Error::DataIntegrity)));

    let mut rows = empty_rows();
    rows.drives = vec![Drive { id: "D1".to_string(), page_token: "t0".to_string() }];
    rows.folders = vec![folder("A", "D1", "a", Some("D1"))];
    assert!(matches!(Store::restore(rows), Err(Error::DataIntegrity)));

    let mut rows = empty_rows();
    rows.drives = vec![Drive { id: "D1".to_string(), page_token: "t0".to_string() }];
    rows.folders = vec![folder("D1", "D1", "Team", None)];
    rows.files = vec![file("f", "D1", "f", "A")];
    assert!(matches!(Store::restore(rows), Err(Error::DataIntegrity)));

    // The changelog may tell of what is gone.
    let mut rows = empty_rows();
    rows.folder_changelog = vec![FolderChangelog::record(&folder("A", "D9", "a", None), true)];
    let store = Store::restore(rows).unwrap();
    assert_eq!(get_changed_folders("D9", &store).unwrap().len(), 1);
}
