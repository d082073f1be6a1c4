//! Pages of changes and what they do to the rows.

use bernard::database::{
    add_drive, clear_changelog, get_changed_files, get_changed_folders, get_drive, get_file,
    get_folder, merge_changes, Error, Store,
};
use bernard::fetch::{Change, Item, PartialDrive};
use bernard::{ChangedFile, ChangedFolder, File, Folder};

fn folder(id: &str, drive: &str, name: &str, parent: Option<&str>) -> Folder {
    Folder {
        id: id.to_string(),
        drive_id: drive.to_string(),
        name: name.to_string(),
        trashed: false,
        parent: parent.map(|p| p.to_string()),
    }
}

fn file(id: &str, drive: &str, name: &str, parent: &str) -> File {
    File {
        id: id.to_string(),
        drive_id: drive.to_string(),
        name: name.to_string(),
        trashed: false,
        parent: parent.to_string(),
        md5: "abc".to_string(),
        size: 1,
        mime_type: "text/plain".to_string(),
    }
}

fn changed_folder(id: &str, name: &str, parent: &str) -> Change {
    Change::ItemChanged(Item::Folder(folder(id, "D1", name, Some(parent))))
}

fn changed_file(id: &str, name: &str, parent: &str) -> Change {
    Change::ItemChanged(Item::File(file(id, "D1", name, parent)))
}

fn removed(id: &str) -> Change {
    Change::ItemRemoved(id.to_string())
}

fn store_with_tree() -> Store {
    let mut store = Store::new();
    let items = vec![
        Item::Folder(folder("A", "D1", "a", Some("D1"))),
        Item::Folder(folder("B", "D1", "b", Some("A"))),
        Item::File(file("f", "D1", "f", "B")),
    ];
    add_drive("D1", "Team", "t0", items, &mut store).unwrap();
    clear_changelog("D1", &mut store).unwrap();
    store
}

fn token(store: &Store) -> String {
    get_drive("D1", store).unwrap().unwrap().page_token
}

#[test]
fn empty_page_moves_the_cursor_only() {
    let mut store = store_with_tree();
    merge_changes("D1", Vec::new(), "t1", &mut store).unwrap();
    assert_eq!(token(&store), "t1");
    assert_eq!(store.rows().folders.len(), 3);
    assert!(store.rows().folder_changelog.is_empty());
}

#[test]
fn last_word_on_an_item_counts() {
    let mut store = store_with_tree();
    let changes = vec![
        changed_folder("C", "first", "A"),
        changed_file("g", "first", "A"),
        changed_folder("C", "second", "B"),
        changed_file("g", "second", "C"),
    ];
    merge_changes("D1", changes, "t1", &mut store).unwrap();
    let c = get_folder("C", "D1", &store).unwrap().unwrap();
    assert_eq!((c.name.as_str(), c.parent.as_deref()), ("second", Some("B")));
    let g = get_file("g", "D1", &store).unwrap().unwrap();
    assert_eq!((g.name.as_str(), g.parent.as_str()), ("second", "C"));
    let folders = get_changed_folders("D1", &store).unwrap();
    assert_eq!(folders.len(), 1);
    assert!(matches!(&folders[0], ChangedFolder::Created(f) if f.name == "second"));
    let files = get_changed_files("D1", &store).unwrap();
    assert_eq!(files.len(), 1);
    assert!(matches!(&files[0], ChangedFile::Created(f) if f.name == "second"));
}

#[test]
fn written_and_then_removed_in_one_page() {
    let mut store = store_with_tree();
    let changes = vec![
        changed_folder("C", "c", "A"),
        changed_file("g", "g", "A"),
        removed("C"),
        removed("g"),
    ];
    merge_changes("D1", changes, "t1", &mut store).unwrap();
    assert!(get_folder("C", "D1", &store).unwrap().is_none());
    assert!(get_file("g", "D1", &store).unwrap().is_none());
    // Neither was ever there, so there is no deletion to tell of.
    assert!(get_changed_folders("D1", &store).unwrap().is_empty());
    assert!(get_changed_files("D1", &store).unwrap().is_empty());
}

#[test]
fn removed_and_then_written_in_one_page() {
    let mut store = store_with_tree();
    let changes = vec![removed("B"), changed_folder("B", "back", "A")];
    merge_changes("D1", changes, "t1", &mut store).unwrap();
    assert_eq!(get_folder("B", "D1", &store).unwrap().unwrap().name, "back");
    // The folder was never deleted, so the file in it is still there.
    assert!(get_file("f", "D1", &store).unwrap().is_some());
    let folders = get_changed_folders("D1", &store).unwrap();
    assert_eq!(folders.len(), 1);
    assert!(matches!(&folders[0], ChangedFolder::Created(f) if f.name == "back"));
}

#[test]
fn removal_of_an_id_that_was_never_seen_counts_as_a_folder() {
    let mut store = store_with_tree();
    merge_changes("D1", vec![removed("never")], "t1", &mut store).unwrap();
    assert_eq!(token(&store), "t1");
    assert_eq!(store.rows().folders.len(), 3);
    assert_eq!(store.rows().files.len(), 1);
    assert!(store.rows().folder_changelog.is_empty());
    assert!(store.rows().file_changelog.is_empty());
}

#[test]
fn removal_of_a_file_that_the_page_has_not_shown_misses_it() {
    let mut store = store_with_tree();
    merge_changes("D1", vec![removed("f")], "t1", &mut store).unwrap();
    assert!(get_file("f", "D1", &store).unwrap().is_some());
    assert!(get_changed_files("D1", &store).unwrap().is_empty());
}

#[test]
fn removal_of_a_file_that_the_page_has_shown_deletes_it() {
    let mut store = store_with_tree();
    merge_changes("D1", vec![changed_file("f", "f", "B"), removed("f")], "t1", &mut store)
        .unwrap();
    assert!(get_file("f", "D1", &store).unwrap().is_none());
    let files = get_changed_files("D1", &store).unwrap();
    assert_eq!(files.len(), 1);
    assert!(matches!(&files[0], ChangedFile::Deleted(f) if f.id == "f"));
    assert!(get_changed_folders("D1", &store).unwrap().is_empty());
}

#[test]
fn moved_item_leaves_where_the_page_has_its_id() {
    // The page has shown `B` as a file, so the folder `B` that moves away is
    // looked for among the files, and stays.
    let mut store = store_with_tree();
    let changes = vec![
        changed_file("B", "a file with the id of a folder", "A"),
        Change::ItemChanged(Item::Folder(folder("B", "D2", "b", Some("D2")))),
    ];
    merge_changes("D1", changes, "t1", &mut store).unwrap();
    assert!(get_folder("B", "D1", &store).unwrap().is_some());
    assert!(get_file("B", "D1", &store).unwrap().is_none());

    // The page has shown `f` as a folder, so the file `f` that moves away is
    // looked for among the folders, and stays.
    let mut store = store_with_tree();
    let changes = vec![
        changed_folder("f", "a folder with the id of a file", "A"),
        Change::ItemChanged(Item::File(file("f", "D2", "f", "X"))),
    ];
    merge_changes("D1", changes, "t1", &mut store).unwrap();
    assert!(get_file("f", "D1", &store).unwrap().is_some());
    assert!(get_folder("f", "D1", &store).unwrap().is_none());

    // The page has not shown the ids before: each leaves as what it is.
    let mut store = store_with_tree();
    let changes = vec![
        Change::ItemChanged(Item::File(file("f", "D2", "f", "X"))),
        Change::ItemChanged(Item::Folder(folder("A", "D2", "a", Some("D2")))),
    ];
    merge_changes("D1", changes, "t1", &mut store).unwrap();
    assert!(get_file("f", "D1", &store).unwrap().is_none());
    assert!(get_folder("A", "D1", &store).unwrap().is_none());
    assert!(get_folder("B", "D1", &store).unwrap().is_none());
    let folders = get_changed_folders("D1", &store).unwrap();
    assert_eq!(folders.len(), 1);
    assert!(matches!(&folders[0], ChangedFolder::Deleted(f) if f.id == "A"));
    // The folder of the file went, and the file with it, before the turn of
    // the file came.
    assert!(get_changed_files("D1", &store).unwrap().is_empty());
}

#[test]
fn id_shown_as_folder_and_as_file() {
    let mut store = store_with_tree();
    let changes = vec![
        changed_folder("x", "as a folder", "A"),
        changed_file("x", "as a file", "A"),
        removed("x"),
    ];
    merge_changes("D1", changes, "t1", &mut store).unwrap();
    // The removal goes to the files, where the page has the id; the folder
    // of the same id stays.
    assert!(get_folder("x", "D1", &store).unwrap().is_some());
    assert!(get_file("x", "D1", &store).unwrap().is_none());
}

#[test]
fn folders_are_applied_in_the_order_of_their_first_mention() {
    let mut store = store_with_tree();
    // `C` is named first, so it is written first, and the removal of `A`
    // takes it away again.
    let changes = vec![changed_folder("C", "c", "A"), removed("A")];
    merge_changes("D1", changes, "t1", &mut store).unwrap();
    assert!(get_folder("C", "D1", &store).unwrap().is_none());
    assert!(get_folder("A", "D1", &store).unwrap().is_none());
    let folders = get_changed_folders("D1", &store).unwrap();
    assert_eq!(folders.len(), 2);
    assert!(matches!(&folders[0], ChangedFolder::Created(f) if f.id == "C"));
    assert!(matches!(&folders[1], ChangedFolder::Deleted(f) if f.id == "A"));

    // The other way round `C` is left hanging from a folder that is gone.
    let mut store = store_with_tree();
    let changes = vec![removed("A"), changed_folder("C", "c", "A")];
    assert_eq!(merge_changes("D1", changes, "t1", &mut store), Err(Error::DataIntegrity));
    assert_eq!(token(&store), "t0");
    assert!(get_folder("A", "D1", &store).unwrap().is_some());
}

#[test]
fn files_are_applied_after_the_folders() {
    let mut store = store_with_tree();
    let changes = vec![changed_file("g", "g", "N"), changed_folder("N", "n", "A")];
    merge_changes("D1", changes, "t1", &mut store).unwrap();
    assert_eq!(get_file("g", "D1", &store).unwrap().unwrap().parent, "N");

    let mut store = store_with_tree();
    let changes = vec![changed_file("f", "moved", "A"), removed("B")];
    merge_changes("D1", changes, "t1", &mut store).unwrap();
    // `B` goes with the file in it; then the file is written into `A`.
    let f = get_file("f", "D1", &store).unwrap().unwrap();
    assert_eq!((f.name.as_str(), f.parent.as_str()), ("moved", "A"));
}

#[test]
fn drive_changes() {
    let mut store = store_with_tree();
    let changes = vec![
        Change::DriveChanged(PartialDrive { id: "D1".to_string(), name: "One".to_string() }),
        Change::DriveRemoved("D1".to_string()),
        Change::DriveChanged(PartialDrive { id: "other".to_string(), name: "Two".to_string() }),
    ];
    merge_changes("D1", changes, "t1", &mut store).unwrap();
    // The removal of the drive is not acted on, and the name goes to the
    // top folder of the drive that was asked about.
    assert!(get_drive("D1", &store).unwrap().is_some());
    assert_eq!(get_folder("D1", "D1", &store).unwrap().unwrap().name, "Two");
    let folders = get_changed_folders("D1", &store).unwrap();
    assert_eq!(folders.len(), 1);
    assert!(matches!(&folders[0], ChangedFolder::Created(f) if f.id == "D1" && f.name == "Two"));
}

#[test]
fn rename_of_a_drive_without_a_top_folder() {
    let mut store = store_with_tree();
    merge_changes("D1", vec![removed("D1")], "t1", &mut store).unwrap();
    assert!(store.rows().folders.is_empty());
    let changes =
        vec![Change::DriveChanged(PartialDrive { id: "D1".to_string(), name: "X".to_string() })];
    merge_changes("D1", changes, "t2", &mut store).unwrap();
    assert!(store.rows().folders.is_empty());
    assert_eq!(store.rows().folder_changelog.len(), 1);
    assert!(store.rows().folder_changelog[0].deleted);
    assert_eq!(token(&store), "t2");
}

#[test]
fn changelog_gathers_over_pages_until_it_is_cleared() {
    let mut store = store_with_tree();
    merge_changes("D1", vec![changed_folder("C", "c", "A")], "t1", &mut store).unwrap();
    merge_changes("D1", vec![changed_folder("E", "e", "A")], "t2", &mut store).unwrap();
    merge_changes("D1", vec![removed("C")], "t3", &mut store).unwrap();
    let folders = get_changed_folders("D1", &store).unwrap();
    assert_eq!(folders.len(), 2);
    assert!(matches!(&folders[0], ChangedFolder::Created(f) if f.id == "E"));
    assert!(matches!(&folders[1], ChangedFolder::Deleted(f) if f.id == "C"));
    clear_changelog("D1", &mut store).unwrap();
    assert!(get_changed_folders("D1", &store).unwrap().is_empty());
}

#[test]
fn trashed_items_stay() {
    let mut store = store_with_tree();
    let mut b = folder("B", "D1", "b", Some("A"));
    b.trashed = true;
    merge_changes("D1", vec![Change::ItemChanged(Item::Folder(b))], "t1", &mut store).unwrap();
    assert!(get_folder("B", "D1", &store).unwrap().unwrap().trashed);
    assert!(get_file("f", "D1", &store).unwrap().is_some());
}

#[test]
fn page_of_removals_is_never_refused() {
    let mut store = store_with_tree();
    let changes = vec![
        removed("B"),
        Change::ItemChanged(Item::File(file("f", "D9", "f", "X"))),
        removed("nothing"),
        Change::DriveChanged(PartialDrive { id: "D1".to_string(), name: "New".to_string() }),
        Change::ItemChanged(Item::Folder(folder("A", "D9", "a", Some("D9")))),
        removed("D1"),
    ];
    merge_changes("D1", changes, "t1", &mut store).unwrap();
    assert_eq!(token(&store), "t1");
    assert!(store.rows().folders.is_empty());
    assert!(store.rows().files.is_empty());
    assert!(store.begin().check());
}

#[test]
fn page_of_one_item_in_a_folder_that_is_there() {
    let mut store = store_with_tree();
    let other = vec![Item::Folder(folder("K", "D2", "k", Some("D2")))];
    add_drive("D2", "Other", "u0", other, &mut store).unwrap();
    let of_other = |store: &Store| -> Vec<String> {
        let rows = store.rows();
        rows.folders.iter().filter(|f| f.drive_id == "D2").map(|f| format!("{:?}", f)).collect()
    };
    let before = of_other(&store);
    merge_changes("D1", vec![changed_file("g", "g", "B")], "t1", &mut store).unwrap();
    merge_changes("D1", vec![changed_folder("C", "c", "B")], "t2", &mut store).unwrap();
    let g = get_file("g", "D1", &store).unwrap().unwrap();
    assert_eq!((g.name.as_str(), g.parent.as_str()), ("g", "B"));
    assert_eq!(get_folder("C", "D1", &store).unwrap().unwrap().parent.as_deref(), Some("B"));
    assert_eq!(token(&store), "t2");
    // The rows of the other drive are not touched.
    assert_eq!(before, of_other(&store));
    assert_eq!(before.len(), 2);
    assert_eq!(get_drive("D2", &store).unwrap().unwrap().page_token, "u0");
}

#[test]
fn torn_page_with_more_in_it() {
    let mut store = store_with_tree();
    let before = format!("{:?}", store.rows());
    let changes = vec![
        changed_folder("C", "c", "A"),
        changed_file("g", "g", "Z"),
        removed("B"),
        Change::DriveChanged(PartialDrive { id: "D1".to_string(), name: "New".to_string() }),
    ];
    assert_eq!(merge_changes("D1", changes, "t1", &mut store), Err(Error::DataIntegrity));
    assert_eq!(format!("{:?}", store.rows()), before);

    // The page's last word on the file is its removal: the page is whole.
    let changes = vec![changed_file("g", "g", "Z"), removed("g")];
    merge_changes("D1", changes, "t1", &mut store).unwrap();
    assert_eq!(token(&store), "t1");
}

#[test]
fn item_changes() {
    let item = Item::Folder(folder("A", "D1", "a", None));
    assert_eq!(item.drive_id(), "D1");
    assert_eq!(item.into_id(), "A");
    let item = Item::File(file("f", "D2", "f", "A"));
    assert_eq!(item.drive_id(), "D2");
    assert_eq!(item.into_id(), "f");
}
