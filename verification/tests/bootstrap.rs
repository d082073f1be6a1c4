//! Filling a new drive from a listing.

use bernard::database::{add_drive, get_file, get_folder, Error, Store};
use bernard::fetch::Item;
use bernard::{File, Folder};

fn folder(id: &str, drive: &str, name: &str, parent: Option<&str>) -> Folder {
    Folder {
        id: id.to_string(),
        drive_id: drive.to_string(),
        name: name.to_string(),
        trashed: false,
        parent: parent.map(|p| p.to_string()),
    }
}

fn file(id: &str, drive: &str, name: &str, parent: &str) -> File {
    File {
        id: id.to_string(),
        drive_id: drive.to_string(),
        name: name.to_string(),
        trashed: false,
        parent: parent.to_string(),
        md5: "d41d8cd98f00b204e9800998ecf8427e".to_string(),
        size: 0,
        mime_type: "application/octet-stream".to_string(),
    }
}

fn has_folder(store: &Store, id: &str, parent: Option<&str>) -> bool {
    match get_folder(id, "D1", store).unwrap() {
        Some(f) => f.parent.as_deref() == parent,
        None => false,
    }
}

fn chain() -> Vec<Item> {
    vec![
        Item::Folder(folder("A", "D1", "a", Some("D1"))),
        Item::Folder(folder("B", "D1", "b", Some("A"))),
        Item::Folder(folder("C", "D1", "c", Some("B"))),
        Item::Folder(folder("D", "D1", "d", Some("C"))),
        Item::Folder(folder("E", "D1", "e", Some("A"))),
        Item::File(file("f", "D1", "f", "D")),
        Item::File(file("g", "D1", "g", "D1")),
    ]
}

fn check_chain(store: &Store) {
    assert!(has_folder(store, "D1", None));
    assert!(has_folder(store, "A", Some("D1")));
    assert!(has_folder(store, "B", Some("A")));
    assert!(has_folder(store, "C", Some("B")));
    assert!(has_folder(store, "D", Some("C")));
    assert!(has_folder(store, "E", Some("A")));
    assert_eq!(get_file("f", "D1", store).unwrap().unwrap().parent, "D");
    assert_eq!(get_file("g", "D1", store).unwrap().unwrap().parent, "D1");
    let rows = store.rows();
    assert_eq!(rows.folders.len(), 6);
    assert_eq!(rows.files.len(), 2);
}

#[test]
fn tree_in_the_order_of_the_parents() {
    let mut store = Store::new();
    add_drive("D1", "Team", "t0", chain(), &mut store).unwrap();
    check_chain(&store);
}

#[test]
fn tree_with_the_children_first() {
    let mut items = chain();
    items.reverse();
    let mut store = Store::new();
    add_drive("D1", "Team", "t0", items, &mut store).unwrap();
    check_chain(&store);
}

#[test]
fn tree_in_a_mixed_order() {
    let all = chain();
    let mut items = Vec::new();
    for (n, item) in all.into_iter().enumerate() {
        if n % 2 == 0 {
            items.push(item);
        } else {
            items.insert(0, item);
        }
    }
    let mut store = Store::new();
    add_drive("D1", "Team", "t0", items, &mut store).unwrap();
    check_chain(&store);
}

fn sorted_rows(store: &Store) -> (Vec<String>, Vec<String>, Vec<String>) {
    let rows = store.rows();
    let mut drives: Vec<String> = rows.drives.iter().map(|r| format!("{:?}", r)).collect();
    let mut folders: Vec<String> = rows.folders.iter().map(|r| format!("{:?}", r)).collect();
    let mut files: Vec<String> = rows.files.iter().map(|r| format!("{:?}", r)).collect();
    drives.sort();
    folders.sort();
    files.sort();
    (drives, folders, files)
}

#[test]
fn listings_in_another_order_leave_the_same_rows() {
    let with_orphans = || {
        let mut items = chain();
        items.push(Item::Folder(folder("O", "D1", "orphan", Some("nowhere"))));
        items.push(Item::Folder(folder("P", "D1", "below", Some("O"))));
        items.push(Item::Folder(folder("N", "D1", "no parent", None)));
        items.push(Item::File(file("x", "D1", "x", "P")));
        items
    };
    let mut one = Store::new();
    add_drive("D1", "Team", "t0", with_orphans(), &mut one).unwrap();
    let mut items = with_orphans();
    items.reverse();
    let mut other = Store::new();
    add_drive("D1", "Team", "t0", items, &mut other).unwrap();
    let mut items = with_orphans();
    items.rotate_left(4);
    items.swap(0, 5);
    let mut third = Store::new();
    add_drive("D1", "Team", "t0", items, &mut third).unwrap();
    assert_eq!(sorted_rows(&one), sorted_rows(&other));
    assert_eq!(sorted_rows(&one), sorted_rows(&third));
    assert_eq!(sorted_rows(&one).1.len(), 6);
    assert_eq!(sorted_rows(&one).2.len(), 2);
}

#[test]
fn parents_are_written_before_their_children() {
    let mut items = chain();
    items.reverse();
    let mut store = Store::new();
    add_drive("D1", "Team", "t0", items, &mut store).unwrap();
    // The changelog keeps the order of writing.
    let log = store.rows().folder_changelog;
    let seat = |id: &str| log.iter().position(|r| r.id == id).unwrap();
    assert!(seat("D1") < seat("A"));
    assert!(seat("A") < seat("B"));
    assert!(seat("B") < seat("C"));
    assert!(seat("C") < seat("D"));
    assert!(seat("A") < seat("E"));
    assert!(log.iter().all(|r| !r.deleted));
    assert_eq!(log.len(), 6);
    assert_eq!(store.rows().file_changelog.len(), 2);
}

#[test]
fn orphans_are_left_out() {
    let items = vec![
        Item::Folder(folder("A", "D1", "a", Some("D1"))),
        Item::Folder(folder("O", "D1", "orphan", Some("nowhere"))),
        Item::Folder(folder("P", "D1", "below the orphan", Some("O"))),
        Item::Folder(folder("Q", "D1", "further below", Some("P"))),
        Item::Folder(folder("B", "D1", "b", Some("A"))),
        Item::File(file("f", "D1", "in the tree", "B")),
        Item::File(file("x", "D1", "in the orphan", "O")),
        Item::File(file("y", "D1", "below the orphan", "Q")),
        Item::File(file("z", "D1", "in no folder of the listing", "elsewhere")),
    ];
    let mut store = Store::new();
    add_drive("D1", "Team", "t0", items, &mut store).unwrap();

    assert!(has_folder(&store, "A", Some("D1")));
    assert!(has_folder(&store, "B", Some("A")));
    assert!(get_folder("O", "D1", &store).unwrap().is_none());
    assert!(get_folder("P", "D1", &store).unwrap().is_none());
    assert!(get_folder("Q", "D1", &store).unwrap().is_none());
    assert!(get_file("f", "D1", &store).unwrap().is_some());
    assert!(get_file("x", "D1", &store).unwrap().is_none());
    assert!(get_file("y", "D1", &store).unwrap().is_none());
    assert!(get_file("z", "D1", &store).unwrap().is_none());
    assert_eq!(store.rows().folders.len(), 3);
    assert_eq!(store.rows().files.len(), 1);
}

#[test]
fn folders_in_a_circle_are_orphans() {
    let items = vec![
        Item::Folder(folder("A", "D1", "a", Some("B"))),
        Item::Folder(folder("B", "D1", "b", Some("A"))),
        Item::Folder(folder("S", "D1", "its own parent", Some("S"))),
        Item::Folder(folder("C", "D1", "c", Some("D1"))),
    ];
    let mut store = Store::new();
    add_drive("D1", "Team", "t0", items, &mut store).unwrap();
    assert!(get_folder("A", "D1", &store).unwrap().is_none());
    assert!(get_folder("B", "D1", &store).unwrap().is_none());
    assert!(get_folder("S", "D1", &store).unwrap().is_none());
    assert!(has_folder(&store, "C", Some("D1")));
}

#[test]
fn folder_without_a_parent_is_an_orphan() {
    let items = vec![
        Item::Folder(folder("A", "D1", "a", None)),
        Item::Folder(folder("B", "D1", "b", Some("A"))),
        Item::File(file("f", "D1", "f", "A")),
        Item::Folder(folder("C", "D1", "c", Some("D1"))),
    ];
    let mut store = Store::new();
    add_drive("D1", "Team", "t0", items, &mut store).unwrap();
    assert!(get_folder("A", "D1", &store).unwrap().is_none());
    assert!(get_folder("B", "D1", &store).unwrap().is_none());
    assert!(get_file("f", "D1", &store).unwrap().is_none());
    assert!(has_folder(&store, "C", Some("D1")));
    // The top folder is the only folder of the drive without a parent.
    let rows = store.rows();
    let tops: Vec<&Folder> = rows.folders.iter().filter(|f| f.parent.is_none()).collect();
    assert_eq!(tops.len(), 1);
    assert_eq!(tops[0].id, "D1");
    assert_eq!(tops[0].name, "Team");
    assert!(!tops[0].trashed);
    assert_eq!(rows.folders.len(), 2);
}

#[test]
fn listing_of_one_folder_without_a_parent() {
    let mut store = Store::new();
    let items = vec![Item::Folder(folder("G", "D1", "g", None))];
    add_drive("D1", "Team", "t0", items, &mut store).unwrap();
    let rows = store.rows();
    assert_eq!(rows.folders.len(), 1);
    assert_eq!(rows.folders[0].id, "D1");
    assert_eq!(rows.folders[0].parent, None);
}

#[test]
fn folder_listed_twice_counts_as_listed_last() {
    let items = vec![
        Item::Folder(folder("A", "D1", "first", Some("nowhere"))),
        Item::Folder(folder("B", "D1", "b", Some("A"))),
        Item::Folder(folder("A", "D1", "second", Some("D1"))),
    ];
    let mut store = Store::new();
    add_drive("D1", "Team", "t0", items, &mut store).unwrap();
    let a = get_folder("A", "D1", &store).unwrap().unwrap();
    assert_eq!(a.name, "second");
    assert_eq!(a.parent.as_deref(), Some("D1"));
    assert!(has_folder(&store, "B", Some("A")));
    assert_eq!(store.rows().folders.len(), 3);
}

#[test]
fn file_listed_twice_is_refused() {
    let items = vec![
        Item::Folder(folder("A", "D1", "a", Some("D1"))),
        Item::File(file("f", "D1", "f", "A")),
        Item::File(file("f", "D1", "f again", "A")),
    ];
    let mut store = Store::new();
    assert_eq!(add_drive("D1", "Team", "t0", items, &mut store), Err(Error::Constraint));
    // Nothing of the drive is kept.
    let rows = store.rows();
    assert!(rows.drives.is_empty());
    assert!(rows.folders.is_empty());
    assert!(rows.files.is_empty());
    assert!(rows.folder_changelog.is_empty());
}

#[test]
fn file_listed_twice_outside_the_tree_does_no_harm() {
    let items = vec![
        Item::File(file("f", "D1", "f", "nowhere")),
        Item::File(file("f", "D1", "f again", "nowhere")),
    ];
    let mut store = Store::new();
    add_drive("D1", "Team", "t0", items, &mut store).unwrap();
    assert!(store.rows().files.is_empty());
}

#[test]
fn folder_with_the_id_of_the_drive_is_refused() {
    let items = vec![Item::Folder(folder("D1", "D1", "again", Some("D1")))];
    let mut store = Store::new();
    assert_eq!(add_drive("D1", "Team", "t0", items, &mut store), Err(Error::Constraint));
    assert!(store.rows().drives.is_empty());
}

#[test]
fn drive_that_is_followed_is_refused() {
    let mut store = Store::new();
    add_drive("D1", "Team", "t0", Vec::new(), &mut store).unwrap();
    let items = vec![Item::Folder(folder("A", "D1", "a", Some("D1")))];
    assert_eq!(add_drive("D1", "Team", "t1", items, &mut store), Err(Error::Constraint));
    let rows = store.rows();
    assert_eq!(rows.drives.len(), 1);
    assert_eq!(rows.drives[0].page_token, "t0");
    assert_eq!(rows.folders.len(), 1);
}

#[test]
fn item_of_a_drive_that_is_not_followed_is_refused() {
    let items = vec![Item::Folder(folder("A", "D7", "a", Some("D1")))];
    let mut store = Store::new();
    assert_eq!(add_drive("D1", "Team", "t0", items, &mut store), Err(Error::DataIntegrity));
    assert!(store.rows().drives.is_empty());
    assert!(store.rows().folders.is_empty());
}

#[test]
fn second_drive_leaves_the_first_alone() {
    let mut store = Store::new();
    add_drive("D1", "Team", "t0", chain(), &mut store).unwrap();
    let items = vec![
        Item::Folder(folder("A", "D2", "same id, other drive", Some("D2"))),
        Item::File(file("f", "D2", "f", "A")),
    ];
    add_drive("D2", "Other", "u0", items, &mut store).unwrap();
    check_chain_of_first(&store);
    let a = get_folder("A", "D2", &store).unwrap().unwrap();
    assert_eq!(a.name, "same id, other drive");
    assert_eq!(get_file("f", "D2", &store).unwrap().unwrap().parent, "A");
}

fn check_chain_of_first(store: &Store) {
    assert!(has_folder(store, "A", Some("D1")));
    assert!(has_folder(store, "D", Some("C")));
    assert_eq!(get_file("f", "D1", store).unwrap().unwrap().parent, "D");
    assert_eq!(store.rows().folders.iter().filter(|f| f.drive_id == "D1").count(), 6);
}
