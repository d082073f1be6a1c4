//! The paths that the changelog reports.

use bernard::auth::Account;
use bernard::database::{get_changed_paths, merge_changes, Store};
use bernard::fetch::{Change, Item, PartialDrive};
use bernard::model::path::PathChangelog;
use bernard::model::InnerPath;
use bernard::{
    Bernard, BernardBuilder, ChangedFile, ChangedFolder, ChangedPath, Fetched, File, Folder, Path,
};

fn mirror() -> Bernard {
    let account = Account {
        client_email: "mirror@example.test".to_string(),
        private_key: "no key".to_string(),
        token_uri: "https://oauth2.example.test/token".to_string(),
    };
    BernardBuilder::new("mirror.db", &account).build(Store::new())
}

fn folder(id: &str, name: &str, parent: Option<&str>) -> Folder {
    Folder {
        id: id.to_string(),
        drive_id: "D1".to_string(),
        name: name.to_string(),
        trashed: false,
        parent: parent.map(|p| p.to_string()),
    }
}

fn file(id: &str, name: &str, parent: &str) -> File {
    File {
        id: id.to_string(),
        drive_id: "D1".to_string(),
        name: name.to_string(),
        trashed: false,
        parent: parent.to_string(),
        md5: "abc".to_string(),
        size: 7,
        mime_type: "text/plain".to_string(),
    }
}

fn tree() -> Bernard {
    let mut bernard = mirror();
    let items = vec![
        Item::Folder(folder("A", "Alpha", Some("D1"))),
        Item::Folder(folder("B", "Beta", Some("A"))),
        Item::File(file("f", "notes.txt", "B")),
    ];
    bernard.add_drive("D1", "Team", "t0", items).unwrap();
    bernard
}

fn page(changes: Vec<Change>, token: &str) -> Fetched {
    Fetched::Changes { changes, page_token: token.to_string() }
}

fn inner(path: &ChangedPath) -> (&'static str, &'static str, &InnerPath) {
    match path {
        ChangedPath::Created(Path::File(i)) => ("created", "file", i),
        ChangedPath::Created(Path::Folder(i)) => ("created", "folder", i),
        ChangedPath::Deleted(Path::File(i)) => ("deleted", "file", i),
        ChangedPath::Deleted(Path::Folder(i)) => ("deleted", "folder", i),
    }
}

fn find<'a>(paths: &'a [ChangedPath], id: &str) -> (&'static str, &'static str, &'a InnerPath) {
    paths.iter().map(inner).find(|(_, _, i)| i.id == id).unwrap()
}

#[test]
fn path_is_the_names_from_the_top_folder_down() {
    let mut bernard = tree();
    let changes = vec![
        Change::ItemChanged(Item::File(file("f", "notes.txt", "B"))),
        Change::ItemChanged(Item::Folder(folder("B", "Beta", Some("A")))),
        Change::ItemChanged(Item::Folder(folder("A", "Alpha", Some("D1")))),
        Change::ItemChanged(Item::File(file("g", "top.txt", "D1"))),
    ];
    bernard.sync_drive("D1", page(changes, "t1")).unwrap();
    let paths = bernard.get_changed_paths("D1").unwrap();
    assert_eq!(paths.len(), 4);
    let (what, kind, f) = find(&paths, "f");
    assert_eq!((what, kind), ("created", "file"));
    assert_eq!(f.path, "Team/Alpha/Beta/notes.txt");
    assert_eq!(f.drive_id, "D1");
    let (what, kind, b) = find(&paths, "B");
    assert_eq!((what, kind), ("created", "folder"));
    assert_eq!(b.path, "Team/Alpha/Beta");
    assert_eq!(find(&paths, "A").2.path, "Team/Alpha");
    assert_eq!(find(&paths, "g").2.path, "Team/top.txt");
}

#[test]
fn folders_come_before_files_in_the_order_of_writing() {
    let mut bernard = tree();
    let changes = vec![
        Change::ItemChanged(Item::File(file("f", "notes.txt", "B"))),
        Change::ItemChanged(Item::Folder(folder("B", "Beta", Some("A")))),
        Change::ItemChanged(Item::Folder(folder("A", "Alpha", Some("D1")))),
    ];
    bernard.sync_drive("D1", page(changes, "t1")).unwrap();
    let paths = bernard.get_changed_paths("D1").unwrap();
    let ids: Vec<&str> = paths.iter().map(|p| inner(p).2.id.as_str()).collect();
    assert_eq!(ids, vec!["B", "A", "f"]);
}

#[test]
fn path_of_the_top_folder_is_its_name() {
    let mut bernard = tree();
    let changes = vec![Change::DriveChanged(PartialDrive {
        id: "D1".to_string(),
        name: "Crew".to_string(),
    })];
    bernard.sync_drive("D1", page(changes, "t1")).unwrap();
    let paths = bernard.get_changed_paths("D1").unwrap();
    assert_eq!(paths.len(), 1);
    let (what, kind, root) = inner(&paths[0]);
    assert_eq!((what, kind), ("created", "folder"));
    assert_eq!(root.id, "D1");
    assert_eq!(root.path, "Crew");
}

#[test]
fn new_name_of_the_drive_leads_every_path() {
    let mut bernard = tree();
    let changes = vec![
        Change::DriveChanged(PartialDrive { id: "D1".to_string(), name: "Old".to_string() }),
        Change::ItemChanged(Item::File(file("f", "notes.txt", "B"))),
        Change::DriveChanged(PartialDrive { id: "D1".to_string(), name: "Crew".to_string() }),
        Change::ItemChanged(Item::Folder(folder("C", "Gamma", Some("B")))),
    ];
    bernard.sync_drive("D1", page(changes, "t1")).unwrap();
    let paths = bernard.get_changed_paths("D1").unwrap();
    assert_eq!(find(&paths, "D1").2.path, "Crew");
    assert_eq!(find(&paths, "f").2.path, "Crew/Alpha/Beta/notes.txt");
    assert_eq!(find(&paths, "C").2.path, "Crew/Alpha/Beta/Gamma");

    // And it stays so for the pages that follow.
    let later = vec![Change::ItemChanged(Item::File(file("g", "g.txt", "A")))];
    bernard.sync_drive("D1", page(later, "t2")).unwrap();
    let paths = bernard.get_changed_paths("D1").unwrap();
    assert_eq!(paths.len(), 1);
    assert_eq!(find(&paths, "g").2.path, "Crew/Alpha/g.txt");
}

#[test]
fn deleted_folder_is_reported_alone_with_the_path_it_had() {
    let mut bernard = tree();
    let changes = vec![Change::ItemRemoved("A".to_string())];
    bernard.sync_drive("D1", page(changes, "t1")).unwrap();
    let paths = bernard.get_changed_paths("D1").unwrap();
    assert_eq!(paths.len(), 1);
    let (what, kind, a) = inner(&paths[0]);
    assert_eq!((what, kind), ("deleted", "folder"));
    assert_eq!(a.id, "A");
    assert_eq!(a.path, "Team/Alpha");
}

#[test]
fn row_whose_folder_is_gone_has_no_path() {
    let mut bernard = tree();
    // `B` is told to be deleted before `A`, and `f` before both: when the
    // paths are asked for, the folder of `B` and the folder of `f` are gone.
    let changes = vec![
        Change::ItemChanged(Item::File(file("f", "notes.txt", "B"))),
        Change::ItemRemoved("f".to_string()),
        Change::ItemRemoved("B".to_string()),
        Change::ItemRemoved("A".to_string()),
    ];
    bernard.sync_drive("D1", page(changes, "t1")).unwrap();
    assert_eq!(bernard.get_changed_folders("D1").unwrap().len(), 2);
    let paths = bernard.get_changed_paths("D1").unwrap();
    assert_eq!(paths.len(), 1);
    assert_eq!(inner(&paths[0]).2.id, "A");
    let pairs = bernard.get_changed_folders_paths("D1").unwrap();
    assert_eq!(pairs.len(), 1);
    assert!(matches!(&pairs[0].0, ChangedFolder::Deleted(f) if f.id == "A"));
    assert_eq!(pairs[0].1, "Team/Alpha");
}

#[test]
fn rows_in_a_circle_have_no_path() {
    let mut bernard = tree();
    let changes = vec![
        Change::ItemChanged(Item::Folder(folder("A", "Alpha", Some("B")))),
        Change::ItemChanged(Item::File(file("f", "notes.txt", "B"))),
        Change::ItemChanged(Item::Folder(folder("C", "Gamma", Some("D1")))),
    ];
    // Every parent is there, so the page is whole; but `A` and `B` now hang
    // from each other and from nothing else.
    bernard.sync_drive("D1", page(changes, "t1")).unwrap();
    assert_eq!(bernard.get_changed_folders("D1").unwrap().len(), 2);
    assert_eq!(bernard.get_changed_files("D1").unwrap().len(), 1);
    let paths = bernard.get_changed_paths("D1").unwrap();
    assert_eq!(paths.len(), 1);
    assert_eq!(inner(&paths[0]).2.path, "Team/Gamma");
    assert!(bernard.get_changed_files_paths("D1").unwrap().is_empty());
}

#[test]
fn only_the_top_folder_of_the_drive_begins_a_path() {
    let mut bernard = tree();
    // A page may bring a second folder without a parent; nothing in it or
    // below it, nor the folder itself, has a path.
    let changes = vec![
        Change::ItemChanged(Item::Folder(folder("S", "Stray", None))),
        Change::ItemChanged(Item::Folder(folder("T", "below", Some("S")))),
        Change::ItemChanged(Item::File(file("s", "stray.txt", "T"))),
        Change::ItemChanged(Item::File(file("g", "kept.txt", "A"))),
    ];
    bernard.sync_drive("D1", page(changes, "t1")).unwrap();
    assert_eq!(bernard.get_changed_folders("D1").unwrap().len(), 2);
    assert_eq!(bernard.get_changed_files("D1").unwrap().len(), 2);
    let paths = bernard.get_changed_paths("D1").unwrap();
    assert_eq!(paths.len(), 1);
    assert_eq!(inner(&paths[0]).2.id, "g");
    assert_eq!(inner(&paths[0]).2.path, "Team/Alpha/kept.txt");
    assert!(bernard.get_changed_folders_paths("D1").unwrap().is_empty());
    let files = bernard.get_changed_files_paths("D1").unwrap();
    assert_eq!(files.len(), 1);
    assert_eq!(files[0].1, "Team/Alpha/kept.txt");
}

#[test]
fn top_folder_that_has_a_parent_begins_no_path() {
    let mut bernard = tree();
    let changes = vec![
        Change::ItemChanged(Item::Folder(folder("D1", "Team", Some("A")))),
        Change::ItemChanged(Item::File(file("f", "notes.txt", "B"))),
    ];
    bernard.sync_drive("D1", page(changes, "t1")).unwrap();
    assert!(bernard.get_changed_paths("D1").unwrap().is_empty());
}

#[test]
fn of_two_rows_with_one_path_the_later_is_reported() {
    let mut bernard = tree();
    // The folder `B` goes and the folder `N` comes with the same name in the
    // same place.
    let changes = vec![
        Change::ItemRemoved("B".to_string()),
        Change::ItemChanged(Item::Folder(folder("N", "Beta", Some("A")))),
    ];
    bernard.sync_drive("D1", page(changes, "t1")).unwrap();
    assert_eq!(bernard.get_changed_folders("D1").unwrap().len(), 2);
    let paths = bernard.get_changed_paths("D1").unwrap();
    assert_eq!(paths.len(), 1);
    let (what, kind, n) = inner(&paths[0]);
    assert_eq!((what, kind), ("created", "folder"));
    assert_eq!(n.id, "N");
    assert_eq!(n.path, "Team/Alpha/Beta");

    // The other way round the deletion is the later.
    let mut bernard = tree();
    let changes = vec![
        Change::ItemChanged(Item::Folder(folder("N", "Beta", Some("D1")))),
        Change::ItemChanged(Item::Folder(folder("M", "Beta", Some("D1")))),
        Change::ItemRemoved("N".to_string()),
    ];
    bernard.sync_drive("D1", page(changes, "t1")).unwrap();
    let folders = bernard.get_changed_folders("D1").unwrap();
    assert_eq!(folders.len(), 1);
    let paths = bernard.get_changed_paths("D1").unwrap();
    assert_eq!(paths.len(), 1);
    assert_eq!(inner(&paths[0]).2.id, "M");
}

#[test]
fn folder_and_file_with_one_path() {
    let mut bernard = tree();
    let changes = vec![
        Change::ItemChanged(Item::File(file("x", "same", "A"))),
        Change::ItemChanged(Item::Folder(folder("X", "same", Some("A")))),
    ];
    bernard.sync_drive("D1", page(changes, "t1")).unwrap();
    let paths = bernard.get_changed_paths("D1").unwrap();
    // The file changelog is read after the folder changelog.
    assert_eq!(paths.len(), 1);
    let (what, kind, x) = inner(&paths[0]);
    assert_eq!((what, kind), ("created", "file"));
    assert_eq!(x.id, "x");
    assert_eq!(x.path, "Team/Alpha/same");
}

#[test]
fn trashed_items_keep_their_paths() {
    let mut bernard = tree();
    let mut trashed = file("f", "notes.txt", "B");
    trashed.trashed = true;
    let changes = vec![Change::ItemChanged(Item::File(trashed))];
    bernard.sync_drive("D1", page(changes, "t1")).unwrap();
    let paths = bernard.get_changed_paths("D1").unwrap();
    assert_eq!(paths.len(), 1);
    let path = Path::from(ChangedPath::from(PathChangelog {
        id: "f".to_string(),
        drive_id: "D1".to_string(),
        path: "Team/Alpha/Beta/notes.txt".to_string(),
        folder: false,
        deleted: false,
        trashed: true,
    }));
    assert!(path.trashed());
    let (what, kind, f) = inner(&paths[0]);
    assert_eq!((what, kind), ("created", "file"));
    assert!(f.trashed);
    assert_eq!(f.path, "Team/Alpha/Beta/notes.txt");
    assert!(Path::from(paths.into_iter().next().unwrap()).trashed());
}

#[test]
fn files_with_their_paths() {
    let mut bernard = tree();
    let changes = vec![
        Change::ItemChanged(Item::File(file("g", "g.txt", "A"))),
        Change::ItemChanged(Item::File(file("f", "notes.txt", "B"))),
        Change::ItemRemoved("f".to_string()),
    ];
    bernard.sync_drive("D1", page(changes, "t1")).unwrap();
    let pairs = bernard.get_changed_files_paths("D1").unwrap();
    assert_eq!(pairs.len(), 2);
    assert!(matches!(&pairs[0].0, ChangedFile::Created(f) if f.id == "g"));
    assert_eq!(pairs[0].1, "Team/Alpha/g.txt");
    assert!(matches!(&pairs[1].0, ChangedFile::Deleted(f) if f.id == "f"));
    assert_eq!(pairs[1].1, "Team/Alpha/Beta/notes.txt");
    assert!(bernard.get_changed_folders_paths("D1").unwrap().is_empty());
}

#[test]
fn paths_of_one_drive_only() {
    let mut store = Store::new();
    bernard::database::add_drive("D1", "Team", "t0", Vec::new(), &mut store).unwrap();
    bernard::database::add_drive("D2", "Other", "u0", Vec::new(), &mut store).unwrap();
    let paths = get_changed_paths("D1", &store).unwrap();
    assert_eq!(paths.len(), 1);
    assert_eq!(inner(&paths[0]).2.path, "Team");
    let paths = get_changed_paths("D2", &store).unwrap();
    assert_eq!(paths.len(), 1);
    assert_eq!(inner(&paths[0]).2.path, "Other");
    assert!(get_changed_paths("D3", &store).unwrap().is_empty());

    let changes = vec![Change::ItemChanged(Item::Folder(folder("A", "", Some("D1"))))];
    merge_changes("D1", changes, "t1", &mut store).unwrap();
    let paths = get_changed_paths("D1", &store).unwrap();
    assert_eq!(paths.len(), 2);
    // A folder without a name still has its `/`.
    assert_eq!(inner(&paths[1]).2.path, "Team/");
}

#[test]
fn path_conversions() {
    let row = PathChangelog {
        id: "A".to_string(),
        drive_id: "D1".to_string(),
        path: "Team/Alpha".to_string(),
        folder: true,
        deleted: true,
        trashed: false,
    };
    let changed = ChangedPath::from(row);
    assert!(matches!(&changed, ChangedPath::Deleted(Path::Folder(i)) if i.path == "Team/Alpha"));
    let inner = InnerPath::from(changed);
    assert_eq!(inner.id, "A");
    assert_eq!(inner.drive_id, "D1");
    assert!(!inner.trashed);

    let row = PathChangelog {
        id: "f".to_string(),
        drive_id: "D1".to_string(),
        path: "Team/f".to_string(),
        folder: false,
        deleted: false,
        trashed: true,
    };
    let path = Path::from(row);
    assert!(matches!(&path, Path::File(i) if i.trashed));
    assert!(path.trashed());
    assert_eq!(InnerPath::from(path).path, "Team/f");
}
