//! The rows and the reports made of them.

use bernard::auth::Account;
use bernard::model::file::FileChangelog;
use bernard::model::folder::FolderChangelog;
use bernard::{ChangedFile, ChangedFolder, Drive, File, Folder};

fn folder() -> Folder {
    Folder {
        id: "A".to_string(),
        drive_id: "D1".to_string(),
        name: "Alpha".to_string(),
        trashed: true,
        parent: Some("D1".to_string()),
    }
}

fn file() -> File {
    File {
        id: "f".to_string(),
        drive_id: "D1".to_string(),
        name: "notes.txt".to_string(),
        trashed: false,
        parent: "A".to_string(),
        md5: "900150983cd24fb0d6963f7d28e17f72".to_string(),
        size: 3,
        mime_type: "text/plain".to_string(),
    }
}

#[test]
fn folder_changelog_row_becomes_a_report() {
    let row = FolderChangelog::record(&folder(), false);
    assert_eq!(row.id, "A");
    assert_eq!(row.drive_id, "D1");
    assert_eq!(row.name, "Alpha");
    assert!(row.trashed);
    assert_eq!(row.parent.as_deref(), Some("D1"));
    assert!(!row.deleted);
    match ChangedFolder::from(row) {
        ChangedFolder::Created(f) => {
            assert_eq!(f.id, "A");
            assert_eq!(f.parent.as_deref(), Some("D1"));
            assert!(f.trashed);
        }
        ChangedFolder::Deleted(_) => panic!("the row tells of no deletion"),
    }
    let row = FolderChangelog::record(&folder(), true);
    let copy = row.clone();
    assert_eq!(format!("{:?}", copy), format!("{:?}", row));
    match ChangedFolder::from(row) {
        ChangedFolder::Deleted(f) => assert_eq!(f.name, "Alpha"),
        ChangedFolder::Created(_) => panic!("the row tells of a deletion"),
    }
}

#[test]
fn file_changelog_row_becomes_a_report() {
    let row = FileChangelog::record(&file(), true);
    assert_eq!(row.md5, "900150983cd24fb0d6963f7d28e17f72");
    assert_eq!(row.size, 3);
    assert_eq!(row.mime_type, "text/plain");
    assert!(row.deleted);
    let copy = row.clone();
    assert_eq!(format!("{:?}", copy), format!("{:?}", row));
    match ChangedFile::from(row) {
        ChangedFile::Deleted(f) => {
            assert_eq!(f.id, "f");
            assert_eq!(f.parent, "A");
            assert_eq!(f.size, 3);
        }
        ChangedFile::Created(_) => panic!("the row tells of a deletion"),
    }
    assert!(matches!(
        ChangedFile::from(FileChangelog::record(&file(), false)),
        ChangedFile::Created(f) if f.name == "notes.txt"
    ));
}

#[test]
fn report_gives_its_item_back() {
    assert_eq!(Folder::from(ChangedFolder::Created(folder())).id, "A");
    assert_eq!(Folder::from(ChangedFolder::Deleted(folder())).name, "Alpha");
    assert_eq!(File::from(ChangedFile::Created(file())).id, "f");
    assert_eq!(File::from(ChangedFile::Deleted(file())).md5, "900150983cd24fb0d6963f7d28e17f72");
}

#[test]
fn copies_are_equal() {
    assert_eq!(format!("{:?}", folder().clone()), format!("{:?}", folder()));
    assert_eq!(format!("{:?}", file().clone()), format!("{:?}", file()));
    let drive = Drive { id: "D1".to_string(), page_token: "t0".to_string() };
    assert_eq!(format!("{:?}", drive.clone()), format!("{:?}", drive));
    let account = Account {
        client_email: "mirror@example.test".to_string(),
        private_key: "no key".to_string(),
        token_uri: "https://oauth2.example.test/token".to_string(),
    };
    assert_eq!(format!("{:?}", account.clone()), format!("{:?}", account));
    let mut other = folder();
    other.parent = None;
    assert_eq!(other.clone().parent, None);
}
