//! The rows of the mirror: drives, folders, files and what changed of them.

pub mod drive;
pub mod file;
pub mod folder;
pub mod path;

pub use drive::Drive;
pub use file::{ChangedFile, File};
pub use folder::{ChangedFolder, Folder};
pub use path::{ChangedPath, InnerPath, Path};
