use crate::database::{
    file_log_views, folder_log_views, folder_views, Error, Store, Transaction,
};
use crate::model::folder::text_of;
use crate::reach::{lemma_tally_bound, lemma_tally_set, tally};
use crate::rows::{distinct, lemma_absent, lemma_push, lemma_remove, written};
use crate::state::{join, latest_by_path, path_key};
use crate::tree::{climb, lemma_circle, lemma_climb_stops, lemma_climb_sum};
use vstd::prelude::*;
use vstd::string::*;

verus! {

/// The path of a file or of a folder.
#[derive(Debug)]
pub enum Path {
    File(InnerPath),
    Folder(InnerPath),
}

/// An item with its path: the names from the drive's root down to the item,
/// joined by `/`.
#[derive(Debug)]
pub struct InnerPath {
    pub id: String,
    pub drive_id: String,
    pub path: String,
    pub trashed: bool,
}

/// A path as the changelog reports it: one that is there now, or one that is
/// gone.
#[derive(Debug)]
pub enum ChangedPath {
    Created(Path),
    Deleted(Path),
}

/// An item with its path, as plain text.
pub struct InnerPathView {
    pub id: Seq<char>,
    pub drive_id: Seq<char>,
    pub path: Seq<char>,
    pub trashed: bool,
}

impl View for InnerPath {
    type V = InnerPathView;

    open spec fn view(&self) -> InnerPathView {
        InnerPathView {
            id: self.id@,
            drive_id: self.drive_id@,
            path: self.path@,
            trashed: self.trashed,
        }
    }
}

/// A path as plain text.
pub enum PathView {
    File(InnerPathView),
    Folder(InnerPathView),
}

impl PathView {
    /// The item and its path, whatever its kind.
    pub open spec fn inner(self) -> InnerPathView {
        match self {
            PathView::File(inner) => inner,
            PathView::Folder(inner) => inner,
        }
    }
}

impl View for Path {
    type V = PathView;

    open spec fn view(&self) -> PathView {
        match *self {
            Path::File(inner) => PathView::File(inner@),
            Path::Folder(inner) => PathView::Folder(inner@),
        }
    }
}

/// A reported path as plain text.
pub enum ChangedPathView {
    Created(PathView),
    Deleted(PathView),
}

impl ChangedPathView {
    /// The path that the report is about.
    pub open spec fn path(self) -> PathView {
        match self {
            ChangedPathView::Created(path) => path,
            ChangedPathView::Deleted(path) => path,
        }
    }
}

impl View for ChangedPath {
    type V = ChangedPathView;

    open spec fn view(&self) -> ChangedPathView {
        match *self {
            ChangedPath::Created(path) => ChangedPathView::Created(path@),
            ChangedPath::Deleted(path) => ChangedPathView::Deleted(path@),
        }
    }
}

impl Path {
    /// Whether the item of the path lies in the bin.
    pub fn trashed(&self) -> (r: bool)
        ensures
            r == self@.inner().trashed,
    {
        match self {
            Self::File(inner) => inner.trashed,
            Self::Folder(inner) => inner.trashed,
        }
    }
}

impl From<ChangedPath> for Path {
    fn from(path: ChangedPath) -> (r: Self)
        ensures
            r@ == path@.path(),
    {
        match path {
            ChangedPath::Created(path) => path,
            ChangedPath::Deleted(path) => path,
        }
    }
}

impl vstd::std_specs::convert::FromSpecImpl<ChangedPath> for Path {
    open spec fn obeys_from_spec() -> bool {
        true
    }

    open spec fn from_spec(path: ChangedPath) -> Self {
        match path {
            ChangedPath::Created(path) => path,
            ChangedPath::Deleted(path) => path,
        }
    }
}

impl From<Path> for InnerPath {
    fn from(path: Path) -> (r: Self)
        ensures
            r@ == path@.inner(),
    {
        match path {
            Path::File(inner) => inner,
            Path::Folder(inner) => inner,
        }
    }
}

impl vstd::std_specs::convert::FromSpecImpl<Path> for InnerPath {
    open spec fn obeys_from_spec() -> bool {
        true
    }

    open spec fn from_spec(path: Path) -> Self {
        match path {
            Path::File(inner) => inner,
            Path::Folder(inner) => inner,
        }
    }
}

impl From<ChangedPath> for InnerPath {
    fn from(path: ChangedPath) -> (r: Self)
        ensures
            r@ == path@.path().inner(),
    {
        match path {
            ChangedPath::Created(path) => InnerPath::from(path),
            ChangedPath::Deleted(path) => InnerPath::from(path),
        }
    }
}

impl vstd::std_specs::convert::FromSpecImpl<ChangedPath> for InnerPath {
    open spec fn obeys_from_spec() -> bool {
        true
    }

    open spec fn from_spec(path: ChangedPath) -> Self {
        match path {
            ChangedPath::Created(Path::File(inner)) => inner,
            ChangedPath::Created(Path::Folder(inner)) => inner,
            ChangedPath::Deleted(Path::File(inner)) => inner,
            ChangedPath::Deleted(Path::Folder(inner)) => inner,
        }
    }
}

/// A row of the path changelog: an item of the folder or file changelog with
/// its path.
#[derive(Debug)]
pub struct PathChangelog {
    pub id: String,
    pub drive_id: String,
    pub path: String,
    pub folder: bool,
    pub deleted: bool,
    pub trashed: bool,
}

/// A row of the path changelog as plain text.
pub struct PathChangelogView {
    pub id: Seq<char>,
    pub drive_id: Seq<char>,
    pub path: Seq<char>,
    pub folder: bool,
    pub deleted: bool,
    pub trashed: bool,
}

impl PathChangelogView {
    /// The item of the row with its path.
    pub open spec fn inner(self) -> InnerPathView {
        InnerPathView {
            id: self.id,
            drive_id: self.drive_id,
            path: self.path,
            trashed: self.trashed,
        }
    }

    /// The path of the row, with its kind.
    pub open spec fn kind(self) -> PathView {
        if self.folder {
            PathView::Folder(self.inner())
        } else {
            PathView::File(self.inner())
        }
    }

    /// The row as the changelog reports it.
    pub open spec fn changed(self) -> ChangedPathView {
        if self.deleted {
            ChangedPathView::Deleted(self.kind())
        } else {
            ChangedPathView::Created(self.kind())
        }
    }
}

impl View for PathChangelog {
    type V = PathChangelogView;

    open spec fn view(&self) -> PathChangelogView {
        PathChangelogView {
            id: self.id@,
            drive_id: self.drive_id@,
            path: self.path@,
            folder: self.folder,
            deleted: self.deleted,
            trashed: self.trashed,
        }
    }
}

impl From<PathChangelog> for Path {
    fn from(p: PathChangelog) -> (r: Self)
        ensures
            r@ == p@.kind(),
    {
        let inner_path = InnerPath {
            id: p.id,
            drive_id: p.drive_id,
            path: p.path,
            trashed: p.trashed,
        };

        match p.folder {
            true => Path::Folder(inner_path),
            false => Path::File(inner_path),
        }
    }
}

impl vstd::std_specs::convert::FromSpecImpl<PathChangelog> for Path {
    open spec fn obeys_from_spec() -> bool {
        true
    }

    open spec fn from_spec(p: PathChangelog) -> Self {
        let inner_path = InnerPath {
            id: p.id,
            drive_id: p.drive_id,
            path: p.path,
            trashed: p.trashed,
        };
        if p.folder {
            Path::Folder(inner_path)
        } else {
            Path::File(inner_path)
        }
    }
}

impl From<PathChangelog> for ChangedPath {
    fn from(path: PathChangelog) -> (r: Self)
        ensures
            r@ == path@.changed(),
    {
        match path.deleted {
            true => Self::Deleted(Path::from(path)),
            false => Self::Created(Path::from(path)),
        }
    }
}

impl vstd::std_specs::convert::FromSpecImpl<PathChangelog> for ChangedPath {
    open spec fn obeys_from_spec() -> bool {
        true
    }

    open spec fn from_spec(path: PathChangelog) -> Self {
        let inner_path = InnerPath {
            id: path.id,
            drive_id: path.drive_id,
            path: path.path,
            trashed: path.trashed,
        };
        let kind = if path.folder {
            Path::Folder(inner_path)
        } else {
            Path::File(inner_path)
        };
        if path.deleted {
            ChangedPath::Deleted(kind)
        } else {
            ChangedPath::Created(kind)
        }
    }
}

/// The rows as plain text.
pub open spec fn path_log_views(rows: Seq<PathChangelog>) -> Seq<PathChangelogView> {
    rows.map_values(|r: PathChangelog| r@)
}

/// The reports as plain text.
pub open spec fn changed_path_views(list: Seq<ChangedPath>) -> Seq<ChangedPathView> {
    list.map_values(|c: ChangedPath| c@)
}

/// The names of a climb, read from the last to the first.
spec fn descending(names: Seq<String>) -> Seq<Seq<char>> {
    Seq::new(names.len(), |i: int| names[names.len() - 1 - i]@)
}

proof fn lemma_join_push(names: Seq<Seq<char>>, last: Seq<char>)
    requires
        names.len() > 0,
    ensures
        join(names.push(last)) == join(names) + seq!['/'] + last,
{
    assert(names.push(last).drop_last() =~= names);
}

/// Joins the names, read from the last to the first, and `name` by `/`.
fn join_up(names: &Vec<String>, name: &String) -> (r: String)
    requires
        names.len() > 0,
    ensures
        r@ == join(descending(names@).push(name@)),
{
    let ghost down = descending(names@);
    let top = names.len() - 1;
    let mut path = names[top].clone();
    assert(down.take(1) =~= seq![names[top as int]@]);
    let mut i: usize = top;
    while i > 0
        invariant
            i <= top,
            top == names.len() - 1,
            down == descending(names@),
            path@ == join(down.take(top - i + 1)),
        decreases i,
    {
        i -= 1;
        proof {
            reveal_strlit("/");
            let done = down.take(top - i);
            assert(down.take(top - i + 1) =~= done.push(names[i as int]@));
            lemma_join_push(done, names[i as int]@);
            assert("/"@ =~= seq!['/']);
        }
        path.append("/");
        path.append(names[i].as_str());
    }
    proof {
        reveal_strlit("/");
        assert(down.take(top + 1) =~= down);
        lemma_join_push(down, name@);
        assert("/"@ =~= seq!['/']);
    }
    path.append("/");
    path.append(name.as_str());
    path
}

/// The path of the item `id` of `drive` named `name` that lies in `parent`,
/// read from the folders as they are.
pub(crate) fn resolve(
    tx: &Transaction,
    drive: &String,
    id: &String,
    parent: &Option<String>,
    name: &String,
) -> (r: Option<String>)
    requires
        tx.wf(),
    ensures
        text_of(r) == tx@.path_of(drive@, id@, text_of(*parent), name@),
{
    let first = match parent {
        Some(p) => p,
        None => {
            // Only the top folder of the drive has no parent.
            if *id == *drive {
                return Some(name.clone());
            }
            return None;
        },
    };
    let ghost s = tx@;
    let ghost links = s.links(drive@);
    let ghost rows = folder_views(tx.folders@);
    let n = tx.folders.len();
    let mut seen: Vec<bool> = Vec::new();
    while seen.len() < n
        invariant
            n == tx.folders.len(),
            seen.len() <= n,
            forall|i: int| 0 <= i < seen.len() ==> !seen[i],
        decreases n - seen.len(),
    {
        seen.push(false);
    }
    let mut names: Vec<String> = Vec::new();
    let mut cursor: String = first.clone();
    let ghost mut chain: Seq<Seq<char>> = Seq::empty();
    loop
        invariant
            tx.wf(),
            text_of(*parent) == Some(first@),
            s == tx@,
            links == s.links(drive@),
            rows == folder_views(tx.folders@),
            n == tx.folders.len(),
            seen.len() == n,
            chain.len() == names.len(),
            climb(links, first@, chain.len()) == Some(cursor@),
            forall|j: nat|
                j < chain.len() ==> #[trigger] climb(links, first@, j) == Some(chain[j as int])
                    && links.contains_key(chain[j as int]) && s.folders[(
                    chain[j as int],
                    drive@,
                )].name == names[j as int]@,
            forall|i: int|
                0 <= i < n && #[trigger] seen[i] ==> exists|j: int|
                    0 <= j < chain.len() && #[trigger] chain[j] == rows[i].id,
        decreases n - tally(seen@),
    {
        let ghost k = chain.len();
        let at = match tx.find_folder(&cursor, drive) {
            Some(i) => i,
            None => {
                proof {
                    assert forall|m: nat| !#[trigger] s.rooted_at(drive@, first@, m) by {
                        if m > k {
                            lemma_climb_stops(links, first@, k, m);
                        }
                    }
                }
                return None;
            },
        };
        if seen[at] {
            proof {
                let j = choose|j: int|
                    0 <= j < chain.len() && #[trigger] chain[j] == rows[at as int].id;
                assert(rows[at as int] == tx.folders[at as int]@);
                assert(climb(links, first@, j as nat) == Some(chain[j]));
                assert forall|m: nat| !#[trigger] s.rooted_at(drive@, first@, m) by {
                    lemma_circle(links, first@, j as nat, k, m);
                }
            }
            return None;
        }
        let row = &tx.folders[at];
        assert(rows[at as int] == row@);
        names.push(row.name.clone());
        match &row.parent {
            None => {
                if cursor != *drive {
                    // The chain ends at a folder that is not the top folder.
                    proof {
                        assert forall|m: nat| !#[trigger] s.rooted_at(drive@, first@, m) by {
                            if m > k {
                                lemma_climb_stops(links, first@, k, m);
                            }
                        }
                    }
                    return None;
                }
                proof {
                    assert(s.rooted_at(drive@, first@, k));
                    assert forall|m: nat| #[trigger] s.rooted_at(drive@, first@, m) implies m
                        == k by {
                        if m > k {
                            lemma_climb_stops(links, first@, k, m);
                        }
                    }
                    let d = s.depth(drive@, first@);
                    assert(s.rooted_at(drive@, first@, d));
                    assert(d == k);
                    assert(s.trail(drive@, first@) =~= descending(names@)) by {
                        assert forall|i: int| 0 <= i < d + 1 implies s.trail(drive@, first@)[i]
                            == descending(names@)[i] by {
                            let j = (d - i) as nat;
                            if j < k {
                                assert(climb(links, first@, j) == Some(chain[j as int]));
                            }
                        }
                    }
                }
                return Some(join_up(&names, name));
            },
            Some(next) => {
                proof {
                    lemma_climb_sum(links, first@, k, 1);
                    assert(climb(links, cursor@, 1) == Some(next@)) by {
                        assert(links.contains_key(cursor@));
                        assert(climb(links, next@, 0) == Some(next@));
                    }
                    lemma_tally_set(seen@, at as int);
                    lemma_tally_bound(seen@.update(at as int, true));
                }
                let ghost seen_before = seen@;
                let ghost chain_before = chain;
                seen.set(at, true);
                proof {
                    chain = chain.push(cursor@);
                    assert forall|i: int| 0 <= i < n && #[trigger] seen[i] implies exists|j: int|
                        0 <= j < chain.len() && #[trigger] chain[j] == rows[i].id by {
                        if i == at {
                            assert(chain[k as int] == rows[i].id);
                        } else {
                            assert(seen_before[i]);
                            let j = choose|j: int|
                                0 <= j < chain_before.len() && #[trigger] chain_before[j]
                                    == rows[i].id;
                            assert(chain[j] == rows[i].id);
                        }
                    }
                }
                cursor = next.clone();
            },
        }
    }
}

/// Writes a row to the rows kept for each path, in place of the row kept
/// for the same path where there is one.
fn keep_latest(unique: &mut Vec<PathChangelog>, row: PathChangelog)
    requires
        distinct(path_log_views(old(unique)@), path_key()),
    ensures
        distinct(path_log_views(final(unique)@), path_key()),
        path_log_views(final(unique)@) == written(
            path_log_views(old(unique)@),
            path_key(),
            row@,
        ),
{
    let ghost before = path_log_views(unique@);
    let mut i: usize = 0;
    let mut found: Option<usize> = None;
    while i < unique.len() && found.is_none()
        invariant
            i <= unique.len(),
            *unique == *old(unique),
            match found {
                Some(p) => p < unique.len() && unique[p as int].path@ == row.path@,
                None => forall|j: int| 0 <= j < i ==> unique[j].path@ != row.path@,
            },
        decreases unique.len() - i,
    {
        if unique[i].path == row.path {
            found = Some(i);
        }
        i += 1;
    }
    match found {
        Some(p) => {
            unique.remove(p);
            proof {
                lemma_remove(before, path_key(), p as int);
                assert(path_log_views(unique@) =~= before.remove(p as int));
            }
        },
        None => {
            proof {
                lemma_absent(before, path_key(), row@.path);
            }
        },
    }
    let ghost middle = path_log_views(unique@);
    proof {
        lemma_push(middle, path_key(), row@);
    }
    unique.push(row);
    assert(path_log_views(unique@) =~= middle.push(row@));
}

impl ChangedPath {
    /// What the changelog reports of the paths of a drive.
    ///
    /// Each row of the folder changelog and of the file changelog of the
    /// drive is given its path: the names of the folders from the top folder
    /// down to the item, as the folders are now, joined by `/`. A row whose
    /// chain of parents does not lead to a top folder is left out. Of the
    /// rows with the same path only the latest is reported.
    pub fn get_all(drive_id: &str, store: &Store) -> (r: Result<Vec<Self>, Error>)
        requires
            store.wf(),
        ensures
            r is Ok,
            changed_path_views(r->Ok_0@) == store@.changed_paths(drive_id@),
    {
        let drive = drive_id.to_owned();
        let tx = &store.tables;
        let ghost s = store@;
        let ghost folder_log = folder_log_views(tx.folder_changelog@);
        let ghost file_log = file_log_views(tx.file_changelog@);
        let mut unique: Vec<PathChangelog> = Vec::new();
        assert(path_log_views(unique@) =~= Seq::empty());
        assert(folder_log.take(0) =~= Seq::empty());

        let mut i: usize = 0;
        while i < tx.folder_changelog.len()
            invariant
                tx.wf(),
                s == tx@,
                drive@ == drive_id@,
                i <= tx.folder_changelog.len(),
                folder_log == folder_log_views(tx.folder_changelog@),
                distinct(path_log_views(unique@), path_key()),
                path_log_views(unique@) == latest_by_path(
                    s.folder_paths(folder_log.take(i as int), drive_id@),
                ),
            decreases tx.folder_changelog.len() - i,
        {
            let row = &tx.folder_changelog[i];
            proof {
                assert(folder_log.take(i + 1).drop_last() =~= folder_log.take(i as int));
                assert(folder_log.take(i + 1).last() == row@);
            }
            if row.drive_id == drive {
                match resolve(tx, &row.drive_id, &row.id, &row.parent, &row.name) {
                    Some(path) => {
                        let found = PathChangelog {
                            id: row.id.clone(),
                            drive_id: row.drive_id.clone(),
                            path,
                            folder: true,
                            deleted: row.deleted,
                            trashed: row.trashed,
                        };
                        proof {
                            let rest = s.folder_paths(folder_log.take(i as int), drive_id@);
                            assert(s.folder_path(row@) == Some(found@));
                            assert(rest.push(found@).drop_last() =~= rest);
                        }
                        keep_latest(&mut unique, found);
                    },
                    None => {},
                }
            }
            i += 1;
        }
        assert(folder_log.take(folder_log.len() as int) =~= folder_log);

        let ghost folder_part = s.folder_paths(folder_log, drive_id@);
        assert(file_log.take(0) =~= Seq::empty());
        assert(folder_part + Seq::<PathChangelogView>::empty() =~= folder_part);
        let mut i: usize = 0;
        while i < tx.file_changelog.len()
            invariant
                tx.wf(),
                s == tx@,
                drive@ == drive_id@,
                i <= tx.file_changelog.len(),
                file_log == file_log_views(tx.file_changelog@),
                distinct(path_log_views(unique@), path_key()),
                path_log_views(unique@) == latest_by_path(
                    folder_part + s.file_paths(file_log.take(i as int), drive_id@),
                ),
            decreases tx.file_changelog.len() - i,
        {
            let row = &tx.file_changelog[i];
            proof {
                assert(file_log.take(i + 1).drop_last() =~= file_log.take(i as int));
                assert(file_log.take(i + 1).last() == row@);
            }
            if row.drive_id == drive {
                let parent = Some(row.parent.clone());
                match resolve(tx, &row.drive_id, &row.id, &parent, &row.name) {
                    Some(path) => {
                        let found = PathChangelog {
                            id: row.id.clone(),
                            drive_id: row.drive_id.clone(),
                            path,
                            folder: false,
                            deleted: row.deleted,
                            trashed: row.trashed,
                        };
                        proof {
                            let rest = s.file_paths(file_log.take(i as int), drive_id@);
                            assert(s.file_path(row@) == Some(found@));
                            assert((folder_part + rest.push(found@)).drop_last() =~= folder_part
                                + rest);
                            assert((folder_part + rest.push(found@)).last() == found@);
                        }
                        keep_latest(&mut unique, found);
                    },
                    None => {},
                }
            }
            i += 1;
        }
        assert(file_log.take(file_log.len() as int) =~= file_log);

        let ghost kept = path_log_views(unique@);
        let mut out: Vec<ChangedPath> = Vec::new();
        assert(changed_path_views(out@) =~= kept.take(0).map_values(
            |r: PathChangelogView| r.changed(),
        ));
        for row in it: unique
            invariant
                path_log_views(it.seq()) == kept,
                changed_path_views(out@) == kept.take(it.index() as int).map_values(
                    |r: PathChangelogView| r.changed(),
                ),
        {
            let ghost listed = changed_path_views(out@);
            let ghost i = it.index() as int;
            let changed = ChangedPath::from(row);
            out.push(changed);
            assert(changed_path_views(out@) =~= listed.push(changed@));
            assert(kept.take(i + 1).map_values(|r: PathChangelogView| r.changed()) =~= kept.take(
                i,
            ).map_values(|r: PathChangelogView| r.changed()).push(kept[i].changed()));
        }
        assert(kept.take(kept.len() as int) =~= kept);
        Ok(out)
    }
}

} // verus!
