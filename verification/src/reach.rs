//! Finding what lies below a folder in a list of folder rows.

use crate::database::folder_views;
use crate::model::folder::{text_of, Folder, FolderView};
use crate::tree::{below, closed_under, lemma_below_child, lemma_closed_holds_below, within};
use vstd::prelude::*;

verus! {

/// The row counts: there is no scope, or the row belongs to the drive that
/// is the scope.
pub open spec fn in_scope(row: FolderView, scope: Option<Seq<char>>) -> bool {
    match scope {
        Some(d) => row.drive_id == d,
        None => true,
    }
}

/// The row at `i` counts, has the id `x` and has a parent.
pub open spec fn linked(
    rows: Seq<FolderView>,
    scope: Option<Seq<char>>,
    x: Seq<char>,
    i: int,
) -> bool {
    0 <= i < rows.len() && in_scope(rows[i], scope) && rows[i].id == x && rows[i].parent
        is Some
}

/// The parent links of the rows that count.
pub open spec fn row_links(
    rows: Seq<FolderView>,
    scope: Option<Seq<char>>,
) -> Map<Seq<char>, Seq<char>> {
    Map::new(
        |x: Seq<char>| exists|i: int| linked(rows, scope, x, i),
        |x: Seq<char>| rows[choose|i: int| linked(rows, scope, x, i)].parent->0,
    )
}

/// No two rows that count have the same id.
pub open spec fn one_each(rows: Seq<FolderView>, scope: Option<Seq<char>>) -> bool {
    forall|i: int, j: int|
        0 <= i < j < rows.len() && in_scope(#[trigger] rows[i], scope) && in_scope(
            #[trigger] rows[j],
            scope,
        ) ==> rows[i].id != rows[j].id
}

/// The link of a row that counts is the row's parent.
pub proof fn lemma_row_link(
    rows: Seq<FolderView>,
    scope: Option<Seq<char>>,
    i: int,
)
    requires
        one_each(rows, scope),
        0 <= i < rows.len(),
        in_scope(rows[i], scope),
    ensures
        row_links(rows, scope).contains_key(rows[i].id) == rows[i].parent is Some,
        rows[i].parent is Some ==> row_links(rows, scope)[rows[i].id] == rows[i].parent->0,
{
    let x = rows[i].id;
    if rows[i].parent is Some {
        assert(linked(rows, scope, x, i));
        let c = choose|c: int| linked(rows, scope, x, c);
        if c < i {
            assert(rows[c].id != rows[i].id);
        } else if i < c {
            assert(rows[i].id != rows[c].id);
        }
    } else {
        if exists|c: int| linked(rows, scope, x, c) {
            let c = choose|c: int| linked(rows, scope, x, c);
            if c < i {
                assert(rows[c].id != rows[i].id);
            } else if i < c {
                assert(rows[i].id != rows[c].id);
            }
        }
    }
}

/// Some row marked in `placed` has the id `p`.
pub open spec fn placed_id(rows: Seq<FolderView>, placed: Seq<bool>, p: Seq<char>) -> bool {
    exists|j: int| 0 <= j < rows.len() && placed[j] && (#[trigger] rows[j]).id == p
}

/// The parent of the row at `i` is `seed` or a row marked in `placed`.
pub open spec fn hit(
    rows: Seq<FolderView>,
    seed: Seq<char>,
    placed: Seq<bool>,
    i: int,
) -> bool {
    match rows[i].parent {
        Some(p) => p == seed || placed_id(rows, placed, p),
        None => false,
    }
}

/// `order` lists, each once and every parent before its children, the rows
/// that count and lie below `seed`; `placed` marks them.
pub open spec fn descent(
    rows: Seq<FolderView>,
    scope: Option<Seq<char>>,
    seed: Seq<char>,
    order: Seq<usize>,
    placed: Seq<bool>,
) -> bool {
    &&& placed.len() == rows.len()
    &&& forall|i: int|
        0 <= i < rows.len() ==> (#[trigger] placed[i] <==> in_scope(rows[i], scope) && below(
            row_links(rows, scope),
            rows[i].id,
            seed,
        ))
    &&& listed(rows, seed, order, placed)
}

/// `order` lists each marked row once, after `seed` or the row's parent.
pub open spec fn listed(
    rows: Seq<FolderView>,
    seed: Seq<char>,
    order: Seq<usize>,
    placed: Seq<bool>,
) -> bool {
    &&& forall|q: int|
        0 <= q < order.len() ==> (#[trigger] order[q]) < rows.len() && placed[order[q] as int]
    &&& forall|i: int|
        0 <= i < rows.len() && #[trigger] placed[i] ==> exists|q: int|
            0 <= q < order.len() && #[trigger] order[q] == i
    &&& forall|q: int, r: int|
        0 <= q < r < order.len() ==> #[trigger] order[q] != #[trigger] order[r]
    &&& forall|q: int|
        0 <= q < order.len() ==> after_parent(rows, seed, order, q)
}

/// The row listed at `q` hangs from `seed` or from a row listed before it.
pub open spec fn after_parent(
    rows: Seq<FolderView>,
    seed: Seq<char>,
    order: Seq<usize>,
    q: int,
) -> bool {
    match rows[order[q] as int].parent {
        Some(p) => p == seed || exists|r: int|
            0 <= r < q && rows[(#[trigger] order[r]) as int].id == p,
        None => false,
    }
}

/// The number of marks set.
pub open spec fn tally(marks: Seq<bool>) -> nat
    decreases marks.len(),
{
    if marks.len() == 0 {
        0
    } else {
        tally(marks.drop_last()) + if marks.last() {
            1nat
        } else {
            0nat
        }
    }
}

/// No more marks are set than there are.
pub proof fn lemma_tally_bound(marks: Seq<bool>)
    ensures
        tally(marks) <= marks.len(),
    decreases marks.len(),
{
    if marks.len() > 0 {
        lemma_tally_bound(marks.drop_last());
    }
}

/// Setting a mark that was not set makes one mark more.
pub proof fn lemma_tally_set(marks: Seq<bool>, i: int)
    requires
        0 <= i < marks.len(),
        !marks[i],
    ensures
        tally(marks.update(i, true)) == tally(marks) + 1,
    decreases marks.len(),
{
    let next = marks.update(i, true);
    if i == marks.len() - 1 {
        assert(next.drop_last() =~= marks.drop_last());
    } else {
        assert(next.drop_last() =~= marks.drop_last().update(i, true));
        lemma_tally_set(marks.drop_last(), i);
    }
}

/// Where no mark is set, the number of marks set is zero.
pub proof fn lemma_tally_none(marks: Seq<bool>)
    requires
        forall|i: int| 0 <= i < marks.len() ==> !marks[i],
    ensures
        tally(marks) == 0,
    decreases marks.len(),
{
    if marks.len() > 0 {
        lemma_tally_none(marks.drop_last());
    }
}

/// Every marked row counts and lies below `seed`.
spec fn sound(
    rows: Seq<FolderView>,
    scope: Option<Seq<char>>,
    seed: Seq<char>,
    placed: Seq<bool>,
) -> bool {
    forall|i: int|
        0 <= i < rows.len() && #[trigger] placed[i] ==> in_scope(rows[i], scope) && below(
            row_links(rows, scope),
            rows[i].id,
            seed,
        )
}

/// No row before `upto` that counts and is not marked has its parent in
/// `seed` or in a marked row.
spec fn settled(
    rows: Seq<FolderView>,
    scope: Option<Seq<char>>,
    seed: Seq<char>,
    placed: Seq<bool>,
    upto: int,
) -> bool {
    forall|i: int|
        0 <= i < upto && in_scope(#[trigger] rows[i], scope) && !placed[i] ==> !hit(
            rows,
            seed,
            placed,
            i,
        )
}

proof fn lemma_complete(
    rows: Seq<FolderView>,
    scope: Option<Seq<char>>,
    seed: Seq<char>,
    placed: Seq<bool>,
)
    requires
        one_each(rows, scope),
        placed.len() == rows.len(),
        sound(rows, scope, seed, placed),
        settled(rows, scope, seed, placed, rows.len() as int),
    ensures
        forall|i: int|
            0 <= i < rows.len() ==> (#[trigger] placed[i] <==> in_scope(rows[i], scope) && below(
                row_links(rows, scope),
                rows[i].id,
                seed,
            )),
{
    let links = row_links(rows, scope);
    let marked = Set::new(|x: Seq<char>| placed_id(rows, placed, x));
    assert forall|x: Seq<char>| #[trigger]
        links.contains_key(x) && (links[x] == seed || marked.contains(
            links[x],
        )) implies marked.contains(x) by {
        let i = choose|i: int| linked(rows, scope, x, i);
        lemma_row_link(rows, scope, i);
        if !placed[i] {
            assert(!hit(rows, seed, placed, i));
        }
    }
    assert(closed_under(links, seed, marked));
    assert forall|i: int|
        0 <= i < rows.len() && in_scope(rows[i], scope) && below(
            links,
            rows[i].id,
            seed,
        ) implies #[trigger] placed[i] by {
        lemma_closed_holds_below(links, seed, marked, rows[i].id);
        let j = choose|j: int|
            0 <= j < rows.len() && placed[j] && (#[trigger] rows[j]).id == rows[i].id;
        if j < i {
            assert(rows[j].id != rows[i].id);
        } else if i < j {
            assert(rows[i].id != rows[j].id);
        }
    }
}

/// Whether a marked row has the id `p`.
pub(crate) fn is_placed(rows: &Vec<Folder>, placed: &Vec<bool>, p: &String) -> (r: bool)
    requires
        placed.len() == rows.len(),
    ensures
        r == placed_id(folder_views(rows@), placed@, p@),
{
    let mut j: usize = 0;
    while j < rows.len()
        invariant
            j <= rows.len(),
            placed.len() == rows.len(),
            forall|a: int|
                0 <= a < j ==> !(placed[a] && (#[trigger] folder_views(rows@)[a]).id == p@),
        decreases rows.len() - j,
    {
        if placed[j] && rows[j].id == *p {
            assert(folder_views(rows@)[j as int].id == p@);
            return true;
        }
        j += 1;
    }
    false
}

/// The seat of the row that counts and has the id `p`, if there is one.
fn find_row(rows: &Vec<Folder>, scope: &Option<String>, p: &String) -> (r: Option<usize>)
    ensures
        match r {
            Some(j) => j < rows.len() && in_scope(folder_views(rows@)[j as int], text_of(*scope))
                && folder_views(rows@)[j as int].id == p@,
            None => no_row(folder_views(rows@), text_of(*scope), p@),
        },
{
    let mut j: usize = 0;
    while j < rows.len()
        invariant
            j <= rows.len(),
            forall|a: int|
                0 <= a < j ==> !(in_scope(#[trigger] folder_views(rows@)[a], text_of(*scope))
                    && folder_views(rows@)[a].id == p@),
        decreases rows.len() - j,
    {
        let counts = match scope {
            Some(d) => rows[j].drive_id == *d,
            None => true,
        };
        assert(folder_views(rows@)[j as int] == rows[j as int]@);
        if counts && rows[j].id == *p {
            return Some(j);
        }
        j += 1;
    }
    None
}

/// No row that counts has the id `p`.
spec fn no_row(rows: Seq<FolderView>, scope: Option<Seq<char>>, p: Seq<char>) -> bool {
    forall|j: int| 0 <= j < rows.len() ==> !(in_scope(#[trigger] rows[j], scope) && rows[j].id == p)
}

/// `seat` is the seat of the row that the row at `i` hangs from, where the
/// row at `i` counts and hangs from a row that counts.
spec fn seated(
    rows: Seq<FolderView>,
    scope: Option<Seq<char>>,
    seat: Option<usize>,
    i: int,
) -> bool {
    match seat {
        Some(j) => j < rows.len() && in_scope(rows[i], scope) && in_scope(rows[j as int], scope)
            && rows[i].parent == Some(rows[j as int].id),
        None => !in_scope(rows[i], scope) || rows[i].parent is None || no_row(
            rows,
            scope,
            rows[i].parent->0,
        ),
    }
}

/// For each row before `upto`, whether it counts and hangs from `seed`, and
/// the seat of the row that it hangs from.
spec fn wired(
    rows: Seq<FolderView>,
    scope: Option<Seq<char>>,
    seed: Seq<char>,
    at_seed: Seq<bool>,
    parent_at: Seq<Option<usize>>,
    upto: int,
) -> bool {
    &&& forall|i: int|
        0 <= i < upto ==> (#[trigger] at_seed[i] <==> in_scope(rows[i], scope) && rows[i].parent
            == Some(seed))
    &&& forall|i: int| 0 <= i < upto ==> seated(rows, scope, #[trigger] parent_at[i], i)
}

/// Finds the rows that lie below `seed`.
///
/// Only the rows of the drive `scope` count, or all rows where there is no
/// scope. A row without a parent lies below nothing. The rows found come
/// listed with every parent before its children.
pub(crate) fn descend(
    rows: &Vec<Folder>,
    seed: &String,
    scope: &Option<String>,
) -> (r: (Vec<usize>, Vec<bool>))
    requires
        one_each(folder_views(rows@), text_of(*scope)),
    ensures
        descent(folder_views(rows@), text_of(*scope), seed@, r.0@, r.1@),
{
    let n = rows.len();
    let ghost views = folder_views(rows@);
    let ghost sc = text_of(*scope);
    let mut placed: Vec<bool> = Vec::new();
    while placed.len() < n
        invariant
            n == rows.len(),
            placed.len() <= n,
            forall|i: int| 0 <= i < placed.len() ==> !placed[i],
        decreases n - placed.len(),
    {
        placed.push(false);
    }
    proof {
        lemma_tally_none(placed@);
    }
    // Where each row hangs from is looked up once.
    let mut at_seed: Vec<bool> = Vec::new();
    let mut parent_at: Vec<Option<usize>> = Vec::new();
    let mut i: usize = 0;
    while i < n
        invariant
            n == rows.len(),
            views == folder_views(rows@),
            sc == text_of(*scope),
            i <= n,
            at_seed.len() == i,
            parent_at.len() == i,
            wired(views, sc, seed@, at_seed@, parent_at@, i as int),
        decreases n - i,
    {
        let row = &rows[i];
        assert(views[i as int] == row@);
        let counts = match scope {
            Some(d) => row.drive_id == *d,
            None => true,
        };
        let (hangs, seat) = match &row.parent {
            Some(p) => {
                if counts {
                    (*p == *seed, find_row(rows, scope, p))
                } else {
                    (false, None)
                }
            },
            None => (false, None),
        };
        at_seed.push(hangs);
        parent_at.push(seat);
        i += 1;
    }
    let mut order: Vec<usize> = Vec::new();
    let mut progress = true;
    while progress
        invariant
            n == rows.len(),
            views == folder_views(rows@),
            sc == text_of(*scope),
            one_each(views, sc),
            placed.len() == n,
            at_seed.len() == n,
            parent_at.len() == n,
            wired(views, sc, seed@, at_seed@, parent_at@, n as int),
            order.len() == tally(placed@),
            sound(views, sc, seed@, placed@),
            listed(views, seed@, order@, placed@),
            !progress ==> settled(views, sc, seed@, placed@, n as int),
        decreases n - order.len() + if progress { 1int } else { 0int },
    {
        proof {
            lemma_tally_bound(placed@);
        }
        progress = false;
        let ghost start = order.len();
        let mut i: usize = 0;
        while i < n
            invariant
                n == rows.len(),
                views == folder_views(rows@),
                sc == text_of(*scope),
                one_each(views, sc),
                placed.len() == n,
                at_seed.len() == n,
                parent_at.len() == n,
                wired(views, sc, seed@, at_seed@, parent_at@, n as int),
                i <= n,
                order.len() == tally(placed@),
                order.len() >= start,
                progress <==> order.len() > start,
                sound(views, sc, seed@, placed@),
                listed(views, seed@, order@, placed@),
                !progress ==> settled(views, sc, seed@, placed@, i as int),
            decreases n - i,
        {
            let mut take = false;
            if !placed[i] {
                take = at_seed[i] || match parent_at[i] {
                    Some(j) => placed[j],
                    None => false,
                };
                proof {
                    let p = views[i as int].parent;
                    if take && !at_seed@[i as int] {
                        let j = parent_at@[i as int]->0 as int;
                        assert(placed@[j] && views[j].id == p->0);
                    }
                    if in_scope(views[i as int], sc) && hit(views, seed@, placed@, i as int)
                        && p != Some(seed@) {
                        let w = choose|w: int|
                            0 <= w < views.len() && placed@[w] && (#[trigger] views[w]).id == p->0;
                        assert(in_scope(views[w], sc));
                        match parent_at@[i as int] {
                            Some(j) => {
                                if (j as int) < w {
                                    assert(views[j as int].id != views[w].id);
                                } else if w < j as int {
                                    assert(views[w].id != views[j as int].id);
                                }
                            },
                            None => {},
                        }
                    }
                    assert(take == (in_scope(views[i as int], sc) && hit(
                        views,
                        seed@,
                        placed@,
                        i as int,
                    )));
                }
            }
            if take {
                proof {
                    let links = row_links(views, sc);
                    let p = views[i as int].parent->0;
                    lemma_row_link(views, sc, i as int);
                    if p != seed@ {
                        let j = choose|j: int|
                            0 <= j < views.len() && placed@[j] && (#[trigger] views[j]).id == p;
                        assert(below(links, views[j].id, seed@));
                    }
                    assert(within(links, p, seed@));
                    lemma_below_child(links, views[i as int].id, seed@);
                    lemma_tally_set(placed@, i as int);
                    lemma_tally_bound(placed@.update(i as int, true));
                }
                let ghost before = placed@;
                let ghost listing = order@;
                placed.set(i, true);
                order.push(i);
                progress = true;
                proof {
                    assert forall|q: int| 0 <= q < order@.len() implies after_parent(
                        views,
                        seed@,
                        order@,
                        q,
                    ) by {
                        if q < listing.len() {
                            assert(after_parent(views, seed@, listing, q));
                            let p = views[listing[q] as int].parent->0;
                            if p != seed@ {
                                let r = choose|r: int|
                                    0 <= r < q && views[(#[trigger] listing[r]) as int].id == p;
                                assert(order@[r] == listing[r]);
                            }
                        } else {
                            let p = views[i as int].parent->0;
                            if p != seed@ {
                                let j = choose|j: int|
                                    0 <= j < views.len() && before[j] && (#[trigger] views[j]).id
                                        == p;
                                let r = choose|r: int|
                                    0 <= r < listing.len() && #[trigger] listing[r] == j;
                                assert(order@[r] == listing[r]);
                            }
                        }
                    }
                    assert forall|a: int|
                        0 <= a < views.len() && #[trigger] placed@[a] implies exists|q: int|
                        0 <= q < order@.len() && #[trigger] order@[q] == a by {
                        if a == i {
                            assert(order@[listing.len() as int] == a);
                        } else {
                            assert(before[a]);
                            let q = choose|q: int|
                                0 <= q < listing.len() && #[trigger] listing[q] == a;
                            assert(order@[q] == a);
                        }
                    }
                    assert forall|q: int, r: int|
                        0 <= q < r < order@.len() implies #[trigger] order@[q]
                        != #[trigger] order@[r] by {
                        if r == listing.len() {
                            assert(before[listing[q] as int]);
                        } else {
                            assert(listing[q] != listing[r]);
                        }
                    }
                    assert forall|q: int| 0 <= q < order@.len() implies (#[trigger] order@[q])
                        < views.len() && placed@[order@[q] as int] by {
                        if q < listing.len() {
                            assert(before[listing[q] as int]);
                        }
                    }
                }
            }
            i += 1;
        }
        proof {
            lemma_tally_bound(placed@);
        }
    }
    proof {
        lemma_complete(views, sc, seed@, placed@);
    }
    (order, placed)
}

} // verus!
