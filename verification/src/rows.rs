//! Keyed rows: a sequence of rows in which no key occurs twice, read as a
//! finite map from key to row.

use vstd::prelude::*;

verus! {

/// No two rows of `rows` have the same key.
pub open spec fn distinct<V, K>(rows: Seq<V>, key: spec_fn(V) -> K) -> bool {
    forall|i: int, j: int|
        0 <= i < j < rows.len() ==> key(#[trigger] rows[i]) != key(#[trigger] rows[j])
}

/// Some row of `rows` has the key `k`.
pub open spec fn holds<V, K>(rows: Seq<V>, key: spec_fn(V) -> K, k: K) -> bool {
    exists|i: int| 0 <= i < rows.len() && key(#[trigger] rows[i]) == k
}

/// The index of a row with key `k`, where there is one.
pub open spec fn position<V, K>(rows: Seq<V>, key: spec_fn(V) -> K, k: K) -> int {
    choose|i: int| 0 <= i < rows.len() && key(#[trigger] rows[i]) == k
}

/// The rows as a map from key to row.
pub open spec fn table<V, K>(rows: Seq<V>, key: spec_fn(V) -> K) -> Map<K, V> {
    Map::new(|k: K| holds(rows, key, k), |k: K| rows[position(rows, key, k)])
}

/// The rows without the one keyed `k`.
pub open spec fn without<V, K>(rows: Seq<V>, key: spec_fn(V) -> K, k: K) -> Seq<V> {
    if holds(rows, key, k) {
        rows.remove(position(rows, key, k))
    } else {
        rows
    }
}

/// Writing `row` into keyed rows ordered by time of writing: an older row
/// with the same key leaves, and `row` becomes the last.
pub open spec fn written<V, K>(rows: Seq<V>, key: spec_fn(V) -> K, row: V) -> Seq<V> {
    without(rows, key, key(row)).push(row)
}

/// Writing `row` in place: it takes the seat of the row with its key, or the
/// last seat where no row has that key.
pub open spec fn put<V, K>(rows: Seq<V>, key: spec_fn(V) -> K, row: V) -> Seq<V> {
    if holds(rows, key, key(row)) {
        rows.update(position(rows, key, key(row)), row)
    } else {
        rows.push(row)
    }
}

/// A row is found under its key, at its own seat.
pub proof fn lemma_position<V, K>(rows: Seq<V>, key: spec_fn(V) -> K, i: int)
    requires
        distinct(rows, key),
        0 <= i < rows.len(),
    ensures
        holds(rows, key, key(rows[i])),
        position(rows, key, key(rows[i])) == i,
        table(rows, key).contains_key(key(rows[i])),
        table(rows, key)[key(rows[i])] == rows[i],
{
    let k = key(rows[i]);
    let p = position(rows, key, k);
    assert(0 <= p < rows.len() && key(rows[p]) == k);
    if p < i {
        assert(key(rows[p]) != key(rows[i]));
    } else if i < p {
        assert(key(rows[i]) != key(rows[p]));
    }
}

/// A key that no row has is not held.
pub proof fn lemma_absent<V, K>(rows: Seq<V>, key: spec_fn(V) -> K, k: K)
    requires
        forall|i: int| 0 <= i < rows.len() ==> key(#[trigger] rows[i]) != k,
    ensures
        !holds(rows, key, k),
        !table(rows, key).contains_key(k),
{
}

/// A row with a new key, put last, is one more entry of the table.
pub proof fn lemma_push<V, K>(rows: Seq<V>, key: spec_fn(V) -> K, row: V)
    requires
        distinct(rows, key),
        !holds(rows, key, key(row)),
    ensures
        distinct(rows.push(row), key),
        table(rows.push(row), key) == table(rows, key).insert(key(row), row),
{
    let next = rows.push(row);
    assert forall|i: int, j: int| 0 <= i < j < next.len() implies key(#[trigger] next[i]) != key(
        #[trigger] next[j],
    ) by {
        if j < rows.len() {
            assert(key(rows[i]) != key(rows[j]));
        } else {
            assert(key(rows[i]) != key(row));
        }
    }
    assert forall|k: K| holds(next, key, k) <==> (k == key(row) || holds(rows, key, k)) by {
        if holds(next, key, k) {
            let i = position(next, key, k);
            if i < rows.len() {
                assert(key(rows[i]) == k);
            }
        }
        if k == key(row) {
            assert(key(next[rows.len() as int]) == k);
        }
        if holds(rows, key, k) {
            let i = position(rows, key, k);
            assert(key(next[i]) == k);
        }
    }
    assert forall|k: K| holds(next, key, k) implies #[trigger] table(next, key)[k] == table(
        rows,
        key,
    ).insert(key(row), row)[k] by {
        let i = position(next, key, k);
        lemma_position(next, key, i);
        if i < rows.len() {
            lemma_position(rows, key, i);
        }
    }
    assert(table(next, key) =~= table(rows, key).insert(key(row), row));
}

/// A row put in the seat of the row with its key takes its entry in the
/// table.
pub proof fn lemma_update<V, K>(rows: Seq<V>, key: spec_fn(V) -> K, i: int, row: V)
    requires
        distinct(rows, key),
        0 <= i < rows.len(),
        key(rows[i]) == key(row),
    ensures
        distinct(rows.update(i, row), key),
        table(rows.update(i, row), key) == table(rows, key).insert(key(row), row),
{
    let next = rows.update(i, row);
    assert forall|a: int, b: int| 0 <= a < b < next.len() implies key(#[trigger] next[a]) != key(
        #[trigger] next[b],
    ) by {
        assert(key(rows[a]) != key(rows[b]));
    }
    assert forall|k: K| holds(next, key, k) <==> holds(rows, key, k) by {
        if holds(next, key, k) {
            let p = position(next, key, k);
            assert(key(rows[p]) == k);
        }
        if holds(rows, key, k) {
            let p = position(rows, key, k);
            assert(key(next[p]) == k);
        }
    }
    lemma_position(rows, key, i);
    assert forall|k: K| holds(next, key, k) implies #[trigger] table(next, key)[k] == table(
        rows,
        key,
    ).insert(key(row), row)[k] by {
        let p = position(next, key, k);
        lemma_position(next, key, p);
        lemma_position(rows, key, p);
    }
    assert(table(next, key) =~= table(rows, key).insert(key(row), row));
}

/// Without a row the table is without its key.
pub proof fn lemma_remove<V, K>(rows: Seq<V>, key: spec_fn(V) -> K, i: int)
    requires
        distinct(rows, key),
        0 <= i < rows.len(),
    ensures
        distinct(rows.remove(i), key),
        !holds(rows.remove(i), key, key(rows[i])),
        table(rows.remove(i), key) == table(rows, key).remove(key(rows[i])),
        without(rows, key, key(rows[i])) == rows.remove(i),
{
    let next = rows.remove(i);
    assert forall|a: int| 0 <= a < next.len() implies #[trigger] next[a] == rows[if a < i {
        a
    } else {
        a + 1
    }] by {}
    assert forall|a: int, b: int| 0 <= a < b < next.len() implies key(#[trigger] next[a]) != key(
        #[trigger] next[b],
    ) by {
        let x = if a < i { a } else { a + 1 };
        let y = if b < i { b } else { b + 1 };
        assert(key(rows[x]) != key(rows[y]));
    }
    assert forall|a: int| 0 <= a < next.len() implies key(#[trigger] next[a]) != key(rows[i]) by {
        let x = if a < i { a } else { a + 1 };
        if x < i {
            assert(key(rows[x]) != key(rows[i]));
        } else {
            assert(key(rows[i]) != key(rows[x]));
        }
    }
    lemma_position(rows, key, i);
    assert forall|k: K| holds(next, key, k) <==> (k != key(rows[i]) && holds(rows, key, k)) by {
        if holds(next, key, k) {
            let a = position(next, key, k);
            let x = if a < i { a } else { a + 1 };
            assert(key(rows[x]) == k);
        }
        if k != key(rows[i]) && holds(rows, key, k) {
            let x = position(rows, key, k);
            let a = if x < i { x } else { x - 1 };
            assert(key(next[a]) == k);
        }
    }
    assert forall|k: K| holds(next, key, k) implies #[trigger] table(next, key)[k] == table(
        rows,
        key,
    ).remove(key(rows[i]))[k] by {
        let a = position(next, key, k);
        let x = if a < i { a } else { a + 1 };
        lemma_position(next, key, a);
        lemma_position(rows, key, x);
    }
    assert(table(next, key) =~= table(rows, key).remove(key(rows[i])));
}

/// Keeping the rows that `keep` accepts keeps their keys and nothing else.
pub proof fn lemma_filter<V, K>(rows: Seq<V>, key: spec_fn(V) -> K, keep: spec_fn(V) -> bool)
    requires
        distinct(rows, key),
    ensures
        distinct(rows.filter(keep), key),
        forall|k: K| #[trigger]
            table(rows.filter(keep), key).contains_key(k) <==> table(rows, key).contains_key(k)
                && keep(table(rows, key)[k]),
        forall|k: K| #[trigger]
            table(rows.filter(keep), key).contains_key(k) ==> table(rows.filter(keep), key)[k]
                == table(rows, key)[k],
    decreases rows.len(),
{
    let kept = rows.filter(keep);
    reveal(Seq::filter);
    if rows.len() > 0 {
        let front = rows.drop_last();
        let last = rows.last();
        assert forall|i: int, j: int| 0 <= i < j < front.len() implies key(#[trigger] front[i])
            != key(#[trigger] front[j]) by {
            assert(key(rows[i]) != key(rows[j]));
        }
        lemma_filter(front, key, keep);
        let sub = front.filter(keep);
        assert forall|i: int| 0 <= i < front.len() implies key(#[trigger] front[i]) != key(
            last,
        ) by {
            assert(key(rows[i]) != key(rows[rows.len() - 1]));
        }
        lemma_absent(front, key, key(last));
        assert(rows =~= front.push(last));
        lemma_push(front, key, last);
        if keep(last) {
            assert(!table(sub, key).contains_key(key(last)));
            lemma_push(sub, key, last);
        }
    }
}

/// Writing a row keeps every other key as it was and puts the row last.
pub proof fn lemma_written<V, K>(rows: Seq<V>, key: spec_fn(V) -> K, row: V)
    requires
        distinct(rows, key),
    ensures
        distinct(written(rows, key, row), key),
        table(written(rows, key, row), key) == table(rows, key).insert(key(row), row),
        written(rows, key, row).len() > 0,
        written(rows, key, row).last() == row,
{
    let k = key(row);
    if holds(rows, key, k) {
        let i = position(rows, key, k);
        lemma_remove(rows, key, i);
        lemma_push(rows.remove(i), key, row);
        assert(table(rows, key).remove(k).insert(k, row) =~= table(rows, key).insert(k, row));
    } else {
        lemma_push(rows, key, row);
    }
}

/// Writing a row in place keeps every other key and every seat as it was.
pub proof fn lemma_put<V, K>(rows: Seq<V>, key: spec_fn(V) -> K, row: V)
    requires
        distinct(rows, key),
    ensures
        distinct(put(rows, key, row), key),
        table(put(rows, key, row), key) == table(rows, key).insert(key(row), row),
        holds(put(rows, key, row), key, key(row)),
        put(rows, key, row)[position(put(rows, key, row), key, key(row))] == row,
        forall|i: int| 0 <= i < rows.len() && key(#[trigger] rows[i]) != key(row) ==> put(
            rows,
            key,
            row,
        )[i] == rows[i],
        put(rows, key, row).len() >= rows.len(),
{
    let k = key(row);
    let next = put(rows, key, row);
    if holds(rows, key, k) {
        let i = position(rows, key, k);
        lemma_update(rows, key, i, row);
        lemma_position(next, key, i);
    } else {
        lemma_push(rows, key, row);
        lemma_position(next, key, rows.len() as int);
    }
}

/// Writing a row in place leaves the rows with other keys where and as they
/// were.
pub proof fn lemma_put_keeps<V, K>(rows: Seq<V>, key: spec_fn(V) -> K, row: V, k: K)
    requires
        distinct(rows, key),
        holds(rows, key, k),
        key(row) != k,
    ensures
        holds(put(rows, key, row), key, k),
        position(put(rows, key, row), key, k) == position(rows, key, k),
        put(rows, key, row)[position(rows, key, k)] == rows[position(rows, key, k)],
{
    let p = position(rows, key, k);
    let next = put(rows, key, row);
    lemma_put(rows, key, row);
    assert(key(rows[p]) == k);
    assert(next[p] == rows[p]);
    lemma_position(next, key, p);
}

} // verus!
