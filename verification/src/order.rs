//! Stable sorting of rows by a ranking.
//!
//! A ranking says which of two rows must stand before the other; rows of which neither must
//! stand first keep the order in which they came.
use vstd::prelude::*;

verus! {

/// The views of a sequence of values.
pub open spec fn views<T: View>(items: Seq<T>) -> Seq<T::V> {
    Seq::new(items.len(), |i: int| items[i]@)
}

pub proof fn lemma_views_push<T: View>(items: Seq<T>, item: T)
    ensures
        views(items.push(item)) == views(items).push(item@),
{
    assert(views(items.push(item)) =~= views(items).push(item@));
}

/// An order in which rows of one kind are listed.
pub trait Ranking<T: View> {
    /// Row `a` must stand before row `b`.
    spec fn before(a: T::V, b: T::V) -> bool;

    fn precedes(a: &T, b: &T) -> (r: bool)
        ensures
            r == Self::before(a@, b@),
    ;

    /// No row must stand before a row that must stand before it, and "not before" chains.
    proof fn lawful()
        ensures
            forall|a: T::V, b: T::V|
                !(#[trigger] Self::before(a, b) && #[trigger] Self::before(b, a)),
            forall|a: T::V, b: T::V, c: T::V|
                !#[trigger] Self::before(a, b) && !#[trigger] Self::before(b, c)
                    ==> !Self::before(a, c),
    ;
}

/// The rows with `row` put in behind every row that it need not precede, counted from the end.
pub open spec fn insert_ranked<T: View, R: Ranking<T>>(rows: Seq<T::V>, row: T::V) -> Seq<T::V>
    decreases rows.len(),
{
    if rows.len() > 0 && R::before(row, rows.last()) {
        insert_ranked::<T, R>(rows.drop_last(), row).push(rows.last())
    } else {
        rows.push(row)
    }
}

/// The rows in the order of the ranking; rows that tie keep their order.
pub open spec fn ranked<T: View, R: Ranking<T>>(rows: Seq<T::V>) -> Seq<T::V>
    decreases rows.len(),
{
    if rows.len() == 0 {
        Seq::empty()
    } else {
        insert_ranked::<T, R>(ranked::<T, R>(rows.drop_last()), rows.last())
    }
}

/// No row stands before one that must stand before it.
pub open spec fn in_order<T: View, R: Ranking<T>>(rows: Seq<T::V>) -> bool {
    forall|i: int, j: int| 0 <= i < j < rows.len() ==> !R::before(#[trigger] rows[j], #[trigger] rows[i])
}

proof fn lemma_insert_ranked<T: View, R: Ranking<T>>(rows: Seq<T::V>, row: T::V)
    ensures
        insert_ranked::<T, R>(rows, row).to_multiset() == rows.to_multiset().insert(row),
        insert_ranked::<T, R>(rows, row).len() == rows.len() + 1,
    decreases rows.len(),
{
    broadcast use vstd::seq_lib::group_to_multiset_ensures;

    if rows.len() > 0 && R::before(row, rows.last()) {
        lemma_insert_ranked::<T, R>(rows.drop_last(), row);
        let shorter = insert_ranked::<T, R>(rows.drop_last(), row);
        assert(rows =~= rows.drop_last().push(rows.last()));
        assert(insert_ranked::<T, R>(rows, row).to_multiset() =~= rows.to_multiset().insert(row));
    }
}

/// Sorting keeps exactly the rows that came in.
pub proof fn lemma_ranked_keeps_rows<T: View, R: Ranking<T>>(rows: Seq<T::V>)
    ensures
        ranked::<T, R>(rows).to_multiset() == rows.to_multiset(),
        ranked::<T, R>(rows).len() == rows.len(),
    decreases rows.len(),
{
    broadcast use vstd::seq_lib::group_to_multiset_ensures;

    if rows.len() == 0 {
        assert(ranked::<T, R>(rows) =~= rows);
    } else {
        lemma_ranked_keeps_rows::<T, R>(rows.drop_last());
        lemma_insert_ranked::<T, R>(ranked::<T, R>(rows.drop_last()), rows.last());
        assert(rows =~= rows.drop_last().push(rows.last()));
    }
}

/// A row comes out of the sort exactly when it went in.
pub proof fn lemma_ranked_contains<T: View, R: Ranking<T>>(rows: Seq<T::V>, row: T::V)
    ensures
        ranked::<T, R>(rows).contains(row) == rows.contains(row),
{
    broadcast use vstd::seq_lib::group_to_multiset_ensures;

    lemma_ranked_keeps_rows::<T, R>(rows);
    assert(rows.contains(row) <==> rows.to_multiset().count(row) > 0);
}

proof fn lemma_insert_in_order<T: View, R: Ranking<T>>(rows: Seq<T::V>, row: T::V)
    requires
        in_order::<T, R>(rows),
    ensures
        in_order::<T, R>(insert_ranked::<T, R>(rows, row)),
        forall|k: int|
            0 <= k < insert_ranked::<T, R>(rows, row).len() ==> (#[trigger] insert_ranked::<
                T,
                R,
            >(rows, row)[k] == row || rows.contains(insert_ranked::<T, R>(rows, row)[k])),
    decreases rows.len(),
{
    R::lawful();
    let out = insert_ranked::<T, R>(rows, row);
    if rows.len() > 0 && R::before(row, rows.last()) {
        let front = rows.drop_last();
        assert forall|i: int, j: int| 0 <= i < j < front.len() implies !R::before(
            #[trigger] front[j],
            #[trigger] front[i],
        ) by {
            assert(front[j] == rows[j] && front[i] == rows[i]);
        }
        lemma_insert_in_order::<T, R>(front, row);
        let short = insert_ranked::<T, R>(front, row);
        assert forall|k: int| 0 <= k < out.len() implies #[trigger] out[k] == row || rows.contains(
            out[k],
        ) by {
            if k < short.len() {
                assert(out[k] == short[k]);
                if short[k] != row {
                    let m = choose|m: int| 0 <= m < front.len() && front[m] == short[k];
                    assert(rows[m] == short[k]);
                }
            } else {
                assert(out[k] == rows[rows.len() - 1]);
            }
        }
        assert forall|i: int, j: int| 0 <= i < j < out.len() implies !R::before(
            #[trigger] out[j],
            #[trigger] out[i],
        ) by {
            if j < short.len() {
                assert(out[i] == short[i] && out[j] == short[j]);
            } else {
                assert(out[j] == rows.last());
                assert(out[i] == short[i]);
                if short[i] == row {
                } else {
                    let m = choose|m: int| 0 <= m < front.len() && front[m] == short[i];
                    assert(rows[m] == short[i]);
                    assert(!R::before(rows[rows.len() - 1], rows[m]));
                }
            }
        }
    } else {
        assert forall|k: int| 0 <= k < out.len() implies #[trigger] out[k] == row || rows.contains(
            out[k],
        ) by {
            if k < rows.len() {
                assert(out[k] == rows[k]);
            }
        }
        assert forall|i: int, j: int| 0 <= i < j < out.len() implies !R::before(
            #[trigger] out[j],
            #[trigger] out[i],
        ) by {
            if j < rows.len() {
                assert(out[i] == rows[i] && out[j] == rows[j]);
            } else {
                assert(out[j] == row);
                assert(out[i] == rows[i]);
                assert(!R::before(row, rows[rows.len() - 1]));
                if i < rows.len() - 1 {
                    assert(!R::before(rows[rows.len() - 1], rows[i]));
                }
            }
        }
    }
}

/// The result of the sort is in the order of the ranking.
pub proof fn lemma_ranked_in_order<T: View, R: Ranking<T>>(rows: Seq<T::V>)
    ensures
        in_order::<T, R>(ranked::<T, R>(rows)),
    decreases rows.len(),
{
    if rows.len() > 0 {
        lemma_ranked_in_order::<T, R>(rows.drop_last());
        lemma_insert_in_order::<T, R>(ranked::<T, R>(rows.drop_last()), rows.last());
    }
}

/// Puts one row into a list, behind every row that it need not precede.
fn insert_by_rank<T: View, R: Ranking<T>>(out: &mut Vec<T>, item: T)
    ensures
        views(final(out)@) == insert_ranked::<T, R>(views(old(out)@), item@),
{
    let mut at: usize = out.len();
    let ghost rows = views(out@);
    let ghost row = item@;
    proof {
        assert(rows.take(rows.len() as int) =~= rows);
        assert(rows.skip(rows.len() as int) =~= Seq::empty());
        assert(insert_ranked::<T, R>(rows, row) + Seq::<T::V>::empty() =~= insert_ranked::<T, R>(
            rows,
            row,
        ));
    }
    while at > 0 && R::precedes(&item, &out[at - 1])
        invariant
            at <= out@.len(),
            out@ == old(out)@,
            rows == views(out@),
            row == item@,
            insert_ranked::<T, R>(rows, row) == insert_ranked::<T, R>(rows.take(at as int), row)
                + rows.skip(at as int),
        decreases at,
    {
        proof {
            let head = rows.take(at as int);
            assert(head.drop_last() =~= rows.take(at as int - 1));
            assert(head.last() == rows[at as int - 1]);
            assert(insert_ranked::<T, R>(head, row) + rows.skip(at as int) =~= insert_ranked::<
                T,
                R,
            >(rows.take(at as int - 1), row) + rows.skip(at as int - 1));
        }
        at -= 1;
    }
    proof {
        let head = rows.take(at as int);
        if at > 0 {
            assert(head.last() == rows[at as int - 1]);
        }
        assert(insert_ranked::<T, R>(head, row) == head.push(row));
    }
    out.insert(at, item);
    proof {
        assert(views(out@) =~= rows.take(at as int).push(row) + rows.skip(at as int));
    }
}

/// Sorts a list by a ranking; rows that tie keep their order.
pub fn sort_ranked<T: View, R: Ranking<T>>(items: Vec<T>) -> (r: Vec<T>)
    ensures
        views(r@) == ranked::<T, R>(views(items@)),
{
    let ghost all = views(items@);
    let mut rest = items;
    let mut waiting: Vec<T> = Vec::new();
    // Turn the list round, so that its first row can be taken from the end.
    while rest.len() > 0
        invariant
            rest@.len() + waiting@.len() == all.len(),
            forall|i: int| 0 <= i < rest@.len() ==> (#[trigger] rest@[i])@ == all[i],
            forall|i: int|
                0 <= i < waiting@.len() ==> (#[trigger] waiting@[i])@ == all[all.len() - 1 - i],
        decreases rest.len(),
    {
        match rest.pop() {
            Some(item) => {
                waiting.push(item);
            },
            None => {},
        }
    }
    let mut out: Vec<T> = Vec::new();
    proof {
        assert(all.take(0) =~= Seq::empty());
        assert(views(out@) =~= Seq::empty());
    }
    while waiting.len() > 0
        invariant
            waiting@.len() <= all.len(),
            forall|i: int|
                0 <= i < waiting@.len() ==> (#[trigger] waiting@[i])@ == all[all.len() - 1 - i],
            views(out@) == ranked::<T, R>(all.take(all.len() - waiting@.len())),
        decreases waiting.len(),
    {
        let ghost done = all.len() - waiting@.len();
        match waiting.pop() {
            Some(item) => {
                proof {
                    assert(item@ == all[done]);
                    assert(all.take(done + 1).drop_last() =~= all.take(done));
                    assert(all.take(done + 1).last() == all[done]);
                }
                insert_by_rank::<T, R>(&mut out, item);
            },
            None => {},
        }
    }
    proof {
        assert(all.take(all.len() as int) =~= all);
    }
    out
}

/// Rows that stand in order already are left as they are: of rows that tie, the one that came
/// first stays first.
pub proof fn sorting_leaves_sorted_rows<T: View, R: Ranking<T>>(rows: Seq<T::V>)
    requires
        in_order::<T, R>(rows),
    ensures
        ranked::<T, R>(rows) == rows,
    decreases rows.len(),
{
    if rows.len() == 0 {
        assert(ranked::<T, R>(rows) =~= rows);
    } else {
        let front = rows.drop_last();
        assert forall|i: int, j: int| 0 <= i < j < front.len() implies !R::before(
            #[trigger] front[j],
            #[trigger] front[i],
        ) by {
            assert(front[j] == rows[j] && front[i] == rows[i]);
        }
        sorting_leaves_sorted_rows::<T, R>(front);
        if front.len() > 0 {
            assert(!R::before(rows[rows.len() - 1], rows[rows.len() - 2]));
        }
        assert(front.push(rows.last()) =~= rows);
    }
}

} // verus!
