//! Tables of rows: copying, selecting, finding and counting.
use vstd::prelude::*;

use crate::order::views;

verus! {

/// A row that can be copied without changing what it says.
pub trait Row: View + Sized {
    fn twin(&self) -> (r: Self)
        ensures
            r@ == self@,
    ;
}

/// A condition on rows.
pub trait Rule<T: View> {
    /// The rows that meet the condition.
    spec fn test(&self) -> spec_fn(T::V) -> bool;

    fn admits(&self, row: &T) -> (r: bool)
        ensures
            r == (self.test())(row@),
    ;
}

/// The position of the first row that meets a condition.
pub open spec fn first_index<A>(rows: Seq<A>, test: spec_fn(A) -> bool) -> Option<int>
    decreases rows.len(),
{
    if rows.len() == 0 {
        None
    } else if first_index(rows.drop_last(), test) is Some {
        first_index(rows.drop_last(), test)
    } else if test(rows.last()) {
        Some(rows.len() - 1)
    } else {
        None
    }
}

/// Some row meets a condition.
pub open spec fn some_row<A>(rows: Seq<A>, test: spec_fn(A) -> bool) -> bool {
    exists|i: int| 0 <= i < rows.len() && test(#[trigger] rows[i])
}

pub proof fn lemma_first_index<A>(rows: Seq<A>, test: spec_fn(A) -> bool)
    ensures
        match first_index(rows, test) {
            Some(i) => 0 <= i < rows.len() && test(rows[i]) && forall|j: int|
                0 <= j < i ==> !test(#[trigger] rows[j]),
            None => forall|j: int| 0 <= j < rows.len() ==> !test(#[trigger] rows[j]),
        },
    decreases rows.len(),
{
    if rows.len() > 0 {
        let front = rows.drop_last();
        lemma_first_index(front, test);
        match first_index(front, test) {
            Some(i) => {
                assert(front[i] == rows[i]);
                assert forall|j: int| 0 <= j < i implies !test(#[trigger] rows[j]) by {
                    assert(front[j] == rows[j]);
                }
            },
            None => {
                assert forall|j: int| 0 <= j < rows.len() - 1 implies !test(#[trigger] rows[j]) by {
                    assert(front[j] == rows[j]);
                }
            },
        }
    }
}

proof fn lemma_first_index_prefix<A>(rows: Seq<A>, test: spec_fn(A) -> bool, k: int)
    requires
        0 <= k <= rows.len(),
        first_index(rows.take(k), test) is Some,
    ensures
        first_index(rows, test) == first_index(rows.take(k), test),
    decreases rows.len(),
{
    if k < rows.len() {
        assert(rows.drop_last().take(k) =~= rows.take(k));
        lemma_first_index_prefix(rows.drop_last(), test, k);
    } else {
        assert(rows.take(k) =~= rows);
    }
}

/// A copy of a table.
pub fn copy_rows<T: Row>(rows: &Vec<T>) -> (r: Vec<T>)
    ensures
        views(r@) == views(rows@),
{
    let mut out: Vec<T> = Vec::new();
    let mut i: usize = 0;
    while i < rows.len()
        invariant
            i <= rows@.len(),
            views(out@) == views(rows@).take(i as int),
        decreases rows.len() - i,
    {
        let ghost before = views(out@);
        let row = rows[i].twin();
        out.push(row);
        i += 1;
        proof {
            assert(views(out@) =~= before.push(rows@[i as int - 1]@));
            assert(views(out@) =~= views(rows@).take(i as int));
        }
    }
    proof {
        assert(views(rows@).take(i as int) =~= views(rows@));
    }
    out
}

/// The rows that meet a condition, in their order.
pub fn select<T: Row, F: Rule<T>>(rows: &Vec<T>, rule: &F) -> (r: Vec<T>)
    ensures
        views(r@) == views(rows@).filter(rule.test()),
{
    reveal(Seq::filter);
    let ghost all = views(rows@);
    let mut out: Vec<T> = Vec::new();
    let mut i: usize = 0;
    proof {
        assert(all.take(0) =~= Seq::empty());
        assert(views(out@) =~= all.take(0).filter(rule.test()));
    }
    while i < rows.len()
        invariant
            i <= rows@.len(),
            all == views(rows@),
            views(out@) == all.take(i as int).filter(rule.test()),
        decreases rows.len() - i,
    {
        reveal(Seq::filter);
        proof {
            assert(all.take(i as int + 1).drop_last() =~= all.take(i as int));
            assert(all.take(i as int + 1).last() == rows@[i as int]@);
        }
        if rule.admits(&rows[i]) {
            let ghost before = views(out@);
            let row = rows[i].twin();
            out.push(row);
            proof {
                assert(views(out@) =~= before.push(rows@[i as int]@));
            }
        }
        i += 1;
    }
    proof {
        assert(all.take(i as int) =~= all);
    }
    out
}

/// The position of the first row that meets a condition.
pub fn find_row<T: View, F: Rule<T>>(rows: &Vec<T>, rule: &F) -> (r: Option<usize>)
    ensures
        match r {
            Some(i) => first_index(views(rows@), rule.test()) == Some(i as int) && i < rows@.len(),
            None => first_index(views(rows@), rule.test()) is None,
        },
{
    let ghost all = views(rows@);
    let mut i: usize = 0;
    proof {
        assert(all.take(0) =~= Seq::empty());
    }
    while i < rows.len()
        invariant
            i <= rows@.len(),
            all == views(rows@),
            first_index(all.take(i as int), rule.test()) is None,
        decreases rows.len() - i,
    {
        proof {
            assert(all.take(i as int + 1).drop_last() =~= all.take(i as int));
            assert(all.take(i as int + 1).last() == rows@[i as int]@);
        }
        if rule.admits(&rows[i]) {
            proof {
                lemma_first_index_prefix(all, rule.test(), i as int + 1);
            }
            return Some(i);
        }
        i += 1;
    }
    proof {
        assert(all.take(i as int) =~= all);
    }
    None
}

/// Whether some row meets a condition.
pub fn has_row<T: View, F: Rule<T>>(rows: &Vec<T>, rule: &F) -> (r: bool)
    ensures
        r == some_row(views(rows@), rule.test()),
{
    proof {
        lemma_first_index(views(rows@), rule.test());
    }
    find_row(rows, rule).is_some()
}

/// How many rows meet a condition.
pub fn count_rows<T: View, F: Rule<T>>(rows: &Vec<T>, rule: &F) -> (r: usize)
    ensures
        r == views(rows@).filter(rule.test()).len(),
{
    reveal(Seq::filter);
    let ghost all = views(rows@);
    let mut count: usize = 0;
    let mut i: usize = 0;
    proof {
        assert(all.take(0) =~= Seq::empty());
    }
    while i < rows.len()
        invariant
            i <= rows@.len(),
            count <= i,
            all == views(rows@),
            count == all.take(i as int).filter(rule.test()).len(),
        decreases rows.len() - i,
    {
        reveal(Seq::filter);
        proof {
            assert(all.take(i as int + 1).drop_last() =~= all.take(i as int));
            assert(all.take(i as int + 1).last() == rows@[i as int]@);
        }
        if rule.admits(&rows[i]) {
            count += 1;
        }
        i += 1;
    }
    proof {
        assert(all.take(i as int) =~= all);
    }
    count
}

/// A count of rows in the range of `i64`.
pub open spec fn row_count(n: int) -> i64 {
    if n > i64::MAX {
        i64::MAX
    } else {
        n as i64
    }
}

pub fn counted(n: usize) -> (r: i64)
    ensures
        r == row_count(n as int),
{
    if n as u64 > 0x7fff_ffff_ffff_ffff {
        i64::MAX
    } else {
        n as i64
    }
}

/// Keeping the rows that meet a condition keeps no other row.
pub proof fn lemma_filter_contains<A>(rows: Seq<A>, test: spec_fn(A) -> bool, row: A)
    ensures
        rows.filter(test).contains(row) == (rows.contains(row) && test(row)),
    decreases rows.len(),
{
    reveal(Seq::filter);
    if rows.len() > 0 {
        let front = rows.drop_last();
        lemma_filter_contains(front, test, row);
        let kept = front.filter(test);
        assert(rows =~= front.push(rows.last()));
        lemma_push_contains(front, rows.last(), row);
        lemma_push_contains(kept, rows.last(), row);
    }
}

/// What a list holds once a row is put at its end.
pub proof fn lemma_push_contains<A>(s: Seq<A>, x: A, y: A)
    ensures
        s.push(x).contains(y) == (s.contains(y) || x == y),
{
    if s.contains(y) {
        let k = choose|k: int| 0 <= k < s.len() && s[k] == y;
        assert(s.push(x)[k] == y);
    }
    if x == y {
        assert(s.push(x)[s.len() as int] == y);
    }
    if s.push(x).contains(y) {
        let k = choose|k: int| 0 <= k < s.push(x).len() && s.push(x)[k] == y;
        if k < s.len() {
            assert(s[k] == y);
        }
    }
}

/// Where no row meets a condition, none is kept.
pub proof fn lemma_filter_none<A>(rows: Seq<A>, test: spec_fn(A) -> bool)
    requires
        forall|i: int| 0 <= i < rows.len() ==> !test(#[trigger] rows[i]),
    ensures
        rows.filter(test) == Seq::<A>::empty(),
    decreases rows.len(),
{
    reveal(Seq::filter);
    if rows.len() > 0 {
        let front = rows.drop_last();
        assert forall|i: int| 0 <= i < front.len() implies !test(#[trigger] front[i]) by {
            assert(front[i] == rows[i]);
        }
        lemma_filter_none(front, test);
        assert(!test(rows[rows.len() - 1]));
    }
}

/// Conditions that agree on the rows keep the same ones.
pub proof fn lemma_filter_same<A>(rows: Seq<A>, a: spec_fn(A) -> bool, b: spec_fn(A) -> bool)
    requires
        forall|i: int| 0 <= i < rows.len() ==> a(#[trigger] rows[i]) == b(rows[i]),
    ensures
        rows.filter(a) == rows.filter(b),
    decreases rows.len(),
{
    reveal(Seq::filter);
    if rows.len() > 0 {
        let front = rows.drop_last();
        assert forall|i: int| 0 <= i < front.len() implies a(#[trigger] front[i]) == b(front[i]) by {
            assert(front[i] == rows[i]);
        }
        lemma_filter_same(front, a, b);
        assert(a(rows[rows.len() - 1]) == b(rows[rows.len() - 1]));
    }
}

} // verus!
