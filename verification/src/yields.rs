//! What an iterator yields in the end, whatever the steps it takes.
//!
//! Every iterator stands for a sequence of records: a scan for the rows of
//! its ranges, a list for its records, a join for the entries that its index
//! holds under each record that its outer iterators yield. A step hands out
//! the head of that sequence and leaves an iterator that stands for the
//! rest. So the records handed out up to the moment an iterator is done are
//! the sequence it stood for at the start.

use vstd::prelude::*;
use crate::idx::IndexKeyBase;
use crate::iterators::{
    IterView, JoinView, equal_range, join_advance, join_opened, join_range, join_step, join_value,
    row_things,
    scans_after, scans_emit, taken, view_done, view_range, view_step,
};
use crate::key::Key;
use crate::scan::{answer, lemma_rows_behind, rows_in, rows_of_all, run, sorted_keys};
use crate::sql::Thing;

verus! {

/// The record of the first row of each of the ranges `left` that has a row,
/// range after range.
pub open spec fn firsts_of_all(
    store: Seq<(Key, Thing)>,
    left: Seq<(Seq<u8>, Seq<u8>)>,
) -> Seq<Thing>
    decreases left.len(),
{
    if left.len() == 0 {
        Seq::empty()
    } else {
        (if rows_in(store, left[0]).len() > 0 {
            seq![rows_in(store, left[0])[0].1]
        } else {
            Seq::empty()
        }) + firsts_of_all(store, left.drop_first())
    }
}

/// What a scan of the ranges `left` yields: every row of each range, or the
/// first row of each range where one record is taken from each.
pub open spec fn scan_yields(
    store: Seq<(Key, Thing)>,
    left: Seq<(Seq<u8>, Seq<u8>)>,
    unique: bool,
) -> Seq<Thing> {
    if unique {
        firsts_of_all(store, left)
    } else {
        rows_of_all(store, left)
    }
}

/// What an inner scan that may be missing yields.
pub open spec fn local_yields(
    store: Seq<(Key, Thing)>,
    local: Option<Seq<(Seq<u8>, Seq<u8>)>>,
    unique: bool,
) -> Seq<Thing> {
    match local {
        Some(l) => scan_yields(store, l, unique),
        None => Seq::empty(),
    }
}

/// What a join yields for the outer records `things`: for each of them, in
/// their order, what the scan for the record's number yields.
pub open spec fn expand(
    store: Seq<(Key, Thing)>,
    base: IndexKeyBase,
    unique: bool,
    things: Seq<Thing>,
) -> Seq<Thing>
    decreases things.len(),
{
    if things.len() == 0 {
        Seq::empty()
    } else {
        scan_yields(store, seq![equal_range(base, join_value(things[0]))], unique) + expand(
            store,
            base,
            unique,
            things.drop_first(),
        )
    }
}

/// What an iterator yields over a store that holds `store`.
pub open spec fn yields(v: IterView, store: Seq<(Key, Thing)>) -> Seq<Thing>
    decreases v, 0nat,
{
    match v {
        IterView::IndexEqual(left) => rows_of_all(store, left),
        IterView::UniqueEqual(left) => firsts_of_all(store, left),
        IterView::IndexRange(left) => rows_of_all(store, left),
        IterView::UniqueRange(left) => rows_of_all(store, left),
        IterView::IndexUnion(left) => rows_of_all(store, left),
        IterView::UniqueUnion(left) => firsts_of_all(store, left),
        IterView::IndexJoin(base, j) => join_yields(store, base, false, j),
        IterView::UniqueJoin(base, j) => join_yields(store, base, true, j),
        IterView::Matches(left) => left,
        IterView::Knn(left) => left,
        IterView::Things(left) => left,
    }
}

/// What a join yields: what its open inner scan yields, and then what it
/// yields for the records that wait and the records that its outer
/// iterators yield.
pub open spec fn join_yields(
    store: Seq<(Key, Thing)>,
    base: IndexKeyBase,
    unique: bool,
    j: JoinView,
) -> Seq<Thing>
    decreases j, 0nat,
{
    local_yields(store, j.local, unique) + expand(
        store,
        base,
        unique,
        j.waiting + outer_yields(j.remotes, store, j.remotes.len()),
    )
}

/// What the first `n` of the outer iterators yield, one after the other.
pub open spec fn outer_yields(
    remotes: Seq<IterView>,
    store: Seq<(Key, Thing)>,
    n: nat,
) -> Seq<Thing>
    decreases remotes, n,
{
    if n == 0 || n > remotes.len() {
        Seq::empty()
    } else {
        outer_yields(remotes, store, (n - 1) as nat) + yields(remotes[n - 1], store)
    }
}

/// The rows that a store answers to what the iterator asks before its step.
pub open spec fn rows_for(v: IterView, store: Seq<(Key, Thing)>, limit: u32) -> Seq<(Key, Thing)> {
    match view_range(v) {
        Some(r) => answer(store, r, limit as nat),
        None => Seq::empty(),
    }
}

/// The iterator after `steps` steps, or after the step with which it was done.
pub open spec fn state_after(
    v: IterView,
    store: Seq<(Key, Thing)>,
    limit: u32,
    steps: nat,
) -> IterView
    decreases steps,
{
    if steps == 0 || view_done(v) {
        v
    } else {
        state_after(view_step(v, rows_for(v, store, limit), limit).0, store, limit, (steps - 1) as nat)
    }
}

/// A step of a scan hands out the head of what the scan yields, and leaves
/// the scan of the rest.
pub proof fn lemma_scan_step(
    store: Seq<(Key, Thing)>,
    left: Seq<(Seq<u8>, Seq<u8>)>,
    unique: bool,
    limit: u32,
)
    requires
        sorted_keys(store),
        limit > 0,
        left.len() > 0,
    ensures
        scan_yields(store, left, unique) == scans_emit(left, unique, answer(store, left[0], limit as nat))
            + scan_yields(store, scans_after(left, unique, answer(store, left[0], limit as nat)), unique),
{
    let a = rows_in(store, left[0]);
    let rows = answer(store, left[0], limit as nat);
    let after = scans_after(left, unique, rows);
    let out = scans_emit(left, unique, rows);
    if a.len() == 0 {
        assert(after == left.drop_first());
        assert(out =~= Seq::<Thing>::empty());
        assert(row_things(a) =~= Seq::<Thing>::empty());
        assert(out + scan_yields(store, after, unique) =~= scan_yields(store, after, unique));
        assert(Seq::<Thing>::empty() + scan_yields(store, after, unique) =~= scan_yields(
            store,
            after,
            unique,
        ));
    } else {
        let m: int = if a.len() <= limit { a.len() as int } else { limit as int };
        assert(rows =~= a.take(m));
        if unique {
            assert(after == left.drop_first());
            assert(out =~= seq![a[0].1]);
        } else {
            assert(rows.last() == a[m - 1]);
            lemma_rows_behind(store, left[0], m);
            assert(after.drop_first() =~= left.drop_first());
            assert(rows_in(store, after[0]) == a.skip(m));
            assert(row_things(a.take(m)) + row_things(a.skip(m)) =~= row_things(a));
            assert(row_things(a.take(m)) + (row_things(a.skip(m)) + rows_of_all(store, left.drop_first()))
                =~= (row_things(a.take(m)) + row_things(a.skip(m))) + rows_of_all(
                store,
                left.drop_first(),
            ));
        }
    }
}

/// An iterator that is done yields nothing.
pub proof fn lemma_done_yields(v: IterView, store: Seq<(Key, Thing)>)
    requires
        view_done(v),
    ensures
        yields(v, store) == Seq::<Thing>::empty(),
{
    match v {
        IterView::IndexJoin(base, j) => {
            assert(j.waiting + outer_yields(j.remotes, store, 0) =~= Seq::<Thing>::empty());
            assert(yields(v, store) =~= Seq::<Thing>::empty());
        },
        IterView::UniqueJoin(base, j) => {
            assert(j.waiting + outer_yields(j.remotes, store, 0) =~= Seq::<Thing>::empty());
            assert(yields(v, store) =~= Seq::<Thing>::empty());
        },
        IterView::Matches(left) => {
            assert(left =~= Seq::<Thing>::empty());
        },
        IterView::Knn(left) => {
            assert(left =~= Seq::<Thing>::empty());
        },
        IterView::Things(left) => {
            assert(left =~= Seq::<Thing>::empty());
        },
        _ => {},
    }
}

/// What outer iterators yield is what the first yields and then what the
/// others yield.
pub proof fn lemma_outer_split(remotes: Seq<IterView>, store: Seq<(Key, Thing)>, n: nat)
    requires
        1 <= n <= remotes.len(),
    ensures
        outer_yields(remotes, store, n) == yields(remotes[0], store) + outer_yields(
            remotes.drop_first(),
            store,
            (n - 1) as nat,
        ),
    decreases n,
{
    let rest = remotes.drop_first();
    if n == 1 {
        assert(outer_yields(remotes, store, 0) =~= Seq::<Thing>::empty());
        assert(outer_yields(remotes, store, 1) =~= yields(remotes[0], store));
        assert(yields(remotes[0], store) + outer_yields(rest, store, 0) =~= yields(remotes[0], store));
    } else {
        lemma_outer_split(remotes, store, (n - 1) as nat);
        assert(rest[n - 2] == remotes[n - 1]);
        let a = yields(remotes[0], store);
        let b = outer_yields(rest, store, (n - 2) as nat);
        let c = yields(remotes[n - 1], store);
        assert((a + b) + c =~= a + (b + c));
    }
}

/// Opening the inner scan of the record that waits first does not change
/// what a join yields.
pub proof fn lemma_advance_yields(
    store: Seq<(Key, Thing)>,
    base: IndexKeyBase,
    unique: bool,
    j: JoinView,
)
    ensures
        join_yields(store, base, unique, join_advance(base, j)) == join_yields(store, base, unique, j),
{
    if j.local is None && j.waiting.len() > 0 {
        let t = j.waiting[0];
        let rest = j.waiting.drop_first();
        let outer = outer_yields(j.remotes, store, j.remotes.len());
        let all = j.waiting + outer;
        assert(all[0] == t);
        assert(all.drop_first() =~= rest + outer);
        let e = Seq::<Thing>::empty();
        let opened = seq![equal_range(base, join_value(t))];
        let tail = expand(store, base, unique, rest + outer);
        assert(e + (scan_yields(store, opened, unique) + tail) =~= scan_yields(store, opened, unique) + tail);
    }
}

/// A step hands out the head of what the iterator yields, and leaves an
/// iterator that yields the rest.
pub proof fn lemma_step_yields(v: IterView, store: Seq<(Key, Thing)>, limit: u32)
    requires
        sorted_keys(store),
        limit > 0,
    ensures
        yields(v, store) == view_step(v, rows_for(v, store, limit), limit).1 + yields(
            view_step(v, rows_for(v, store, limit), limit).0,
            store,
        ),
    decreases v, 0nat,
{
    let rows = rows_for(v, store, limit);
    let e = Seq::<Thing>::empty();
    match v {
        IterView::IndexEqual(left) => {
            lemma_scan_part(store, left, false, limit);
        },
        IterView::UniqueEqual(left) => {
            lemma_scan_part(store, left, true, limit);
        },
        IterView::IndexRange(left) => {
            lemma_scan_part(store, left, false, limit);
        },
        IterView::UniqueRange(left) => {
            lemma_scan_part(store, left, false, limit);
        },
        IterView::IndexUnion(left) => {
            lemma_scan_part(store, left, false, limit);
        },
        IterView::UniqueUnion(left) => {
            lemma_scan_part(store, left, true, limit);
        },
        IterView::IndexJoin(base, j) => {
            lemma_join_step_yields(store, base, false, j, limit);
        },
        IterView::UniqueJoin(base, j) => {
            lemma_join_step_yields(store, base, true, j, limit);
        },
        IterView::Matches(left) => {
            let n = taken(left.len(), limit);
            assert(left.take(n) + left.skip(n) =~= left);
        },
        IterView::Knn(left) => {
            let n = taken(left.len(), limit);
            assert(left.take(n) + left.skip(n) =~= left);
        },
        IterView::Things(left) => {
            let n = taken(left.len(), limit);
            assert(left.take(n) + left.skip(n) =~= left);
        },
    }
}

/// A step of a scan, with or without ranges left.
proof fn lemma_scan_part(
    store: Seq<(Key, Thing)>,
    left: Seq<(Seq<u8>, Seq<u8>)>,
    unique: bool,
    limit: u32,
)
    requires
        sorted_keys(store),
        limit > 0,
    ensures
        ({
            let rows = if left.len() > 0 {
                answer(store, left[0], limit as nat)
            } else {
                Seq::<(Key, Thing)>::empty()
            };
            scan_yields(store, left, unique) == scans_emit(left, unique, rows) + scan_yields(
                store,
                scans_after(left, unique, rows),
                unique,
            )
        }),
{
    if left.len() > 0 {
        lemma_scan_step(store, left, unique, limit);
    } else {
        assert(Seq::<Thing>::empty() + scan_yields(store, left, unique) =~= scan_yields(store, left, unique));
    }
}

/// A step of a join hands out the head of what the join yields, and leaves
/// a join that yields the rest.
pub proof fn lemma_join_step_yields(
    store: Seq<(Key, Thing)>,
    base: IndexKeyBase,
    unique: bool,
    j: JoinView,
    limit: u32,
)
    requires
        sorted_keys(store),
        limit > 0,
    ensures
        ({
            let rows = match join_range(j) {
                Some(r) => answer(store, r, limit as nat),
                None => Seq::<(Key, Thing)>::empty(),
            };
            join_yields(store, base, unique, j) == join_step(base, unique, j, rows, limit).1 + join_yields(
                store,
                base,
                unique,
                join_step(base, unique, j, rows, limit).0,
            )
        }),
    decreases j, 1nat,
{
    let rows = match join_range(j) {
        Some(r) => answer(store, r, limit as nat),
        None => Seq::<(Key, Thing)>::empty(),
    };
    let e = Seq::<Thing>::empty();
    let outer_all = outer_yields(j.remotes, store, j.remotes.len());
    let rest_all = expand(store, base, unique, j.waiting + outer_all);
    match j.local {
        Some(l) => {
            lemma_scan_part(store, l, unique, limit);
            let l2 = scans_after(l, unique, rows);
            let out = scans_emit(l, unique, rows);
            let j1 = JoinView { local: if l2.len() == 0 { None } else { Some(l2) }, ..j };
            lemma_advance_yields(store, base, unique, j1);
            if l2.len() == 0 {
                assert(scan_yields(store, l2, unique) =~= e);
            }
            assert(local_yields(store, j1.local, unique) == scan_yields(store, l2, unique));
            assert((out + scan_yields(store, l2, unique)) + rest_all =~= out + (scan_yields(
                store,
                l2,
                unique,
            ) + rest_all));
        },
        None => {
            if j.remotes.len() == 0 {
                assert(e + join_yields(store, base, unique, j) =~= join_yields(store, base, unique, j));
            } else {
                let head = j.remotes[0];
                let tail = j.remotes.drop_first();
                assert(rows == rows_for(head, store, limit));
                lemma_step_yields(head, store, limit);
                let r2 = view_step(head, rows, limit).0;
                let outer = view_step(head, rows, limit).1;
                let remotes = if view_done(r2) { tail } else { j.remotes.update(0, r2) };
                let j1 = JoinView { remotes, waiting: j.waiting + outer, ..j };
                lemma_advance_yields(store, base, unique, j1);
                lemma_outer_split(j.remotes, store, j.remotes.len());
                let tail_all = outer_yields(tail, store, tail.len());
                if view_done(r2) {
                    lemma_done_yields(r2, store);
                    assert(outer + e =~= outer);
                } else {
                    lemma_outer_split(remotes, store, remotes.len());
                    assert(remotes.drop_first() =~= tail);
                }
                assert(outer_yields(remotes, store, remotes.len()) == yields(r2, store) + tail_all);
                assert((j.waiting + outer) + (yields(r2, store) + tail_all) =~= j.waiting + ((outer + yields(
                    r2,
                    store,
                )) + tail_all));
                assert(e + rest_all =~= rest_all);
                assert(e + join_yields(store, base, unique, j1) =~= join_yields(store, base, unique, j1));
            }
        },
    }
}

/// What an iterator hands out over any number of steps, and what the
/// iterator that is left yields, are together what the iterator yields. So
/// an iterator that was driven until it is done has handed out what it
/// yields: no record is lost, none is handed out twice, and the order is
/// kept, whatever the size of the batches.
pub proof fn law_run_yields(v: IterView, store: Seq<(Key, Thing)>, limit: u32, steps: nat)
    requires
        sorted_keys(store),
        limit > 0,
    ensures
        run(v, store, limit, steps) + yields(state_after(v, store, limit, steps), store) == yields(v, store),
        view_done(state_after(v, store, limit, steps)) ==> run(v, store, limit, steps) == yields(v, store),
    decreases steps,
{
    let e = Seq::<Thing>::empty();
    if steps == 0 || view_done(v) {
        assert(e + yields(v, store) =~= yields(v, store));
        if view_done(v) {
            lemma_done_yields(v, store);
        }
    } else {
        let rows = rows_for(v, store, limit);
        let v2 = view_step(v, rows, limit).0;
        let out = view_step(v, rows, limit).1;
        lemma_step_yields(v, store, limit);
        law_run_yields(v2, store, limit, (steps - 1) as nat);
        let last = state_after(v2, store, limit, (steps - 1) as nat);
        let r = run(v2, store, limit, (steps - 1) as nat);
        assert((out + r) + yields(last, store) =~= out + (r + yields(last, store)));
        if view_done(last) {
            lemma_done_yields(last, store);
            assert((out + r) + e =~= out + r);
            assert(out + r + yields(last, store) =~= out + r);
        }
    }
}

/// A join that has not begun yields, for each record that its outer
/// iterators yield, in their order, what the scan of its index for the
/// record's number yields.
pub proof fn law_join_yields(store: Seq<(Key, Thing)>, base: IndexKeyBase, remotes: Seq<IterView>)
    ensures
        yields(IterView::IndexJoin(base, join_opened(remotes)), store) == expand(
            store,
            base,
            false,
            outer_yields(remotes, store, remotes.len()),
        ),
        yields(IterView::UniqueJoin(base, join_opened(remotes)), store) == expand(
            store,
            base,
            true,
            outer_yields(remotes, store, remotes.len()),
        ),
{
    let outer = outer_yields(remotes, store, remotes.len());
    let e = Seq::<Thing>::empty();
    assert(e + outer =~= outer);
    assert(e + expand(store, base, false, outer) =~= expand(store, base, false, outer));
    assert(e + expand(store, base, true, outer) =~= expand(store, base, true, outer));
}

} // verus!
