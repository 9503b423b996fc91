//! What a scan over an ordered index yields in the end.
//!
//! An iterator over an index asks the store for the rows of a range, a
//! batch at a time, and goes on behind the last row of each batch. This
//! module states what the store holds, what it answers, and proves that the
//! batches together are the rows of the range, each once, in key order; and
//! that the rows of the range that is scanned for an operator are the
//! entries of the values that the operator asks for.

use vstd::prelude::*;
use crate::idx::{IndexKeyBase, between, law_equal_range, law_range};
use crate::iterators::{
    IterView, between_range, equal_range, row_things, scans_after, scans_emit, taken,
    union_ranges, view_done, view_range, view_step,
};
use crate::key::{
    Key, in_range, lemma_lex_asymmetric, lemma_lex_irreflexive, lemma_lex_successor,
    lemma_lex_transitive, lex_le, lex_lt,
};
use crate::kvs::scan_rows;
use crate::plan::RangeValue;
use crate::sql::Thing;

verus! {

/// The rows stand in the strict order of their keys, as a store keeps them.
pub open spec fn sorted_keys<V>(store: Seq<(Key, V)>) -> bool {
    forall|i: int, j: int| 0 <= i < j < store.len() ==> lex_lt(#[trigger] store[i].0@, #[trigger] store[j].0@)
}

/// The rows of `store` whose keys `p` holds of, in the order of the store.
pub open spec fn rows_where<V>(store: Seq<(Key, V)>, p: spec_fn(Seq<u8>) -> bool) -> Seq<(Key, V)>
    decreases store.len(),
{
    if store.len() == 0 {
        Seq::empty()
    } else {
        let rest = rows_where(store.drop_last(), p);
        if p(store.last().0@) {
            rest.push(store.last())
        } else {
            rest
        }
    }
}

/// The rows of `store` whose keys lie in the range `r`.
pub open spec fn rows_in<V>(store: Seq<(Key, V)>, r: (Seq<u8>, Seq<u8>)) -> Seq<(Key, V)> {
    rows_where(store, |k: Seq<u8>| in_range(k, r.0, r.1))
}

/// What a store that holds `store` answers to a scan of the range `r` that
/// asks for `limit` rows at most: the first rows of the range.
pub open spec fn answer<V>(store: Seq<(Key, V)>, r: (Seq<u8>, Seq<u8>), limit: nat) -> Seq<(Key, V)> {
    let all = rows_in(store, r);
    if all.len() <= limit {
        all
    } else {
        all.take(limit as int)
    }
}

/// The records that a scan of the ranges `left` hands out over `steps`
/// steps, each step asking the store for `limit` rows.
pub open spec fn drain(
    store: Seq<(Key, Thing)>,
    left: Seq<(Seq<u8>, Seq<u8>)>,
    limit: nat,
    steps: nat,
) -> Seq<Thing>
    decreases steps,
{
    if steps == 0 || left.len() == 0 {
        Seq::empty()
    } else {
        let rows = answer(store, left[0], limit);
        scans_emit(left, false, rows) + drain(store, scans_after(left, false, rows), limit, (steps - 1) as nat)
    }
}

/// The records of the rows of each of the ranges `left`, range after range.
pub open spec fn rows_of_all(store: Seq<(Key, Thing)>, left: Seq<(Seq<u8>, Seq<u8>)>) -> Seq<Thing>
    decreases left.len(),
{
    if left.len() == 0 {
        Seq::empty()
    } else {
        row_things(rows_in(store, left[0])) + rows_of_all(store, left.drop_first())
    }
}

/// The steps that a scan of the ranges `left` takes at most: one for each
/// row, and one more for each range to find it at its end.
pub open spec fn steps_needed(store: Seq<(Key, Thing)>, left: Seq<(Seq<u8>, Seq<u8>)>) -> nat
    decreases left.len(),
{
    if left.len() == 0 {
        0
    } else {
        rows_in(store, left[0]).len() + 1 + steps_needed(store, left.drop_first())
    }
}

/// Two tests that agree on the keys of a store pick the same rows.
pub proof fn lemma_rows_where_same<V>(
    store: Seq<(Key, V)>,
    p: spec_fn(Seq<u8>) -> bool,
    q: spec_fn(Seq<u8>) -> bool,
)
    requires
        forall|i: int| 0 <= i < store.len() ==> p(#[trigger] store[i].0@) == q(store[i].0@),
    ensures
        rows_where(store, p) == rows_where(store, q),
    decreases store.len(),
{
    if store.len() > 0 {
        let s = store.drop_last();
        assert forall|i: int| 0 <= i < s.len() implies p(#[trigger] s[i].0@) == q(s[i].0@) by {
            assert(s[i] == store[i]);
        }
        lemma_rows_where_same(s, p, q);
        assert(store.last() == store[store.len() - 1]);
    }
}

/// The rows that a test picks are rows of the store that pass the test, and
/// they keep the order of the store.
pub proof fn lemma_rows_where<V>(store: Seq<(Key, V)>, p: spec_fn(Seq<u8>) -> bool)
    ensures
        rows_where(store, p).len() <= store.len(),
        forall|i: int|
            0 <= i < rows_where(store, p).len() ==> p((#[trigger] rows_where(store, p)[i]).0@)
                && store.contains(rows_where(store, p)[i]),
        sorted_keys(store) ==> sorted_keys(rows_where(store, p)),
    decreases store.len(),
{
    let r = rows_where(store, p);
    if store.len() > 0 {
        let s = store.drop_last();
        let x = store.last();
        let rest = rows_where(s, p);
        lemma_rows_where(s, p);
        assert forall|i: int| 0 <= i < r.len() implies p((#[trigger] r[i]).0@) && store.contains(r[i]) by {
            if i < rest.len() {
                assert(r[i] == rest[i]);
                assert(s.contains(rest[i]));
                let a = choose|a: int| 0 <= a < s.len() && s[a] == rest[i];
                assert(store[a] == r[i]);
            } else {
                assert(store[store.len() - 1] == r[i]);
            }
        }
        if sorted_keys(store) {
            assert(sorted_keys(s)) by {
                assert forall|i: int, j: int| 0 <= i < j < s.len() implies lex_lt(
                    #[trigger] s[i].0@,
                    #[trigger] s[j].0@,
                ) by {
                    assert(s[i] == store[i] && s[j] == store[j]);
                }
            }
            assert forall|i: int, j: int| 0 <= i < j < r.len() implies lex_lt(
                #[trigger] r[i].0@,
                #[trigger] r[j].0@,
            ) by {
                if j < rest.len() {
                    assert(r[i] == rest[i] && r[j] == rest[j]);
                } else {
                    assert(r[i] == rest[i]);
                    assert(s.contains(rest[i]));
                    let a = choose|a: int| 0 <= a < s.len() && s[a] == rest[i];
                    assert(store[a] == r[i]);
                    assert(store[store.len() - 1] == r[j]);
                }
            }
        }
    }
}

/// Picking by one test from the rows that another picked is picking by both.
pub proof fn lemma_rows_where_twice<V>(
    store: Seq<(Key, V)>,
    p: spec_fn(Seq<u8>) -> bool,
    q: spec_fn(Seq<u8>) -> bool,
)
    ensures
        rows_where(rows_where(store, p), q) == rows_where(store, |k: Seq<u8>| p(k) && q(k)),
    decreases store.len(),
{
    if store.len() > 0 {
        let s = store.drop_last();
        let x = store.last();
        lemma_rows_where_twice(s, p, q);
        if p(x.0@) {
            let rest = rows_where(s, p);
            assert(rest.push(x).drop_last() =~= rest);
        }
    }
}

/// In a sorted store, the rows above the key of the `m`-th row are the rows
/// behind the `m`-th.
pub proof fn lemma_rows_above<V>(a: Seq<(Key, V)>, m: int)
    requires
        sorted_keys(a),
        1 <= m <= a.len(),
    ensures
        rows_where(a, |k: Seq<u8>| lex_lt(a[m - 1].0@, k)) == a.skip(m),
{
    lemma_rows_above_upto(a, m, a.len() as int);
    assert(a.take(a.len() as int) =~= a);
    assert(a.subrange(m, a.len() as int) =~= a.skip(m));
}

proof fn lemma_rows_above_upto<V>(a: Seq<(Key, V)>, m: int, n: int)
    requires
        sorted_keys(a),
        1 <= m <= a.len(),
        0 <= n <= a.len(),
    ensures
        rows_where(a.take(n), |k: Seq<u8>| lex_lt(a[m - 1].0@, k)) == if n <= m {
            Seq::<(Key, V)>::empty()
        } else {
            a.subrange(m, n)
        },
    decreases n,
{
    let q = |k: Seq<u8>| lex_lt(a[m - 1].0@, k);
    if n > 0 {
        lemma_rows_above_upto(a, m, n - 1);
        let s = a.take(n);
        assert(s.drop_last() =~= a.take(n - 1));
        assert(s.last() == a[n - 1]);
        if n - 1 < m - 1 {
            lemma_lex_asymmetric(a[n - 1].0@, a[m - 1].0@);
        } else if n - 1 == m - 1 {
            lemma_lex_irreflexive(a[m - 1].0@);
        } else {
            assert(lex_lt(a[m - 1].0@, a[n - 1].0@));
            if n - 1 == m {
                assert(a.subrange(m, n) =~= Seq::<(Key, V)>::empty().push(a[n - 1]));
            } else {
                assert(a.subrange(m, n) =~= a.subrange(m, n - 1).push(a[n - 1]));
            }
        }
    } else {
        assert(a.take(0) =~= Seq::<(Key, V)>::empty());
    }
}

/// After a batch of `m` rows of a range, the rows of the range that begins
/// behind the last row of the batch are the rows of the range behind the
/// batch.
pub proof fn lemma_rows_behind<V>(store: Seq<(Key, V)>, r: (Seq<u8>, Seq<u8>), m: int)
    requires
        sorted_keys(store),
        1 <= m <= rows_in(store, r).len(),
    ensures
        rows_in(store, (rows_in(store, r)[m - 1].0@.push(0u8), r.1)) == rows_in(store, r).skip(m),
{
    let p = |k: Seq<u8>| in_range(k, r.0, r.1);
    let a = rows_where(store, p);
    let last = a[m - 1].0@;
    let q = |k: Seq<u8>| lex_lt(last, k);
    let p2 = |k: Seq<u8>| in_range(k, last.push(0u8), r.1);
    let pq = |k: Seq<u8>| p(k) && q(k);
    lemma_rows_where(store, p);
    assert(p(a[m - 1].0@));
    assert forall|i: int| 0 <= i < store.len() implies p2(#[trigger] store[i].0@) == pq(store[i].0@) by {
        let k = store[i].0@;
        lemma_lex_successor(last, k);
        if lex_lt(last, k) && r.0 != last {
            lemma_lex_transitive(r.0, last, k);
        }
    }
    lemma_rows_where_same(store, p2, pq);
    lemma_rows_where_twice(store, p, q);
    lemma_rows_above(a, m);
}

/// The records of a batch and of what is behind it are the records of the whole.
proof fn lemma_row_things_split(a: Seq<(Key, Thing)>, m: int)
    requires
        0 <= m <= a.len(),
    ensures
        row_things(a.take(m)) + row_things(a.skip(m)) == row_things(a),
{
    assert(row_things(a.take(m)) + row_things(a.skip(m)) =~= row_things(a));
}

/// A scan hands out the rows of its ranges, each row once: range after
/// range in the order given, and the rows of each range in the order of
/// their keys. This holds whatever the size of the batches, as long as a
/// batch may hold a row, and once the scan has taken the steps it needs.
pub proof fn law_scan_yields_ranges(
    store: Seq<(Key, Thing)>,
    left: Seq<(Seq<u8>, Seq<u8>)>,
    limit: nat,
    steps: nat,
)
    requires
        sorted_keys(store),
        limit > 0,
        steps >= steps_needed(store, left),
    ensures
        drain(store, left, limit, steps) == rows_of_all(store, left),
    decreases steps,
{
    if left.len() > 0 {
        let a = rows_in(store, left[0]);
        let rows = answer(store, left[0], limit);
        let after = scans_after(left, false, rows);
        if a.len() == 0 {
            assert(after == left.drop_first());
            law_scan_yields_ranges(store, after, limit, (steps - 1) as nat);
            assert(row_things(a) =~= Seq::<Thing>::empty());
            assert(scans_emit(left, false, rows) =~= Seq::<Thing>::empty());
            assert(Seq::<Thing>::empty() + rows_of_all(store, after) =~= rows_of_all(store, after));
        } else {
            let m: int = if a.len() <= limit { a.len() as int } else { limit as int };
            assert(rows =~= a.take(m));
            assert(rows.last() == a[m - 1]);
            lemma_rows_behind(store, left[0], m);
            assert(after.drop_first() =~= left.drop_first());
            assert(rows_in(store, after[0]) == a.skip(m));
            assert(steps_needed(store, after) == a.skip(m).len() + 1 + steps_needed(
                store,
                left.drop_first(),
            ));
            law_scan_yields_ranges(store, after, limit, (steps - 1) as nat);
            lemma_row_things_split(a, m);
            assert(rows_of_all(store, after) == row_things(a.skip(m)) + rows_of_all(
                store,
                left.drop_first(),
            ));
            assert(row_things(a.take(m)) + (row_things(a.skip(m)) + rows_of_all(store, left.drop_first()))
                =~= (row_things(a.take(m)) + row_things(a.skip(m))) + rows_of_all(
                store,
                left.drop_first(),
            ));
        }
    }
}

/// What an index holds: for each entry the value it was made for, beside
/// the row that the store keeps for it.
pub open spec fn holds_index(base: IndexKeyBase, store: Seq<(Key, Thing)>, values: Seq<i64>) -> bool {
    &&& values.len() == store.len()
    &&& forall|i: int|
        0 <= i < store.len() ==> (#[trigger] store[i]).0@ == base.entry_key(values[i], store[i].1.id)
}

/// The rows of the entries whose values `p` holds of, in the order of the store.
pub open spec fn rows_with_value(
    store: Seq<(Key, Thing)>,
    values: Seq<i64>,
    p: spec_fn(i64) -> bool,
) -> Seq<(Key, Thing)>
    decreases store.len(),
{
    if store.len() == 0 || values.len() != store.len() {
        Seq::empty()
    } else {
        let rest = rows_with_value(store.drop_last(), values.drop_last(), p);
        if p(values.last()) {
            rest.push(store.last())
        } else {
            rest
        }
    }
}

/// The rows of the entries of the value `v`, in the order of the store.
pub open spec fn rows_of_value(
    store: Seq<(Key, Thing)>,
    values: Seq<i64>,
    v: i64,
) -> Seq<(Key, Thing)>
    decreases store.len(),
{
    if store.len() == 0 || values.len() != store.len() {
        Seq::empty()
    } else {
        let rest = rows_of_value(store.drop_last(), values.drop_last(), v);
        if values.last() == v {
            rest.push(store.last())
        } else {
            rest
        }
    }
}

/// The rows of the entries whose values lie between `from` and `to`, in the
/// order of the store.
pub open spec fn rows_between(
    store: Seq<(Key, Thing)>,
    values: Seq<i64>,
    from: RangeValue,
    to: RangeValue,
) -> Seq<(Key, Thing)>
    decreases store.len(),
{
    if store.len() == 0 || values.len() != store.len() {
        Seq::empty()
    } else {
        let rest = rows_between(store.drop_last(), values.drop_last(), from, to);
        if between(from, to, values.last()) {
            rest.push(store.last())
        } else {
            rest
        }
    }
}

/// A test on values that is the test for the value `v` picks the entries of `v`.
proof fn lemma_rows_of_value(
    store: Seq<(Key, Thing)>,
    values: Seq<i64>,
    v: i64,
    q: spec_fn(i64) -> bool,
)
    requires
        values.len() == store.len(),
        forall|i: int| 0 <= i < values.len() ==> q(#[trigger] values[i]) == (values[i] == v),
    ensures
        rows_with_value(store, values, q) == rows_of_value(store, values, v),
    decreases store.len(),
{
    if store.len() > 0 {
        let w = values.drop_last();
        assert forall|i: int| 0 <= i < w.len() implies q(#[trigger] w[i]) == (w[i] == v) by {
            assert(w[i] == values[i]);
        }
        lemma_rows_of_value(store.drop_last(), w, v, q);
        assert(values.last() == values[values.len() - 1]);
    }
}

/// A test on values that is the test for the values between `from` and `to`
/// picks the entries between them.
proof fn lemma_rows_between(
    store: Seq<(Key, Thing)>,
    values: Seq<i64>,
    from: RangeValue,
    to: RangeValue,
    q: spec_fn(i64) -> bool,
)
    requires
        values.len() == store.len(),
        forall|i: int| 0 <= i < values.len() ==> q(#[trigger] values[i]) == between(from, to, values[i]),
    ensures
        rows_with_value(store, values, q) == rows_between(store, values, from, to),
    decreases store.len(),
{
    if store.len() > 0 {
        let w = values.drop_last();
        assert forall|i: int| 0 <= i < w.len() implies q(#[trigger] w[i]) == between(from, to, w[i]) by {
            assert(w[i] == values[i]);
        }
        lemma_rows_between(store.drop_last(), w, from, to, q);
        assert(values.last() == values[values.len() - 1]);
    }
}

/// Where a test on keys and a test on values agree on every entry of an
/// index, they pick the same rows.
pub proof fn lemma_rows_by_value(
    store: Seq<(Key, Thing)>,
    values: Seq<i64>,
    p: spec_fn(Seq<u8>) -> bool,
    q: spec_fn(i64) -> bool,
)
    requires
        values.len() == store.len(),
        forall|i: int| 0 <= i < store.len() ==> p(#[trigger] store[i].0@) == q(values[i]),
    ensures
        rows_where(store, p) == rows_with_value(store, values, q),
    decreases store.len(),
{
    if store.len() > 0 {
        let s = store.drop_last();
        let v = values.drop_last();
        assert forall|i: int| 0 <= i < s.len() implies p(#[trigger] s[i].0@) == q(v[i]) by {
            assert(s[i] == store[i] && v[i] == values[i]);
        }
        lemma_rows_by_value(s, v, p, q);
        assert(store.last() == store[store.len() - 1]);
    }
}

/// The range that is scanned for one value holds the entries of that value,
/// and no others.
pub proof fn law_equal_rows(base: IndexKeyBase, store: Seq<(Key, Thing)>, values: Seq<i64>, v: i64)
    requires
        holds_index(base, store, values),
    ensures
        rows_in(store, equal_range(base, v)) == rows_of_value(store, values, v),
{
    let r = equal_range(base, v);
    let p = |k: Seq<u8>| in_range(k, r.0, r.1);
    let q = |w: i64| w == v;
    assert forall|i: int| 0 <= i < store.len() implies p(#[trigger] store[i].0@) == q(values[i]) by {
        law_equal_range(base, v, values[i], store[i].1.id);
    }
    lemma_rows_by_value(store, values, p, q);
    lemma_rows_of_value(store, values, v, q);
}

/// The range that is scanned between two ends holds the entries whose
/// values lie between them, each end taken in or left out as it says, and
/// no others.
pub proof fn law_between_rows(
    base: IndexKeyBase,
    store: Seq<(Key, Thing)>,
    values: Seq<i64>,
    from: RangeValue,
    to: RangeValue,
)
    requires
        holds_index(base, store, values),
    ensures
        rows_in(store, between_range(base, from, to)) == rows_between(store, values, from, to),
{
    let r = between_range(base, from, to);
    let p = |k: Seq<u8>| in_range(k, r.0, r.1);
    let q = |w: i64| between(from, to, w);
    assert forall|i: int| 0 <= i < store.len() implies p(#[trigger] store[i].0@) == q(values[i]) by {
        law_range(base, from, to, values[i], store[i].1.id);
    }
    lemma_rows_by_value(store, values, p, q);
    lemma_rows_between(store, values, from, to, q);
}

/// The records of the entries of each of `wanted`, value after value.
pub open spec fn things_of_values(
    store: Seq<(Key, Thing)>,
    values: Seq<i64>,
    wanted: Seq<i64>,
) -> Seq<Thing>
    decreases wanted.len(),
{
    if wanted.len() == 0 {
        Seq::empty()
    } else {
        row_things(rows_of_value(store, values, wanted[0])) + things_of_values(
            store,
            values,
            wanted.drop_first(),
        )
    }
}

/// The ranges that are scanned for several values hold, range after range,
/// the entries of each value in the order in which the values are given. A
/// value that is given twice has its entries twice.
pub proof fn law_union_rows(
    base: IndexKeyBase,
    store: Seq<(Key, Thing)>,
    values: Seq<i64>,
    wanted: Seq<i64>,
)
    requires
        holds_index(base, store, values),
    ensures
        rows_of_all(store, union_ranges(base, wanted)) == things_of_values(store, values, wanted),
    decreases wanted.len(),
{
    if wanted.len() > 0 {
        let left = union_ranges(base, wanted);
        assert(left.drop_first() =~= union_ranges(base, wanted.drop_first()));
        law_union_rows(base, store, values, wanted.drop_first());
        law_equal_rows(base, store, values, wanted[0]);
    }
}

/// A scan for one value hands out the records of the entries of that value,
/// each once, in the order of their keys, and no others.
pub proof fn law_equality_scan(
    base: IndexKeyBase,
    store: Seq<(Key, Thing)>,
    values: Seq<i64>,
    v: i64,
    limit: nat,
    steps: nat,
)
    requires
        sorted_keys(store),
        holds_index(base, store, values),
        limit > 0,
        steps > store.len(),
    ensures
        drain(store, seq![equal_range(base, v)], limit, steps) == row_things(rows_of_value(store, values, v)),
{
    let r = equal_range(base, v);
    let left = seq![r];
    lemma_rows_where(store, |k: Seq<u8>| in_range(k, r.0, r.1));
    assert(left.drop_first() =~= Seq::<(Seq<u8>, Seq<u8>)>::empty());
    assert(steps_needed(store, left.drop_first()) == 0);
    assert(rows_of_all(store, left.drop_first()) =~= Seq::<Thing>::empty());
    law_scan_yields_ranges(store, left, limit, steps);
    law_equal_rows(base, store, values, v);
    assert(rows_of_all(store, left) =~= row_things(rows_in(store, left[0])));
}

/// A scan between two ends hands out the records of the entries whose
/// values lie between them, each once, in the order of their keys, and no
/// others.
pub proof fn law_range_scan(
    base: IndexKeyBase,
    store: Seq<(Key, Thing)>,
    values: Seq<i64>,
    from: RangeValue,
    to: RangeValue,
    limit: nat,
    steps: nat,
)
    requires
        sorted_keys(store),
        holds_index(base, store, values),
        limit > 0,
        steps > store.len(),
    ensures
        drain(store, seq![between_range(base, from, to)], limit, steps) == row_things(
            rows_between(store, values, from, to),
        ),
{
    let r = between_range(base, from, to);
    let left = seq![r];
    lemma_rows_where(store, |k: Seq<u8>| in_range(k, r.0, r.1));
    assert(left.drop_first() =~= Seq::<(Seq<u8>, Seq<u8>)>::empty());
    assert(steps_needed(store, left.drop_first()) == 0);
    assert(rows_of_all(store, left.drop_first()) =~= Seq::<Thing>::empty());
    law_scan_yields_ranges(store, left, limit, steps);
    law_between_rows(base, store, values, from, to);
    assert(rows_of_all(store, left) =~= row_things(rows_in(store, left[0])));
}

/// A scan for several values hands out, value after value in the order
/// given, the records of the entries of each value. Nothing is left out for
/// having been handed out before.
pub proof fn law_union_scan(
    base: IndexKeyBase,
    store: Seq<(Key, Thing)>,
    values: Seq<i64>,
    wanted: Seq<i64>,
    limit: nat,
    steps: nat,
)
    requires
        sorted_keys(store),
        holds_index(base, store, values),
        limit > 0,
        steps >= steps_needed(store, union_ranges(base, wanted)),
    ensures
        drain(store, union_ranges(base, wanted), limit, steps) == things_of_values(store, values, wanted),
{
    law_scan_yields_ranges(store, union_ranges(base, wanted), limit, steps);
    law_union_rows(base, store, values, wanted);
}

/// The number of rows at the head of `rows` whose keys sort before `end`.
pub open spec fn run_below<V>(rows: Seq<(Key, V)>, end: Seq<u8>) -> nat
    decreases rows.len(),
{
    if rows.len() == 0 || !lex_lt(rows[0].0@, end) {
        0
    } else {
        1 + run_below(rows.drop_first(), end)
    }
}

/// The cursor of a store that was sent to `beg` stands at the place `n`: the
/// keys before it sort before `beg`, the keys from it on do not.
pub open spec fn cursor_at<V>(store: Seq<(Key, V)>, beg: Seq<u8>, n: int) -> bool {
    &&& 0 <= n <= store.len()
    &&& forall|i: int| 0 <= i < n ==> lex_lt(#[trigger] store[i].0@, beg)
    &&& forall|i: int| n <= i < store.len() ==> lex_le(beg, #[trigger] store[i].0@)
}

/// A test picks from two runs of rows what it picks from each.
proof fn lemma_rows_where_add<V>(a: Seq<(Key, V)>, b: Seq<(Key, V)>, p: spec_fn(Seq<u8>) -> bool)
    ensures
        rows_where(a + b, p) == rows_where(a, p) + rows_where(b, p),
    decreases b.len(),
{
    if b.len() == 0 {
        assert(a + b =~= a);
        assert(rows_where(a, p) + rows_where(b, p) =~= rows_where(a, p));
    } else {
        assert((a + b).drop_last() =~= a + b.drop_last());
        lemma_rows_where_add(a, b.drop_last(), p);
        let ra = rows_where(a, p);
        let rb = rows_where(b.drop_last(), p);
        assert((ra + rb).push(b.last()) =~= ra + rb.push(b.last()));
    }
}

/// A test that holds of every key picks every row; one that holds of none
/// picks none.
proof fn lemma_rows_where_all<V>(a: Seq<(Key, V)>, p: spec_fn(Seq<u8>) -> bool)
    ensures
        (forall|i: int| 0 <= i < a.len() ==> p(#[trigger] a[i].0@)) ==> rows_where(a, p) == a,
        (forall|i: int| 0 <= i < a.len() ==> !p(#[trigger] a[i].0@)) ==> rows_where(a, p) == Seq::<
            (Key, V),
        >::empty(),
    decreases a.len(),
{
    if a.len() > 0 {
        let s = a.drop_last();
        lemma_rows_where_all(s, p);
        assert(a.last() == a[a.len() - 1]);
        if forall|i: int| 0 <= i < a.len() ==> p(#[trigger] a[i].0@) {
            assert forall|i: int| 0 <= i < s.len() implies p(#[trigger] s[i].0@) by {
                assert(s[i] == a[i]);
            }
            assert(s.push(a.last()) =~= a);
        }
        if forall|i: int| 0 <= i < a.len() ==> !p(#[trigger] a[i].0@) {
            assert forall|i: int| 0 <= i < s.len() implies !p(#[trigger] s[i].0@) by {
                assert(s[i] == a[i]);
            }
        }
    }
}

/// In sorted rows, the keys of the run below `end` sort before `end`, and
/// no key behind the run does.
proof fn lemma_run_below<V>(rows: Seq<(Key, V)>, end: Seq<u8>)
    requires
        sorted_keys(rows),
    ensures
        run_below(rows, end) <= rows.len(),
        forall|i: int| 0 <= i < run_below(rows, end) ==> lex_lt(#[trigger] rows[i].0@, end),
        forall|i: int| run_below(rows, end) <= i < rows.len() ==> !lex_lt(#[trigger] rows[i].0@, end),
    decreases rows.len(),
{
    if rows.len() > 0 {
        let t = rows.drop_first();
        assert forall|i: int, j: int| 0 <= i < j < t.len() implies lex_lt(
            #[trigger] t[i].0@,
            #[trigger] t[j].0@,
        ) by {
            assert(t[i] == rows[i + 1] && t[j] == rows[j + 1]);
        }
        if lex_lt(rows[0].0@, end) {
            lemma_run_below(t, end);
            let k = run_below(rows, end);
            assert forall|i: int| 0 <= i < k implies lex_lt(#[trigger] rows[i].0@, end) by {
                if i > 0 {
                    assert(rows[i] == t[i - 1]);
                }
            }
            assert forall|i: int| k <= i < rows.len() implies !lex_lt(#[trigger] rows[i].0@, end) by {
                assert(rows[i] == t[i - 1]);
            }
        } else {
            assert forall|i: int| 0 <= i < rows.len() implies !lex_lt(#[trigger] rows[i].0@, end) by {
                if i > 0 {
                    assert(lex_lt(rows[0].0@, rows[i].0@));
                    if lex_lt(rows[i].0@, end) {
                        lemma_lex_transitive(rows[0].0@, rows[i].0@, end);
                    }
                }
            }
        }
    }
}

/// What the transaction takes from rows whose keys do not sort before `beg`
/// is their run below `end`, cut off at the limit.
proof fn lemma_scan_rows<V>(rows: Seq<(Key, V)>, beg: Seq<u8>, end: Seq<u8>, limit: nat)
    requires
        forall|i: int| 0 <= i < rows.len() ==> lex_le(beg, #[trigger] rows[i].0@),
    ensures
        run_below(rows, end) <= rows.len(),
        scan_rows(rows, beg, end, limit) == rows.take(
            if run_below(rows, end) <= limit {
                run_below(rows, end) as int
            } else {
                limit as int
            },
        ),
    decreases rows.len(),
{
    if rows.len() == 0 || limit == 0 || !lex_lt(rows[0].0@, end) {
        assert(rows.take(0) =~= Seq::<(Key, V)>::empty());
        if rows.len() > 0 && lex_lt(rows[0].0@, end) {
            let t = rows.drop_first();
            assert forall|i: int| 0 <= i < t.len() implies lex_le(beg, #[trigger] t[i].0@) by {
                assert(t[i] == rows[i + 1]);
            }
            lemma_scan_rows(t, beg, end, limit);
        } else if rows.len() > 0 {
            assert(lex_le(beg, rows[0].0@));
        }
    } else {
        let t = rows.drop_first();
        assert forall|i: int| 0 <= i < t.len() implies lex_le(beg, #[trigger] t[i].0@) by {
            assert(t[i] == rows[i + 1]);
        }
        lemma_scan_rows(t, beg, end, (limit - 1) as nat);
        assert(lex_le(beg, rows[0].0@));
        let k: int = if run_below(rows, end) <= limit { run_below(rows, end) as int } else { limit as int };
        assert(seq![rows[0]] + t.take(k - 1) =~= rows.take(k));
    }
}

/// A transaction that scans from where the cursor of a sorted store stands
/// answers with the first rows of the range: what the iterators count on.
pub proof fn law_scan_answers<V>(
    store: Seq<(Key, V)>,
    beg: Seq<u8>,
    end: Seq<u8>,
    limit: nat,
    n: int,
)
    requires
        sorted_keys(store),
        cursor_at(store, beg, n),
    ensures
        scan_rows(store.skip(n), beg, end, limit) == answer(store, (beg, end), limit),
{
    let r = (beg, end);
    let p = |k: Seq<u8>| in_range(k, r.0, r.1);
    let a = store.take(n);
    let c = store.skip(n);
    let k = run_below(c, end);
    assert(store =~= a + c);
    assert forall|i: int, j: int| 0 <= i < j < c.len() implies lex_lt(#[trigger] c[i].0@, #[trigger] c[j].0@) by {
        assert(c[i] == store[n + i] && c[j] == store[n + j]);
    }
    assert forall|i: int| 0 <= i < c.len() implies lex_le(beg, #[trigger] c[i].0@) by {
        assert(c[i] == store[n + i]);
    }
    lemma_run_below(c, end);
    lemma_scan_rows(c, beg, end, limit);
    // Before the cursor nothing is in the range
    assert forall|i: int| 0 <= i < a.len() implies !p(#[trigger] a[i].0@) by {
        assert(a[i] == store[i]);
        lemma_lex_asymmetric(a[i].0@, beg);
    }
    lemma_rows_where_all(a, p);
    // From the cursor on, the run below the end is in the range, and no more
    let inside = c.take(k as int);
    let outside = c.skip(k as int);
    assert(c =~= inside + outside);
    assert forall|i: int| 0 <= i < inside.len() implies p(#[trigger] inside[i].0@) by {
        assert(inside[i] == c[i]);
    }
    assert forall|i: int| 0 <= i < outside.len() implies !p(#[trigger] outside[i].0@) by {
        assert(outside[i] == c[k + i]);
    }
    lemma_rows_where_all(inside, p);
    lemma_rows_where_all(outside, p);
    lemma_rows_where_add(inside, outside, p);
    lemma_rows_where_add(a, c, p);
    assert(rows_where(store, p) =~= inside);
    if k <= limit {
        assert(c.take(k as int) =~= inside);
    } else {
        assert(c.take(limit as int) =~= inside.take(limit as int));
    }
}

/// The records that an iterator hands out over `steps` steps when each of
/// its scans is answered by a store that holds `store`, and its lists hand
/// out `limit` records at a time.
pub open spec fn run(v: IterView, store: Seq<(Key, Thing)>, limit: u32, steps: nat) -> Seq<Thing>
    decreases steps,
{
    if steps == 0 || view_done(v) {
        Seq::empty()
    } else {
        let rows = match view_range(v) {
            Some(r) => answer(store, r, limit as nat),
            None => Seq::empty(),
        };
        view_step(v, rows, limit).1 + run(view_step(v, rows, limit).0, store, limit, (steps - 1) as nat)
    }
}

/// The ranges that an iterator has left if it is a scan that takes every
/// row of its ranges.
pub open spec fn full_scan(v: IterView) -> Option<Seq<(Seq<u8>, Seq<u8>)>> {
    match v {
        IterView::IndexEqual(left) => Some(left),
        IterView::IndexRange(left) => Some(left),
        IterView::UniqueRange(left) => Some(left),
        IterView::IndexUnion(left) => Some(left),
        _ => None,
    }
}

/// The records that an iterator has left if it is a list.
pub open spec fn full_list(v: IterView) -> Option<Seq<Thing>> {
    match v {
        IterView::Matches(left) => Some(left),
        IterView::Knn(left) => Some(left),
        IterView::Things(left) => Some(left),
        _ => None,
    }
}

/// An iterator that is a scan hands out what the scan of its ranges does.
pub proof fn lemma_run_scan(v: IterView, store: Seq<(Key, Thing)>, limit: u32, steps: nat)
    requires
        full_scan(v) is Some,
    ensures
        run(v, store, limit, steps) == drain(store, full_scan(v)->Some_0, limit as nat, steps),
    decreases steps,
{
    let left = full_scan(v)->Some_0;
    if steps > 0 && left.len() > 0 {
        let rows = answer(store, left[0], limit as nat);
        assert(view_range(v) == Some(left[0]));
        let v2 = view_step(v, rows, limit).0;
        assert(full_scan(v2) == Some(scans_after(left, false, rows)));
        lemma_run_scan(v2, store, limit, (steps - 1) as nat);
    }
}

/// An iterator that is a list hands out what the list does.
pub proof fn lemma_run_list(v: IterView, store: Seq<(Key, Thing)>, limit: u32, steps: nat)
    requires
        full_list(v) is Some,
        limit > 0,
    ensures
        steps >= full_list(v)->Some_0.len() ==> run(v, store, limit, steps) == full_list(v)->Some_0,
    decreases steps,
{
    let left = full_list(v)->Some_0;
    if steps > 0 && left.len() > 0 {
        let n = taken(left.len(), limit);
        let v2 = view_step(v, Seq::empty(), limit).0;
        assert(view_range(v) is None);
        assert(full_list(v2) == Some(left.skip(n)));
        lemma_run_list(v2, store, limit, (steps - 1) as nat);
        assert(left.take(n) + left.skip(n) =~= left);
    } else if left.len() == 0 {
        assert(left =~= Seq::<Thing>::empty());
    }
}

/// The iterator of an equality over an ordered index hands out the records
/// whose indexed value is the one asked for, each once, in the order of
/// their keys.
pub proof fn law_equal_iterator(
    base: IndexKeyBase,
    store: Seq<(Key, Thing)>,
    values: Seq<i64>,
    v: i64,
    limit: u32,
    steps: nat,
)
    requires
        sorted_keys(store),
        holds_index(base, store, values),
        limit > 0,
        steps > store.len(),
    ensures
        run(IterView::IndexEqual(seq![equal_range(base, v)]), store, limit, steps) == row_things(
            rows_of_value(store, values, v),
        ),
{
    lemma_run_scan(IterView::IndexEqual(seq![equal_range(base, v)]), store, limit, steps);
    law_equality_scan(base, store, values, v, limit as nat, steps);
}

/// The iterator of a range over an ordered index, unique or not, hands out
/// the records whose indexed value lies in the range, each once, in the
/// order of their keys.
pub proof fn law_range_iterator(
    base: IndexKeyBase,
    store: Seq<(Key, Thing)>,
    values: Seq<i64>,
    from: RangeValue,
    to: RangeValue,
    limit: u32,
    steps: nat,
)
    requires
        sorted_keys(store),
        holds_index(base, store, values),
        limit > 0,
        steps > store.len(),
    ensures
        run(IterView::IndexRange(seq![between_range(base, from, to)]), store, limit, steps) == row_things(
            rows_between(store, values, from, to),
        ),
        run(IterView::UniqueRange(seq![between_range(base, from, to)]), store, limit, steps) == row_things(
            rows_between(store, values, from, to),
        ),
{
    lemma_run_scan(IterView::IndexRange(seq![between_range(base, from, to)]), store, limit, steps);
    lemma_run_scan(IterView::UniqueRange(seq![between_range(base, from, to)]), store, limit, steps);
    law_range_scan(base, store, values, from, to, limit as nat, steps);
}

/// The iterator of a union over an ordered index hands out, value after
/// value in the order given, the records whose indexed value is that value.
pub proof fn law_union_iterator(
    base: IndexKeyBase,
    store: Seq<(Key, Thing)>,
    values: Seq<i64>,
    wanted: Seq<i64>,
    limit: u32,
    steps: nat,
)
    requires
        sorted_keys(store),
        holds_index(base, store, values),
        limit > 0,
        steps >= steps_needed(store, union_ranges(base, wanted)),
    ensures
        run(IterView::IndexUnion(union_ranges(base, wanted)), store, limit, steps) == things_of_values(
            store,
            values,
            wanted,
        ),
{
    lemma_run_scan(IterView::IndexUnion(union_ranges(base, wanted)), store, limit, steps);
    law_union_scan(base, store, values, wanted, limit as nat, steps);
}

/// The iterator over a list that is in memory hands out the list.
pub proof fn law_list_iterator(v: IterView, store: Seq<(Key, Thing)>, limit: u32, steps: nat)
    requires
        full_list(v) is Some,
        limit > 0,
        steps >= full_list(v)->Some_0.len(),
    ensures
        run(v, store, limit, steps) == full_list(v)->Some_0,
{
    lemma_run_list(v, store, limit, steps);
}

/// The ranges that an iterator has left if it is a scan that takes one row
/// of each of its ranges.
pub open spec fn unique_scan(v: IterView) -> Option<Seq<(Seq<u8>, Seq<u8>)>> {
    match v {
        IterView::UniqueEqual(left) => Some(left),
        IterView::UniqueUnion(left) => Some(left),
        _ => None,
    }
}

/// Where no range holds more than one row, a scan that takes one row of
/// each range hands out the rows of its ranges.
pub proof fn lemma_run_unique(v: IterView, store: Seq<(Key, Thing)>, limit: u32, steps: nat)
    requires
        unique_scan(v) is Some,
        limit > 0,
        forall|i: int|
            0 <= i < unique_scan(v)->Some_0.len() ==> rows_in(store, #[trigger] unique_scan(v)->Some_0[i]).len()
                <= 1,
        steps >= unique_scan(v)->Some_0.len(),
    ensures
        run(v, store, limit, steps) == rows_of_all(store, unique_scan(v)->Some_0),
    decreases steps,
{
    let left = unique_scan(v)->Some_0;
    if left.len() > 0 {
        let rows = answer(store, left[0], limit as nat);
        assert(rows_in(store, left[0]).len() <= 1);
        assert(rows == rows_in(store, left[0]));
        assert(view_range(v) == Some(left[0]));
        let v2 = view_step(v, rows, limit).0;
        let rest = left.drop_first();
        assert(unique_scan(v2) == Some(rest));
        assert forall|i: int| 0 <= i < rest.len() implies rows_in(store, #[trigger] rest[i]).len() <= 1 by {
            assert(rest[i] == left[i + 1]);
        }
        lemma_run_unique(v2, store, limit, (steps - 1) as nat);
    }
}

/// The iterator of an equality over a unique index hands out the record
/// whose indexed value is the one asked for, if there is one.
pub proof fn law_unique_equal_iterator(
    base: IndexKeyBase,
    store: Seq<(Key, Thing)>,
    values: Seq<i64>,
    v: i64,
    limit: u32,
    steps: nat,
)
    requires
        holds_index(base, store, values),
        rows_of_value(store, values, v).len() <= 1,
        limit > 0,
        steps > 0,
    ensures
        run(IterView::UniqueEqual(seq![equal_range(base, v)]), store, limit, steps) == row_things(
            rows_of_value(store, values, v),
        ),
{
    let left = seq![equal_range(base, v)];
    law_equal_rows(base, store, values, v);
    assert(left.drop_first() =~= Seq::<(Seq<u8>, Seq<u8>)>::empty());
    assert(rows_of_all(store, left.drop_first()) =~= Seq::<Thing>::empty());
    assert(rows_of_all(store, left) =~= row_things(rows_in(store, left[0])));
    lemma_run_unique(IterView::UniqueEqual(left), store, limit, steps);
}

/// The iterator of a union over a unique index hands out, value after value
/// in the order given, the record whose indexed value is that value, if
/// there is one.
pub proof fn law_unique_union_iterator(
    base: IndexKeyBase,
    store: Seq<(Key, Thing)>,
    values: Seq<i64>,
    wanted: Seq<i64>,
    limit: u32,
    steps: nat,
)
    requires
        holds_index(base, store, values),
        forall|i: int| 0 <= i < wanted.len() ==> rows_of_value(store, values, #[trigger] wanted[i]).len() <= 1,
        limit > 0,
        steps >= wanted.len(),
    ensures
        run(IterView::UniqueUnion(union_ranges(base, wanted)), store, limit, steps) == things_of_values(
            store,
            values,
            wanted,
        ),
{
    let left = union_ranges(base, wanted);
    assert forall|i: int| 0 <= i < left.len() implies rows_in(store, #[trigger] left[i]).len() <= 1 by {
        law_equal_rows(base, store, values, wanted[i]);
    }
    law_union_rows(base, store, values, wanted);
    lemma_run_unique(IterView::UniqueUnion(left), store, limit, steps);
}

} // verus!
