//! The layout of index keys.
//!
//! The entries of one index share a prefix made of namespace, database,
//! table and index. Behind it stand the indexed value, in an encoding whose
//! byte order is the order of the values, a marker byte, and the number of
//! the record, which keeps the entries of one value apart. A scan for one
//! value, or for a range of values, runs between two keys made of the prefix,
//! a value and a sentinel byte below or above every marker.

use vstd::prelude::*;
use crate::err::Error;
use crate::key::{
    Key, Val, in_range, key_clone, lemma_lex_asymmetric, lemma_lex_common_prefix,
    lemma_lex_irreflexive, lex_lt,
};
use crate::plan::RangeValue;
use crate::sql::Thing;

verus! {

/// The sentinel that sorts below every entry of a value.
pub const SENTINEL_MIN: u8 = 0x00;

/// The byte between an entry's value and its record number.
pub const MARKER: u8 = 0x01;

/// The sentinel that sorts above every entry of a value.
pub const SENTINEL_MAX: u8 = 0xff;

/// The `n` lowest base-256 digits of `v`, highest first.
pub open spec fn be_bytes(v: nat, n: nat) -> Seq<u8>
    decreases n,
{
    if n == 0 {
        Seq::empty()
    } else {
        be_bytes(v / 256, (n - 1) as nat).push((v % 256) as u8)
    }
}

/// 256 to the power of `n`.
pub open spec fn pow256(n: nat) -> nat
    decreases n,
{
    if n == 0 {
        1
    } else {
        256 * pow256((n - 1) as nat)
    }
}

/// `n` digits are `n` bytes.
pub proof fn lemma_be_len(v: nat, n: nat)
    ensures
        be_bytes(v, n).len() == n,
    decreases n,
{
    if n > 0 {
        lemma_be_len(v / 256, (n - 1) as nat);
    }
}

/// Between two keys of one length that each go on by one byte, the longer
/// keys are ordered by the shorter ones first, and by the added bytes where
/// those are the same.
pub proof fn lemma_lex_push(a: Seq<u8>, b: Seq<u8>, x: u8, y: u8)
    requires
        a.len() == b.len(),
    ensures
        lex_lt(a.push(x), b.push(y)) <==> lex_lt(a, b) || (a == b && x < y),
    decreases a.len(),
{
    let ax = a.push(x);
    let by = b.push(y);
    if a.len() == 0 {
        assert(a =~= b);
        assert(ax.drop_first() =~= Seq::<u8>::empty());
        assert(by.drop_first() =~= Seq::<u8>::empty());
        assert(!lex_lt(ax.drop_first(), by.drop_first()));
    } else {
        assert(ax.drop_first() =~= a.drop_first().push(x));
        assert(by.drop_first() =~= b.drop_first().push(y));
        lemma_lex_push(a.drop_first(), b.drop_first(), x, y);
        if a[0] == b[0] {
            if a.drop_first() == b.drop_first() {
                assert(a =~= seq![a[0]] + a.drop_first());
                assert(b =~= seq![b[0]] + b.drop_first());
            }
        }
    }
}

/// Two keys of one length keep their order whatever is appended to them.
pub proof fn lemma_lex_append(a: Seq<u8>, b: Seq<u8>, s: Seq<u8>, t: Seq<u8>)
    requires
        a.len() == b.len(),
        lex_lt(a, b),
    ensures
        lex_lt(a + s, b + t),
    decreases a.len(),
{
    if a.len() > 0 {
        assert((a + s).drop_first() =~= a.drop_first() + s);
        assert((b + t).drop_first() =~= b.drop_first() + t);
        if a[0] == b[0] {
            lemma_lex_append(a.drop_first(), b.drop_first(), s, t);
        }
    }
}

/// The encoding keeps the order: of two numbers below `256^n` the smaller
/// one has the encoding that sorts first, and equal encodings mean equal
/// numbers.
pub proof fn lemma_be_order(x: nat, y: nat, n: nat)
    requires
        x < pow256(n),
        y < pow256(n),
    ensures
        lex_lt(be_bytes(x, n), be_bytes(y, n)) <==> x < y,
        be_bytes(x, n) == be_bytes(y, n) <==> x == y,
    decreases n,
{
    if n > 0 {
        let m = (n - 1) as nat;
        lemma_be_order(x / 256, y / 256, m);
        lemma_be_len(x / 256, m);
        lemma_be_len(y / 256, m);
        let a = be_bytes(x / 256, m);
        let b = be_bytes(y / 256, m);
        let p = (x % 256) as u8;
        let q = (y % 256) as u8;
        lemma_lex_push(a, b, p, q);
        if a.push(p) == b.push(q) {
            assert(a.push(p).drop_last() =~= a);
            assert(b.push(q).drop_last() =~= b);
            assert(a.push(p).last() == p);
            assert(b.push(q).last() == q);
        }
    }
}

/// Where a value stands among the unsigned numbers: the least value at 0.
pub open spec fn ordinal(v: i64) -> nat {
    (v + 0x8000_0000_0000_0000) as nat
}

/// The encoding of an indexed value.
pub open spec fn enc_value(v: i64) -> Seq<u8> {
    be_bytes(ordinal(v), 8)
}

/// The encodings of two values are ordered as the values are.
pub proof fn lemma_enc_order(v: i64, w: i64)
    ensures
        lex_lt(enc_value(v), enc_value(w)) <==> v < w,
        enc_value(v) == enc_value(w) <==> v == w,
        enc_value(v).len() == 8,
{
    reveal_with_fuel(pow256, 9);
    assert(pow256(8) == 0x1_0000_0000_0000_0000);
    lemma_be_order(ordinal(v), ordinal(w), 8);
    lemma_be_len(ordinal(v), 8);
}

/// Writes the `n` lowest base-256 digits of `v`, highest first.
pub fn be_encode(v: u64, n: usize) -> (r: Vec<u8>)
    ensures
        r@ == be_bytes(v as nat, n as nat),
{
    let mut out: Vec<u8> = Vec::new();
    let mut x = v;
    let mut i = n;
    assert(be_bytes(x as nat, i as nat) + out@ =~= be_bytes(v as nat, n as nat));
    while i > 0
        invariant
            be_bytes(x as nat, i as nat) + out@ == be_bytes(v as nat, n as nat),
            out.len() == n - i,
            i <= n,
        decreases i,
    {
        let ghost prev = out@;
        let d = (x % 256) as u8;
        out.insert(0, d);
        proof {
            let rest = be_bytes((x / 256) as nat, (i - 1) as nat);
            assert(be_bytes(x as nat, i as nat) == rest.push(d));
            assert(rest + out@ =~= rest.push(d) + prev);
        }
        x = x / 256;
        i -= 1;
    }
    assert(be_bytes(x as nat, 0) + out@ =~= out@);
    out
}

/// What the keys of one index have in common.
#[derive(Clone, Copy, PartialEq, Eq, Structural, Debug)]
pub struct IndexKeyBase {
    pub ns: u32,
    pub db: u32,
    pub tb: u32,
    pub ix: u32,
}

impl IndexKeyBase {
    /// The base of the keys of the index `ix` on the table `tb`.
    pub fn new(ns: u32, db: u32, tb: u32, ix: u32) -> (b: IndexKeyBase)
        ensures
            b == (IndexKeyBase { ns, db, tb, ix }),
    {
        IndexKeyBase { ns, db, tb, ix }
    }

    /// The bytes that every key of the index begins with.
    pub open spec fn prefix(self) -> Seq<u8> {
        seq![0x2fu8] + be_bytes(self.ns as nat, 4) + be_bytes(self.db as nat, 4) + be_bytes(
            self.tb as nat,
            4,
        ) + be_bytes(self.ix as nat, 4)
    }

    /// The prefix and the encoding of the value `v`.
    pub open spec fn value_prefix(self, v: i64) -> Seq<u8> {
        self.prefix() + enc_value(v)
    }

    /// The key of the entry that the record number `id` has under the value `v`.
    pub open spec fn entry_key(self, v: i64, id: u64) -> Seq<u8> {
        self.value_prefix(v) + seq![MARKER] + be_bytes(id as nat, 8)
    }

    /// The key below every entry of the value `v`.
    pub open spec fn ids_beg(self, v: i64) -> Seq<u8> {
        self.value_prefix(v).push(SENTINEL_MIN)
    }

    /// The key above every entry of the value `v`.
    pub open spec fn ids_end(self, v: i64) -> Seq<u8> {
        self.value_prefix(v).push(SENTINEL_MAX)
    }

    /// The key at which a scan from `from` begins.
    pub open spec fn range_beg(self, from: RangeValue) -> Seq<u8> {
        if from.inclusive {
            self.ids_beg(from.value)
        } else {
            self.ids_end(from.value)
        }
    }

    /// The key before which a scan up to `to` ends.
    pub open spec fn range_end(self, to: RangeValue) -> Seq<u8> {
        if to.inclusive {
            self.ids_end(to.value)
        } else {
            self.ids_beg(to.value)
        }
    }

    fn value_key(&self, v: i64) -> (k: Key)
        ensures
            k@ == self.value_prefix(v),
    {
        let mut k: Vec<u8> = Vec::new();
        k.push(0x2f);
        let mut ns = be_encode(self.ns as u64, 4);
        let mut db = be_encode(self.db as u64, 4);
        let mut tb = be_encode(self.tb as u64, 4);
        let mut ix = be_encode(self.ix as u64, 4);
        let o: u64 = if v >= 0 {
            v as u64 + 0x8000_0000_0000_0000
        } else {
            (v + i64::MAX + 1) as u64
        };
        assert(o == ordinal(v));
        let mut val = be_encode(o, 8);
        k.append(&mut ns);
        k.append(&mut db);
        k.append(&mut tb);
        k.append(&mut ix);
        k.append(&mut val);
        assert(k@ =~= self.value_prefix(v));
        k
    }

    /// Makes the key of an entry.
    pub fn new_entry_key(&self, v: i64, id: u64) -> (k: Key)
        ensures
            k@ == self.entry_key(v, id),
    {
        let mut k = self.value_key(v);
        k.push(MARKER);
        let mut tail = be_encode(id, 8);
        k.append(&mut tail);
        assert(k@ =~= self.entry_key(v, id));
        k
    }

    /// Makes the key below every entry of the value `v`.
    pub fn prefix_ids_beg(&self, v: i64) -> (k: Key)
        ensures
            k@ == self.ids_beg(v),
    {
        let mut k = self.value_key(v);
        k.push(SENTINEL_MIN);
        k
    }

    /// Makes the key above every entry of the value `v`.
    pub fn prefix_ids_end(&self, v: i64) -> (k: Key)
        ensures
            k@ == self.ids_end(v),
    {
        let mut k = self.value_key(v);
        k.push(SENTINEL_MAX);
        k
    }
}

/// Whether the value `w` lies between the two ends.
pub open spec fn between(from: RangeValue, to: RangeValue, w: i64) -> bool {
    (if from.inclusive { from.value <= w } else { from.value < w }) && (if to.inclusive {
        w <= to.value
    } else {
        w < to.value
    })
}

/// How an entry of the value `w` stands to the two keys around the entries
/// of the value `v`.
pub proof fn lemma_entry_position(b: IndexKeyBase, v: i64, w: i64, id: u64)
    ensures
        lex_lt(b.ids_beg(v), b.entry_key(w, id)) <==> v <= w,
        lex_lt(b.entry_key(w, id), b.ids_end(v)) <==> w <= v,
        lex_lt(b.ids_end(v), b.entry_key(w, id)) <==> v < w,
        lex_lt(b.entry_key(w, id), b.ids_beg(v)) <==> w < v,
        b.entry_key(w, id) != b.ids_beg(v),
        b.entry_key(w, id) != b.ids_end(v),
{
    let p = b.prefix();
    let tail = seq![MARKER] + be_bytes(id as nat, 8);
    let k = enc_value(w) + tail;
    let lo = enc_value(v).push(SENTINEL_MIN);
    let hi = enc_value(v).push(SENTINEL_MAX);
    assert(b.entry_key(w, id) =~= p + k);
    assert(b.ids_beg(v) =~= p + lo);
    assert(b.ids_end(v) =~= p + hi);
    lemma_lex_common_prefix(p, lo, k);
    lemma_lex_common_prefix(p, k, lo);
    lemma_lex_common_prefix(p, hi, k);
    lemma_lex_common_prefix(p, k, hi);
    lemma_enc_order(v, w);
    lemma_enc_order(w, v);
    let ev = enc_value(v);
    let ew = enc_value(w);
    assert(lo =~= ev + seq![SENTINEL_MIN]);
    assert(hi =~= ev + seq![SENTINEL_MAX]);
    if v < w {
        lemma_lex_append(ev, ew, seq![SENTINEL_MIN], tail);
        lemma_lex_append(ev, ew, seq![SENTINEL_MAX], tail);
        lemma_lex_asymmetric(lo, k);
        lemma_lex_asymmetric(hi, k);
    } else if w < v {
        lemma_lex_append(ew, ev, tail, seq![SENTINEL_MIN]);
        lemma_lex_append(ew, ev, tail, seq![SENTINEL_MAX]);
        lemma_lex_asymmetric(k, lo);
        lemma_lex_asymmetric(k, hi);
    } else {
        lemma_lex_common_prefix(ev, seq![SENTINEL_MIN], tail);
        lemma_lex_common_prefix(ev, tail, seq![SENTINEL_MIN]);
        lemma_lex_common_prefix(ev, seq![SENTINEL_MAX], tail);
        lemma_lex_common_prefix(ev, tail, seq![SENTINEL_MAX]);
        assert(tail[0] == MARKER);
        assert(lex_lt(seq![SENTINEL_MIN], tail));
        assert(lex_lt(tail, seq![SENTINEL_MAX]));
        lemma_lex_asymmetric(seq![SENTINEL_MIN], tail);
        lemma_lex_asymmetric(tail, seq![SENTINEL_MAX]);
        lemma_lex_asymmetric(lo, k);
        lemma_lex_asymmetric(k, hi);
    }
    if p + k == p + lo {
        assert(k =~= (p + k).skip(p.len() as int));
        assert(lo =~= (p + lo).skip(p.len() as int));
        lemma_lex_irreflexive(k);
    }
    if p + k == p + hi {
        assert(k =~= (p + k).skip(p.len() as int));
        assert(hi =~= (p + hi).skip(p.len() as int));
        lemma_lex_irreflexive(k);
    }
}

/// The scan for one value covers the entries of that value and no others.
pub proof fn law_equal_range(b: IndexKeyBase, v: i64, w: i64, id: u64)
    ensures
        in_range(b.entry_key(w, id), b.ids_beg(v), b.ids_end(v)) <==> w == v,
{
    lemma_entry_position(b, v, w, id);
}

/// The scan between two ends covers the entries whose value lies between
/// them, with each end taken in or left out as it says, and no others.
pub proof fn law_range(b: IndexKeyBase, from: RangeValue, to: RangeValue, w: i64, id: u64)
    ensures
        in_range(b.entry_key(w, id), b.range_beg(from), b.range_end(to)) <==> between(from, to, w),
{
    lemma_entry_position(b, from.value, w, id);
    lemma_entry_position(b, to.value, w, id);
}

/// The number that the base-256 digits `s` write, highest digit first.
pub open spec fn be_value(s: Seq<u8>) -> nat
    decreases s.len(),
{
    if s.len() == 0 {
        0
    } else {
        be_value(s.drop_last()) * 256 + s.last() as nat
    }
}

/// The digits of a number write that number.
pub proof fn lemma_be_value(v: nat, n: nat)
    requires
        v < pow256(n),
    ensures
        be_value(be_bytes(v, n)) == v,
    decreases n,
{
    if n > 0 {
        lemma_be_value(v / 256, (n - 1) as nat);
        let s = be_bytes(v, n);
        assert(s.drop_last() =~= be_bytes(v / 256, (n - 1) as nat));
    }
}

/// `n` digits write a number below `256^n`.
pub proof fn lemma_be_value_bound(s: Seq<u8>)
    ensures
        be_value(s) < pow256(s.len()),
    decreases s.len(),
{
    if s.len() > 0 {
        lemma_be_value_bound(s.drop_last());
    }
}

/// Reads the number that the `n` bytes of `bytes` from `from` on write.
pub fn be_decode(bytes: &[u8], from: usize, n: usize) -> (r: u64)
    requires
        n <= 8,
        from + n <= bytes@.len(),
    ensures
        r == be_value(bytes@.subrange(from as int, from + n)),
{
    let total = bytes.len();
    let mut acc: u64 = 0;
    let mut i: usize = 0;
    while i < n
        invariant
            i <= n <= 8,
            from + n <= total,
            total == bytes@.len(),
            acc == be_value(bytes@.subrange(from as int, from + i)),
        decreases n - i,
    {
        proof {
            let s = bytes@.subrange(from as int, from + i);
            lemma_be_value_bound(s);
            reveal_with_fuel(pow256, 9);
            assert(pow256(i as nat) <= pow256(7)) by {
                reveal_with_fuel(pow256, 9);
            }
            assert(bytes@.subrange(from as int, from + i + 1).drop_last() =~= s);
        }
        acc = acc * 256 + bytes[from + i] as u64;
        i += 1;
    }
    acc
}

/// The bytes that an index entry holds for the record `t`: its table, then
/// its number.
pub open spec fn thing_bytes(t: Thing) -> Seq<u8> {
    be_bytes(t.tb as nat, 4) + be_bytes(t.id as nat, 8)
}

/// The record that the bytes `s` of an index entry name, if they name one.
pub open spec fn thing_of_bytes(s: Seq<u8>) -> Option<Thing> {
    if s.len() == 12 {
        Some(Thing { tb: be_value(s.subrange(0, 4)) as u32, id: be_value(s.subrange(4, 12)) as u64 })
    } else {
        None
    }
}

/// What is written for a record is read as that record.
pub proof fn law_thing_bytes(t: Thing)
    ensures
        thing_of_bytes(thing_bytes(t)) == Some(t),
{
    let s = thing_bytes(t);
    lemma_be_len(t.tb as nat, 4);
    lemma_be_len(t.id as nat, 8);
    assert(s.subrange(0, 4) =~= be_bytes(t.tb as nat, 4));
    assert(s.subrange(4, 12) =~= be_bytes(t.id as nat, 8));
    reveal_with_fuel(pow256, 9);
    lemma_be_value(t.tb as nat, 4);
    lemma_be_value(t.id as nat, 8);
}

impl Thing {
    /// Writes the record as the value of an index entry.
    pub fn encode(&self) -> (r: Val)
        ensures
            r@ == thing_bytes(*self),
    {
        let mut out = be_encode(self.tb as u64, 4);
        let mut id = be_encode(self.id, 8);
        out.append(&mut id);
        out
    }

    /// Reads a record from the value of an index entry.
    pub fn decode(val: &[u8]) -> (r: Option<Thing>)
        ensures
            r == thing_of_bytes(val@),
    {
        if val.len() != 12 {
            return None;
        }
        let tb = be_decode(val, 0, 4);
        let id = be_decode(val, 4, 8);
        proof {
            lemma_be_value_bound(val@.subrange(0, 4));
            reveal_with_fuel(pow256, 5);
        }
        Some(Thing { tb: tb as u32, id })
    }
}

/// The rows of index entries with their values read as records, if every
/// value names one.
pub open spec fn rows_read(rows: Seq<(Key, Val)>) -> Option<Seq<(Seq<u8>, Thing)>> {
    if forall|i: int| 0 <= i < rows.len() ==> thing_of_bytes(#[trigger] rows[i].1@) is Some {
        Some(Seq::new(rows.len(), |i: int| (rows[i].0@, thing_of_bytes(rows[i].1@)->Some_0)))
    } else {
        None
    }
}

/// The view of rows of records.
pub open spec fn thing_rows_view(rows: Seq<(Key, Thing)>) -> Seq<(Seq<u8>, Thing)> {
    Seq::new(rows.len(), |i: int| (rows[i].0@, rows[i].1))
}

/// Reads the values of the rows of a scan as records. A value that names no
/// record fails the read.
pub fn read_rows(rows: &Vec<(Key, Val)>) -> (r: Result<Vec<(Key, Thing)>, Error>)
    ensures
        match rows_read(rows@) {
            Some(read) => r is Ok && thing_rows_view(r->Ok_0@) == read,
            None => r matches Err(Error::Ds(_)),
        },
{
    let mut out: Vec<(Key, Thing)> = Vec::new();
    let mut i: usize = 0;
    while i < rows.len()
        invariant
            i <= rows.len(),
            out.len() == i,
            forall|j: int| 0 <= j < i ==> thing_of_bytes(#[trigger] rows@[j].1@) == Some(out@[j].1)
                && out@[j].0@ == rows@[j].0@,
        decreases rows.len() - i,
    {
        match Thing::decode(rows[i].1.as_slice()) {
            Some(t) => {
                out.push((key_clone(&rows[i].0), t));
            },
            None => {
                assert(thing_of_bytes(rows@[i as int].1@) is None);
                return Err(Error::Ds(String::from_str("an index entry names no record")));
            },
        }
        i += 1;
    }
    assert(thing_rows_view(out@) =~= rows_read(rows@)->Some_0);
    Ok(out)
}

} // verus!
