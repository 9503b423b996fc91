//! The life of a key-value transaction and what each of its operations decides.
//!
//! A transaction here is the bookkeeping around a store: whether it is still
//! open, whether it may write, and what each operation makes of the value that
//! the store holds under a key. The caller reads the store, hands over what it
//! found, and carries out the change that comes back.

use vstd::prelude::*;
use crate::err::Error;
use crate::key::{Key, Val, key_lt, key_eq, key_clone, lex_lt, in_range};

verus! {

/// The two kinds of transaction a datastore hands out.
#[derive(Clone, Copy, PartialEq, Eq, Structural, Debug)]
pub enum TransactionType {
    Read,
    Write,
}

impl TransactionType {
    /// Gives up the transaction. Nothing is staged on this side, so there is
    /// nothing to undo.
    pub fn rollback(&self) {
    }
}

/// A change for the caller to carry out on the store.
#[derive(Debug)]
pub enum Mutation {
    /// Store `val` under `key`, replacing what is there.
    Put { key: Key, val: Val },
    /// Remove `key`.
    Del { key: Key },
}

impl Mutation {
    /// What a store holds once it has carried the change out.
    pub open spec fn applied(self, store: Map<Seq<u8>, Seq<u8>>) -> Map<Seq<u8>, Seq<u8>> {
        match self {
            Mutation::Put { key, val } => store.insert(key@, val@),
            Mutation::Del { key } => store.remove(key@),
        }
    }
}

/// A place where transactions are started.
#[derive(Debug)]
pub struct Datastore {
    path: String,
}

impl View for Datastore {
    type V = Seq<char>;

    closed spec fn view(&self) -> Seq<char> {
        self.path@
    }
}

impl Datastore {
    /// Names the datastore that lives at `path`.
    pub fn new(path: &str) -> (ds: Datastore)
        ensures
            ds@ == path@,
    {
        Datastore { path: path.to_owned() }
    }

    /// The path this datastore was named with.
    pub fn path(&self) -> (p: &String)
        ensures
            p@ == self@,
    {
        &self.path
    }

    /// Starts a transaction: open, and writable exactly if `write` is set.
    pub fn transaction(&self, write: bool, lock: bool) -> (tx: Transaction)
        ensures
            !tx.closed(),
            tx.writable() == write,
    {
        let _ = lock;
        Transaction { ok: false, rw: write }
    }
}

/// The state of one transaction.
#[derive(Clone, Copy, PartialEq, Eq, Structural, Debug)]
pub struct Transaction {
    // Is the transaction complete?
    ok: bool,
    // Is the transaction read+write?
    rw: bool,
}

/// The longest run at the head of `rows` whose keys lie in the range from
/// `beg` to `end`, cut off after `limit` rows.
pub open spec fn scan_rows<V>(
    rows: Seq<(Key, V)>,
    beg: Seq<u8>,
    end: Seq<u8>,
    limit: nat,
) -> Seq<(Key, V)>
    decreases rows.len(),
{
    if rows.len() == 0 || limit == 0 || !in_range(rows[0].0@, beg, end) {
        Seq::empty()
    } else {
        seq![rows[0]] + scan_rows(rows.drop_first(), beg, end, (limit - 1) as nat)
    }
}

/// Whether the stored value `current` is the one the caller expects in `chk`.
pub open spec fn check_met(current: Option<Seq<u8>>, chk: Option<Seq<u8>>) -> bool {
    match (current, chk) {
        (Some(v), Some(w)) => v == w,
        (None, None) => true,
        _ => false,
    }
}

/// The view of an optional value.
pub open spec fn opt_view(v: Option<Val>) -> Option<Seq<u8>> {
    match v {
        Some(x) => Some(x@),
        None => None,
    }
}

/// The view of an optional borrowed value.
pub open spec fn opt_ref_view(v: Option<&Val>) -> Option<Seq<u8>> {
    match v {
        Some(x) => Some(x@),
        None => None,
    }
}

impl Transaction {
    /// Whether the transaction was committed or cancelled.
    #[verifier::when_used_as_spec(spec_closed)]
    pub fn closed(&self) -> (b: bool)
        ensures
            b == self.spec_closed(),
    {
        self.ok
    }

    /// Whether the transaction was committed or cancelled.
    pub closed spec fn spec_closed(&self) -> bool {
        self.ok
    }

    /// Whether the transaction may write.
    #[verifier::when_used_as_spec(spec_writable)]
    pub fn writable(&self) -> (b: bool)
        ensures
            b == self.spec_writable(),
    {
        self.rw
    }

    /// Whether the transaction may write.
    pub closed spec fn spec_writable(&self) -> bool {
        self.rw
    }

    /// The kind of this transaction.
    pub fn kind(&self) -> (k: TransactionType)
        ensures
            k == if self.writable() { TransactionType::Write } else { TransactionType::Read },
    {
        if self.rw {
            TransactionType::Write
        } else {
            TransactionType::Read
        }
    }

    /// The transaction as `cancel` leaves it, and what `cancel` answers.
    pub closed spec fn after_cancel(self) -> (Transaction, Result<TransactionType, Error>) {
        if self.ok {
            (self, Err(Error::TxFinished))
        } else {
            (
                Transaction { ok: true, rw: self.rw },
                Ok(if self.rw { TransactionType::Write } else { TransactionType::Read }),
            )
        }
    }

    /// The transaction as `commit` leaves it, and what `commit` answers.
    pub closed spec fn after_commit(self) -> (Transaction, Result<(), Error>) {
        if self.ok {
            (self, Err(Error::TxFinished))
        } else if !self.rw {
            (self, Err(Error::TxReadonly))
        } else {
            (Transaction { ok: true, rw: self.rw }, Ok(()))
        }
    }

    /// Cancels the transaction. A closed transaction answers `TxFinished` and
    /// stays as it is; an open one closes and names its kind, so that the
    /// caller can abort what a writer has staged.
    pub fn cancel(&mut self) -> (r: Result<TransactionType, Error>)
        ensures
            (*final(self), r) == old(self).after_cancel(),
            old(self).closed() <==> r == Err::<TransactionType, Error>(Error::TxFinished),
            final(self).closed(),
            final(self).writable() == old(self).writable(),
            r is Ok ==> r->Ok_0 == (if old(self).writable() {
                TransactionType::Write
            } else {
                TransactionType::Read
            }),
    {
        // Check to see if transaction is closed
        if self.ok {
            return Err(Error::TxFinished);
        }
        // Mark this transaction as done
        self.ok = true;
        Ok(self.kind())
    }

    /// Commits the transaction. A closed transaction answers `TxFinished`, an
    /// open reader `TxReadonly`, and both stay as they are; an open writer
    /// closes, and the caller makes its changes durable.
    pub fn commit(&mut self) -> (r: Result<(), Error>)
        ensures
            (*final(self), r) == old(self).after_commit(),
            old(self).closed() <==> r == Err::<(), Error>(Error::TxFinished),
            !old(self).closed() && !old(self).writable() <==> r == Err::<(), Error>(Error::TxReadonly),
            r is Ok <==> !old(self).closed() && old(self).writable(),
            final(self).closed() == (old(self).closed() || old(self).writable()),
            final(self).writable() == old(self).writable(),
    {
        // Check to see if transaction is closed
        if self.ok {
            return Err(Error::TxFinished);
        }
        // Check to see if transaction is writable
        if !self.rw {
            return Err(Error::TxReadonly);
        }
        // Mark this transaction as done
        self.ok = true;
        Ok(())
    }

    /// Whether a key exists, given what the store holds under it.
    pub fn exi(&self, current: Option<&Val>) -> (r: Result<bool, Error>)
        ensures
            self.closed() ==> r == Err::<bool, Error>(Error::TxFinished),
            !self.closed() ==> r == Ok::<bool, Error>(current is Some),
    {
        if self.ok {
            return Err(Error::TxFinished);
        }
        Ok(current.is_some())
    }

    /// The value of a key, given what the store holds under it.
    pub fn get(&self, current: Option<Val>) -> (r: Result<Option<Val>, Error>)
        ensures
            self.closed() ==> r == Err::<Option<Val>, Error>(Error::TxFinished),
            !self.closed() ==> r == Ok::<Option<Val>, Error>(current),
    {
        if self.ok {
            return Err(Error::TxFinished);
        }
        Ok(current)
    }

    /// Inserts or updates a key.
    pub fn set(&self, key: Key, val: Val) -> (r: Result<Mutation, Error>)
        ensures
            self.closed() ==> r == Err::<Mutation, Error>(Error::TxFinished),
            !self.closed() && !self.writable() ==> r == Err::<Mutation, Error>(Error::TxReadonly),
            !self.closed() && self.writable() ==> r == Ok::<Mutation, Error>(Mutation::Put { key, val }),
    {
        if self.ok {
            return Err(Error::TxFinished);
        }
        if !self.rw {
            return Err(Error::TxReadonly);
        }
        Ok(Mutation::Put { key, val })
    }

    /// Inserts a key if the store holds nothing under it.
    pub fn put(&self, key: Key, val: Val, current: Option<&Val>) -> (r: Result<Mutation, Error>)
        ensures
            self.closed() ==> r == Err::<Mutation, Error>(Error::TxFinished),
            !self.closed() && !self.writable() ==> r == Err::<Mutation, Error>(Error::TxReadonly),
            !self.closed() && self.writable() && current is Some ==> r == Err::<Mutation, Error>(
                Error::TxKeyAlreadyExists,
            ),
            !self.closed() && self.writable() && current is None ==> r == Ok::<Mutation, Error>(
                Mutation::Put { key, val },
            ),
    {
        if self.ok {
            return Err(Error::TxFinished);
        }
        if !self.rw {
            return Err(Error::TxReadonly);
        }
        if current.is_some() {
            return Err(Error::TxKeyAlreadyExists);
        }
        Ok(Mutation::Put { key, val })
    }

    /// Inserts a key only if the store holds the expected value under it:
    /// `chk`, or nothing where `chk` is `None`.
    pub fn putc(
        &self,
        key: Key,
        val: Val,
        chk: Option<Val>,
        current: Option<&Val>,
    ) -> (r: Result<Mutation, Error>)
        ensures
            self.closed() ==> r == Err::<Mutation, Error>(Error::TxFinished),
            !self.closed() && !self.writable() ==> r == Err::<Mutation, Error>(Error::TxReadonly),
            !self.closed() && self.writable() && !check_met(opt_ref_view(current), opt_view(chk)) ==> r
                == Err::<Mutation, Error>(Error::TxConditionNotMet),
            !self.closed() && self.writable() && check_met(opt_ref_view(current), opt_view(chk)) ==> r
                == Ok::<Mutation, Error>(Mutation::Put { key, val }),
    {
        if self.ok {
            return Err(Error::TxFinished);
        }
        if !self.rw {
            return Err(Error::TxReadonly);
        }
        if !check(current, &chk) {
            return Err(Error::TxConditionNotMet);
        }
        Ok(Mutation::Put { key, val })
    }

    /// Deletes a key.
    pub fn del(&self, key: Key) -> (r: Result<Mutation, Error>)
        ensures
            self.closed() ==> r == Err::<Mutation, Error>(Error::TxFinished),
            !self.closed() && !self.writable() ==> r == Err::<Mutation, Error>(Error::TxReadonly),
            !self.closed() && self.writable() ==> r == Ok::<Mutation, Error>(Mutation::Del { key }),
    {
        if self.ok {
            return Err(Error::TxFinished);
        }
        if !self.rw {
            return Err(Error::TxReadonly);
        }
        Ok(Mutation::Del { key })
    }

    /// Deletes a key only if the store holds the expected value under it:
    /// `chk`, or nothing where `chk` is `None`.
    pub fn delc(
        &self,
        key: Key,
        chk: Option<Val>,
        current: Option<&Val>,
    ) -> (r: Result<Mutation, Error>)
        ensures
            self.closed() ==> r == Err::<Mutation, Error>(Error::TxFinished),
            !self.closed() && !self.writable() ==> r == Err::<Mutation, Error>(Error::TxReadonly),
            !self.closed() && self.writable() && !check_met(opt_ref_view(current), opt_view(chk)) ==> r
                == Err::<Mutation, Error>(Error::TxConditionNotMet),
            !self.closed() && self.writable() && check_met(opt_ref_view(current), opt_view(chk)) ==> r
                == Ok::<Mutation, Error>(Mutation::Del { key }),
    {
        if self.ok {
            return Err(Error::TxFinished);
        }
        if !self.rw {
            return Err(Error::TxReadonly);
        }
        if !check(current, &chk) {
            return Err(Error::TxConditionNotMet);
        }
        Ok(Mutation::Del { key })
    }

    /// Retrieves a range of keys. `rows` is what the store's cursor yields
    /// from its first key at or after `beg`, in ascending order; the answer is
    /// the rows at its head that lie before `end`, `limit` of them at most.
    pub fn scan(
        &self,
        rows: &Vec<(Key, Val)>,
        beg: &Key,
        end: &Key,
        limit: u32,
    ) -> (r: Result<Vec<(Key, Val)>, Error>)
        ensures
            self.closed() ==> r == Err::<Vec<(Key, Val)>, Error>(Error::TxFinished),
            !self.closed() ==> r is Ok && rows_view(r->Ok_0@) == rows_view(
                scan_rows(rows@, beg@, end@, limit as nat),
            ),
    {
        // Check to see if transaction is closed
        if self.ok {
            return Err(Error::TxFinished);
        }
        // Create result set
        let mut res: Vec<(Key, Val)> = Vec::new();
        let mut i: usize = 0;
        let ghost want = rows_view(scan_rows(rows@, beg@, end@, limit as nat));
        proof {
            assert(rows@.skip(0) =~= rows@);
            assert(rows_view(res@) + want =~= want);
        }
        // Scan the keys in the iterator
        loop
            invariant_except_break
                i <= rows.len(),
                res.len() == i,
                i <= limit,
                want == rows_view(scan_rows(rows@, beg@, end@, limit as nat)),
                rows_view(res@) + rows_view(
                    scan_rows(rows@.skip(i as int), beg@, end@, (limit - i) as nat),
                ) == want,
            ensures
                rows_view(res@) == want,
                want == rows_view(scan_rows(rows@, beg@, end@, limit as nat)),
            decreases rows.len() - i,
        {
            let ghost rest = rows@.skip(i as int);
            let ghost head = rows_view(res@);
            // Check the end of the cursor and the scan limit
            if i >= rows.len() || res.len() >= limit as usize {
                proof {
                    assert(scan_rows(rest, beg@, end@, (limit - i) as nat) =~= Seq::empty());
                    assert(head + Seq::<(Seq<u8>, Seq<u8>)>::empty() =~= head);
                }
                break;
            }
            assert(rest[0] == rows@[i as int]);
            let k = &rows[i].0;
            // Check the key
            if key_lt(k, beg) || !key_lt(k, end) {
                proof {
                    crate::key::lemma_lex_total(beg@, k@);
                    if lex_lt(k@, beg@) {
                        crate::key::lemma_lex_asymmetric(k@, beg@);
                    }
                    assert(!in_range(k@, beg@, end@));
                    assert(scan_rows(rest, beg@, end@, (limit - i) as nat) =~= Seq::empty());
                    assert(head + Seq::<(Seq<u8>, Seq<u8>)>::empty() =~= head);
                }
                break;
            }
            let row = (key_clone(&rows[i].0), key_clone(&rows[i].1));
            proof {
                crate::key::lemma_lex_total(beg@, k@);
                assert(in_range(k@, beg@, end@));
                assert(rest.drop_first() =~= rows@.skip(i + 1));
                let tail = scan_rows(rows@.skip(i + 1), beg@, end@, (limit - i - 1) as nat);
                assert(scan_rows(rest, beg@, end@, (limit - i) as nat) == seq![rows@[i as int]] + tail);
                assert(rows_view(seq![rows@[i as int]] + tail) =~= seq![(k@, rows@[i as int].1@)]
                    + rows_view(tail));
                assert(rows_view(res@.push(row)) =~= head.push((k@, rows@[i as int].1@)));
                assert(head.push((k@, rows@[i as int].1@)) + rows_view(tail) =~= head + (seq![
                    (k@, rows@[i as int].1@),
                ] + rows_view(tail)));
            }
            res.push(row);
            i += 1;
        }
        // Return result
        Ok(res)
    }
}

/// What a list of rows holds, byte for byte.
pub open spec fn rows_view(rows: Seq<(Key, Val)>) -> Seq<(Seq<u8>, Seq<u8>)> {
    Seq::new(rows.len(), |i: int| (rows[i].0@, rows[i].1@))
}

/// Decides whether the stored value is the expected one.
fn check(current: Option<&Val>, chk: &Option<Val>) -> (b: bool)
    ensures
        b == check_met(opt_ref_view(current), opt_view(*chk)),
{
    match (current, chk) {
        (Some(v), Some(w)) => key_eq(v, w),
        (None, None) => true,
        _ => false,
    }
}

/// A transaction is finalised once: after a cancel, and after a commit that
/// went through, every further cancel or commit answers `TxFinished`.
pub proof fn law_finalised_once(tx: Transaction)
    ensures
        tx.after_cancel().0.after_cancel().1 == Err::<TransactionType, Error>(Error::TxFinished),
        tx.after_cancel().0.after_commit().1 == Err::<(), Error>(Error::TxFinished),
        tx.after_commit().1 is Ok ==> tx.after_commit().0.after_commit().1 == Err::<(), Error>(
            Error::TxFinished,
        ),
        tx.after_commit().1 is Ok ==> tx.after_commit().0.after_cancel().1 == Err::<
            TransactionType,
            Error,
        >(Error::TxFinished),
        tx.writable() || tx.closed() ==> tx.after_commit().0.after_commit().1 == Err::<(), Error>(
            Error::TxFinished,
        ),
{
}

} // verus!
