//! Record identities, expressions and the values that the executor hands back.

use vstd::prelude::*;

verus! {

/// The identity of a record: its table and its number in that table. Tables
/// are named by their number in the catalogue.
#[derive(Clone, Copy, PartialEq, Eq, Structural, Debug, Hash, PartialOrd, Ord)]
pub struct Thing {
    pub tb: u32,
    pub id: u64,
}

/// `a` comes strictly before `b`: by table first, then by number.
pub open spec fn thing_lt(a: Thing, b: Thing) -> bool {
    a.tb < b.tb || (a.tb == b.tb && a.id < b.id)
}

impl Thing {
    /// Decides whether this record comes strictly before `other`.
    pub fn lt(&self, other: &Thing) -> (r: bool)
        ensures
            r == thing_lt(*self, *other),
    {
        self.tb < other.tb || (self.tb == other.tb && self.id < other.id)
    }
}

/// A predicate of the query, named by the number the planner gave it. Two
/// expressions are the same exactly if their numbers are.
#[derive(Clone, Copy, PartialEq, Eq, Structural, Debug, Hash)]
pub struct Expression(pub u64);

/// A value handed to or from the executor.
#[derive(Debug)]
pub enum Value {
    /// No value.
    Null,
    Bool(bool),
    Number(i64),
    Strand(String),
    /// A text as bytes.
    Bytes(Vec<u8>),
    /// Places in a text: for each the byte where it starts and the byte
    /// behind its end.
    Offsets(Vec<(u32, u32)>),
}

/// A path into a record, named by the number of the field it reads.
#[derive(Clone, Copy, PartialEq, Eq, Structural, Debug)]
pub struct Idiom(pub u32);

/// The record that a scan is at: the vectors it holds, each under its field.
#[derive(Debug)]
pub struct CursorDoc {
    pub fields: Vec<(Idiom, Vec<i32>)>,
}

/// The vector that the first field `id` at or after `from` holds, or the
/// empty vector if there is no such field.
pub open spec fn field_from(fields: Seq<(Idiom, Vec<i32>)>, id: Idiom, from: int) -> Seq<i32>
    decreases fields.len() - from,
{
    if from < 0 || from >= fields.len() {
        Seq::empty()
    } else if fields[from].0 == id {
        fields[from].1@
    } else {
        field_from(fields, id, from + 1)
    }
}

/// The vector that a record holds under `id`; a record that is missing, or
/// has no such field, holds the empty vector.
pub open spec fn vector_of(doc: Option<&CursorDoc>, id: Idiom) -> Seq<i32> {
    match doc {
        Some(d) => field_from(d.fields@, id, 0),
        None => Seq::empty(),
    }
}

impl Idiom {
    /// Reads the vector that `doc` holds under this path.
    pub fn compute(&self, doc: Option<&CursorDoc>) -> (r: Vec<i32>)
        ensures
            r@ == vector_of(doc, *self),
    {
        if let Some(d) = doc {
            let mut i: usize = 0;
            while i < d.fields.len()
                invariant
                    i <= d.fields.len(),
                    doc == Some(d),
                    field_from(d.fields@, *self, 0) == field_from(d.fields@, *self, i as int),
                decreases d.fields.len() - i,
            {
                if d.fields[i].0.0 == self.0 {
                    let v = d.fields[i].1.clone();
                    assert(v@ =~= d.fields@[i as int].1@);
                    return v;
                }
                i += 1;
            }
        }
        Vec::new()
    }
}

} // verus!
