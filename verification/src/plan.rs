//! The plan as the executor sees it: index definitions, the operators bound
//! to them, and the entries that iterators are made from.

use vstd::prelude::*;
use crate::err::MatchRef;
use crate::sql::{Expression, Idiom};

verus! {

/// The place of an index definition in the catalogue's list.
pub type IndexRef = u16;

/// The place of an iterator entry in the executor's list.
pub type IteratorRef = u16;

/// On which side of a comparison the indexed field stands.
#[derive(Clone, Copy, PartialEq, Eq, Structural, Debug)]
pub enum IdiomPosition {
    Left,
    Right,
}

/// One end of a range: the value, and whether the value itself belongs.
#[derive(Clone, Copy, PartialEq, Eq, Structural, Debug)]
pub struct RangeValue {
    pub value: i64,
    pub inclusive: bool,
}

/// The kinds of index.
#[derive(Clone, Copy, PartialEq, Eq, Structural, Debug)]
pub enum Index {
    /// An ordered index.
    Idx,
    /// An ordered index with one record per value.
    Uniq,
    /// A full-text index.
    Search,
    /// A metric tree over vectors.
    MTree,
    /// A small-world graph over vectors.
    Hnsw,
}

/// The definition of one index.
#[derive(Debug)]
pub struct DefineIndexStatement {
    /// The index's name.
    pub name: String,
    /// The index's number in the catalogue: it stands for the name in keys.
    pub id: u32,
    /// The table the index is defined on.
    pub what: u32,
    pub index: Index,
}

/// What a predicate asks of its index.
#[derive(Debug)]
pub enum IndexOperator {
    Equality(i64),
    Exactness(i64),
    Union(Vec<i64>),
    Join(Vec<IndexOption>),
    Matches(Vec<u8>, Option<MatchRef>),
    Knn(Vec<i32>, u32),
    Ann(Vec<i32>, usize, usize),
}

/// The binding of one predicate to one index.
#[derive(Debug)]
pub struct IndexOption {
    pub ir: IndexRef,
    pub id: Idiom,
    pub id_pos: IdiomPosition,
    pub op: IndexOperator,
}

impl IndexOption {
    /// Binds the field `id`, which stands on the side `id_pos`, to the index
    /// `ir` with the operator `op`.
    pub fn new(
        ir: IndexRef,
        id: Idiom,
        id_pos: IdiomPosition,
        op: IndexOperator,
    ) -> (io: IndexOption)
        ensures
            io == (IndexOption { ir, id, id_pos, op }),
    {
        IndexOption { ir, id, id_pos, op }
    }

    /// The index that the option is bound to.
    pub fn ix_ref(&self) -> (ir: IndexRef)
        ensures
            ir == self.ir,
    {
        self.ir
    }

    /// What the option asks of its index.
    pub fn op(&self) -> (op: &IndexOperator)
        ensures
            *op == self.op,
    {
        &self.op
    }

    /// The field that the option is about.
    pub fn id_ref(&self) -> (id: &Idiom)
        ensures
            *id == self.id,
    {
        &self.id
    }

    /// The side of the comparison on which the field stands.
    pub fn id_pos(&self) -> (p: IdiomPosition)
        ensures
            p == self.id_pos,
    {
        self.id_pos
    }

    /// Describes the option: the name of its index if the catalogue has it,
    /// and the operator.
    pub fn explain(&self, ix_def: &Vec<DefineIndexStatement>) -> (e: Explanation)
        ensures
            e.index_is(ix_def@, self.ir),
            e.detail == ExplainDetail::Operator(operator_of(self.op)),
    {
        let index = index_name(ix_def, self.ir);
        let operator = match &self.op {
            IndexOperator::Equality(_) => Operator::Equality,
            IndexOperator::Exactness(_) => Operator::Exactness,
            IndexOperator::Union(_) => Operator::Union,
            IndexOperator::Join(_) => Operator::Join,
            IndexOperator::Matches(_, _) => Operator::Matches,
            IndexOperator::Knn(_, _) => Operator::Knn,
            IndexOperator::Ann(_, _, _) => Operator::Ann,
        };
        Explanation { index, detail: ExplainDetail::Operator(operator) }
    }
}

/// The name of an operator, without what it is applied to.
#[derive(Clone, Copy, PartialEq, Eq, Structural, Debug)]
pub enum Operator {
    Equality,
    Exactness,
    Union,
    Join,
    Matches,
    Knn,
    Ann,
}

/// The name of the operator `op`.
pub open spec fn operator_of(op: IndexOperator) -> Operator {
    match op {
        IndexOperator::Equality(_) => Operator::Equality,
        IndexOperator::Exactness(_) => Operator::Exactness,
        IndexOperator::Union(_) => Operator::Union,
        IndexOperator::Join(_) => Operator::Join,
        IndexOperator::Matches(_, _) => Operator::Matches,
        IndexOperator::Knn(_, _) => Operator::Knn,
        IndexOperator::Ann(_, _, _) => Operator::Ann,
    }
}

/// What an explanation says besides the index.
#[derive(Clone, Copy, PartialEq, Eq, Structural, Debug)]
pub enum ExplainDetail {
    Operator(Operator),
    Range { from: RangeValue, to: RangeValue },
}

/// How an iterator entry reads to a user.
#[derive(Debug)]
pub struct Explanation {
    /// The name of the index, if the catalogue has it.
    pub index: Option<String>,
    pub detail: ExplainDetail,
}

impl Explanation {
    /// The explanation names the index that `ir` refers to in `defs`, and
    /// names none if `ir` refers to nothing.
    pub open spec fn index_is(&self, defs: Seq<DefineIndexStatement>, ir: IndexRef) -> bool {
        if ir < defs.len() {
            self.index is Some && self.index->Some_0@ == defs[ir as int].name@
        } else {
            self.index is None
        }
    }
}

/// The name of the index that `ir` refers to, if any.
fn index_name(ix_def: &Vec<DefineIndexStatement>, ir: IndexRef) -> (n: Option<String>)
    ensures
        if ir < ix_def.len() {
            n is Some && n->Some_0@ == ix_def[ir as int].name@
        } else {
            n is None
        },
{
    if (ir as usize) < ix_def.len() {
        Some(ix_def[ir as usize].name.clone())
    } else {
        None
    }
}

/// What an iterator is made from.
#[derive(Debug)]
pub enum IteratorEntry {
    /// One predicate and its index option.
    Single(Expression, IndexOption),
    /// The predicates that bound a range from both sides, the index, and the
    /// two ends.
    Range(Vec<Expression>, IndexRef, RangeValue, RangeValue),
}

impl IteratorEntry {
    /// Describes the entry: a range by its index and its two ends, a single
    /// option as the option describes itself.
    pub fn explain(&self, ix_def: &Vec<DefineIndexStatement>) -> (e: Explanation)
        ensures
            match *self {
                IteratorEntry::Single(_, io) => e.index_is(ix_def@, io.ir) && e.detail
                    == ExplainDetail::Operator(operator_of(io.op)),
                IteratorEntry::Range(_, ir, from, to) => e.index_is(ix_def@, ir) && e.detail == (
                ExplainDetail::Range { from, to }),
            },
    {
        match self {
            IteratorEntry::Single(_, io) => io.explain(ix_def),
            IteratorEntry::Range(_, ir, from, to) => {
                let index = index_name(ix_def, *ir);
                Explanation { index, detail: ExplainDetail::Range { from: *from, to: *to } }
            },
        }
    }

    /// Whether the entry was made for the expression `exp`.
    pub open spec fn is_for(&self, exp: Expression) -> bool {
        match *self {
            IteratorEntry::Single(e, _) => e == exp,
            IteratorEntry::Range(es, _, _, _) => es@.contains(exp),
        }
    }
}

/// Where a query runs.
#[derive(Clone, Copy, PartialEq, Eq, Structural, Debug)]
pub struct Options {
    pub ns: u32,
    pub db: u32,
}

impl Options {
    /// A query in the namespace `ns` and the database `db`.
    pub fn new(ns: u32, db: u32) -> (o: Options)
        ensures
            o == (Options { ns, db }),
    {
        Options { ns, db }
    }

    /// The namespace.
    pub fn ns(&self) -> (ns: u32)
        ensures
            ns == self.ns,
    {
        self.ns
    }

    /// The database.
    pub fn db(&self) -> (db: u32)
        ensures
            db == self.db,
    {
        self.db
    }
}

/// The options of a plan, each with the expression it serves, and the index
/// definitions they refer to.
#[derive(Debug)]
pub struct IndexesMap {
    pub options: Vec<(Expression, IndexOption)>,
    pub definitions: Vec<DefineIndexStatement>,
}

} // verus!
