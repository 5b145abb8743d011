//! The data model: operators, values, their mathematical view, and the errors
//! of parsing and evaluation.
//!
//! A value owns its contents: a block holds its own copy of every value in
//! it, and nothing is shared between two values. Copying, writing and
//! dropping a value go down its blocks by recursion, as deep as they are
//! nested.

use vstd::prelude::*;

verus! {

/// The operators of the language.
#[derive(Clone, Copy, Debug, PartialEq, Eq)]
pub enum Operator {
    Add,
    Sub,
    Mul,
    Div,
    If,
}

/// A parsed item and, equally, a value on the operand stack.
#[derive(Debug, PartialEq, Eq)]
pub enum Value {
    /// An integer literal or the result of arithmetic.
    Number(i32),
    /// An operator that has not been applied.
    Operator(Operator),
    /// A sub-program, kept unevaluated until an operator consumes it.
    Block(Vec<Value>),
}

/// The mathematical model of a [`Value`]: the same tree, with sequences in
/// place of vectors.
pub enum Term {
    Number(i32),
    Operator(Operator),
    Block(Seq<Term>),
}

/// What went wrong while evaluating.
#[derive(Clone, Copy, Debug, PartialEq, Eq)]
pub enum RuntimeError {
    /// An operator needs more operands than the stack holds.
    StackUnderflow,
    /// An operand is not of the kind the operator expects.
    TypeMismatch,
    /// Division with a right-hand operand of zero.
    DivisionByZero,
}

/// What went wrong while parsing.
#[derive(Debug, PartialEq, Eq)]
pub enum ParseError {
    /// The token is no number, no operator and no brace.
    InvalidToken(String),
    /// The input ended while a `{` was still open.
    UnterminatedBlock,
}

/// The mathematical model of a [`ParseError`].
pub enum ParseFault {
    InvalidToken(Seq<char>),
    UnterminatedBlock,
}

impl View for ParseError {
    type V = ParseFault;

    open spec fn view(&self) -> ParseFault {
        match self {
            ParseError::InvalidToken(token) => ParseFault::InvalidToken(token@),
            ParseError::UnterminatedBlock => ParseFault::UnterminatedBlock,
        }
    }
}

impl View for Value {
    type V = Term;

    open spec fn view(&self) -> Term
        decreases self,
    {
        match self {
            Value::Number(n) => Term::Number(*n),
            Value::Operator(op) => Term::Operator(*op),
            Value::Block(items) => Term::Block(terms(items@)),
        }
    }
}

/// The terms that a sequence of values stands for.
pub open spec fn terms(values: Seq<Value>) -> Seq<Term>
    decreases values,
{
    if values.len() == 0 {
        Seq::empty()
    } else {
        terms(values.drop_last()).push(values.last()@)
    }
}

/// The number of nodes of a term: one for the term itself and, for a block,
/// the nodes of its contents.
pub open spec fn size(t: Term) -> nat
    decreases t,
{
    match t {
        Term::Block(items) => 1 + size_all(items),
        _ => 1,
    }
}

/// The number of nodes of all terms of a sequence together.
pub open spec fn size_all(ts: Seq<Term>) -> nat
    decreases ts,
{
    if ts.len() == 0 {
        0
    } else {
        size_all(ts.drop_last()) + size(ts.last())
    }
}

/// `terms` maps each value to its term, place by place.
pub proof fn lemma_terms(values: Seq<Value>)
    ensures
        terms(values).len() == values.len(),
        forall|i: int| 0 <= i < values.len() ==> #[trigger] terms(values)[i] == values[i]@,
    decreases values.len(),
{
    if values.len() > 0 {
        lemma_terms(values.drop_last());
        assert(terms(values) == terms(values.drop_last()).push(values.last()@));
    }
}

/// The nodes of a sequence with one more term.
pub proof fn lemma_size_push(s: Seq<Term>, t: Term)
    ensures
        size_all(s.push(t)) == size_all(s) + size(t),
{
    let longer = s.push(t);
    assert(longer.drop_last() =~= s);
    assert(size_all(longer) == size_all(longer.drop_last()) + size(longer.last()));
}

/// The nodes of a sequence are those of its front and of its back together.
pub proof fn lemma_size_take(s: Seq<Term>, k: int)
    requires
        0 <= k <= s.len(),
    ensures
        size_all(s) == size_all(s.take(k)) + size_all(s.skip(k)),
    decreases s.len(),
{
    if k == s.len() {
        assert(s.take(k) =~= s);
        assert(s.skip(k) =~= Seq::<Term>::empty());
        assert(size_all(s.skip(k)) == 0);
    } else {
        let front = s.drop_last();
        lemma_size_take(front, k);
        assert(front.take(k) =~= s.take(k));
        assert(s.skip(k).drop_last() =~= front.skip(k));
        assert(s.skip(k).last() == s.last());
        assert(size_all(s.skip(k)) == size_all(s.skip(k).drop_last()) + size(s.skip(k).last()));
        assert(size_all(s) == size_all(s.drop_last()) + size(s.last()));
    }
}

/// The nodes of a sequence of one term.
pub proof fn lemma_size_single(s: Seq<Term>)
    requires
        s.len() == 1,
    ensures
        size_all(s) == size(s[0]),
{
    assert(size_all(s) == size_all(s.drop_last()) + size(s.last()));
    assert(size_all(s.drop_last()) == 0);
}

/// The nodes of a sequence are those of its first term and of the rest.
pub proof fn lemma_size_first(s: Seq<Term>)
    requires
        s.len() > 0,
    ensures
        size_all(s) == size(s[0]) + size_all(s.skip(1)),
{
    lemma_size_take(s, 1);
    lemma_size_single(s.take(1));
}

/// The nodes of a stack whose three topmost values are set apart.
pub proof fn lemma_size_top3(s: Seq<Term>)
    requires
        s.len() >= 3,
    ensures
        size_all(s) == size_all(s.take(s.len() - 3)) + size(s[s.len() - 3]) + size(
            s[s.len() - 2],
        ) + size(s[s.len() - 1]),
{
    let n = s.len() as int;
    let a = s.drop_last();
    let b = a.drop_last();
    let c = b.drop_last();
    assert(c =~= s.take(n - 3));
    assert(size_all(s) == size_all(a) + size(s.last()));
    assert(size_all(a) == size_all(b) + size(a.last()));
    assert(size_all(b) == size_all(c) + size(b.last()));
}

/// The nodes of a stack whose two topmost values are set apart.
pub proof fn lemma_size_top2(s: Seq<Term>)
    requires
        s.len() >= 2,
    ensures
        size_all(s) == size_all(s.take(s.len() - 2)) + size(s[s.len() - 2]) + size(
            s[s.len() - 1],
        ),
{
    let n = s.len() as int;
    let a = s.drop_last();
    let b = a.drop_last();
    assert(b =~= s.take(n - 2));
    assert(size_all(s) == size_all(a) + size(s.last()));
    assert(size_all(a) == size_all(b) + size(a.last()));
}

/// The view of a block is the block of the views of its contents.
pub proof fn lemma_view_block(items: Vec<Value>)
    ensures
        Value::Block(items)@ == Term::Block(terms(items@)),
{
}

impl Clone for Value {
    /// A deep copy: the copy stands for the same term.
    fn clone(&self) -> (res: Value)
        ensures
            res@ == self@,
        decreases self,
    {
        match self {
            Value::Number(n) => Value::Number(*n),
            Value::Operator(op) => Value::Operator(*op),
            Value::Block(items) => {
                let mut copy: Vec<Value> = Vec::new();
                let mut i: usize = 0;
                while i < items.len()
                    invariant
                        *self == Value::Block(*items),
                        i <= items.len(),
                        copy@.len() == i,
                        forall|j: int| 0 <= j < i ==> copy@[j]@ == items@[j]@,
                    decreases items.len() - i,
                {
                    proof {
                        vstd::std_specs::vec::axiom_vec_index_decreases(*items, i as int);
                        assert(decreases_to!(*self => self->Block_0));
                    }
                    copy.push(items[i].clone());
                    i += 1;
                }
                proof {
                    lemma_terms(copy@);
                    lemma_terms(items@);
                    assert(terms(copy@) =~= terms(items@));
                }
                Value::Block(copy)
            },
        }
    }
}

impl Value {
    /// The contents of a block, copied; `TypeMismatch` for any other value.
    pub fn to_block(&self) -> (result: Result<Vec<Value>, RuntimeError>)
        ensures
            match result {
                Ok(items) => self@ == Term::Block(terms(items@)),
                Err(e) => !(self@ is Block) && e == RuntimeError::TypeMismatch,
            },
    {
        match self {
            Value::Block(items) => {
                let copy = clone_values(items.as_slice());
                proof {
                    lemma_view_block(*items);
                }
                Ok(copy)
            },
            _ => Err(RuntimeError::TypeMismatch),
        }
    }

    /// The integer of a number; `TypeMismatch` for any other value.
    pub fn as_num(&self) -> (result: Result<i32, RuntimeError>)
        ensures
            match result {
                Ok(n) => self@ == Term::Number(n),
                Err(e) => !(self@ is Number) && e == RuntimeError::TypeMismatch,
            },
    {
        match self {
            Value::Number(n) => Ok(*n),
            _ => Err(RuntimeError::TypeMismatch),
        }
    }
}

/// A deep copy of a run of values.
pub fn clone_values(values: &[Value]) -> (copy: Vec<Value>)
    ensures
        terms(copy@) == terms(values@),
{
    let mut copy: Vec<Value> = Vec::new();
    let mut i: usize = 0;
    while i < values.len()
        invariant
            i <= values.len(),
            copy@.len() == i,
            forall|j: int| 0 <= j < i ==> copy@[j]@ == values@[j]@,
        decreases values.len() - i,
    {
        copy.push(values[i].clone());
        i += 1;
    }
    proof {
        lemma_terms(copy@);
        lemma_terms(values@);
        assert(terms(copy@) =~= terms(values@));
    }
    copy
}

} // verus!
