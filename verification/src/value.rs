//! Expressions, which are also the values that evaluation gives, and errors.

use vstd::prelude::*;

verus! {

/// The builtin operations.
#[derive(Debug, Clone, Copy, PartialEq, Eq, Structural)]
pub enum Builtin {
    /// `+`
    Plus,
    /// `-`
    Minus,
    /// `=`
    Equal,
    /// `>`
    Greater,
    /// `<`
    Less,
    /// `>=`
    AtLeast,
    /// `<=`
    AtMost,
}

/// An expression: what the parser builds and what evaluation returns.
#[derive(Debug, PartialEq)]
pub enum RispExp {
    /// A truth value.
    Bool(bool),
    /// An identifier.
    Symbol(String),
    /// A double-precision number, as its bit pattern.
    Number(u64),
    /// A nested expression; the first element is the operator.
    List(Vec<RispExp>),
    /// A builtin operation.
    Func(Builtin),
}

/// The mathematical model of an expression.
pub enum Value {
    Bool(bool),
    Symbol(Seq<char>),
    Number(u64),
    List(Seq<Value>),
    Func(Builtin),
}

/// A failure, with the reason in words.
#[derive(Debug, PartialEq)]
pub enum RispErr {
    Reason(String),
}

/// The model of an expression.
pub open spec fn model(e: RispExp) -> Value
    decreases e,
{
    match e {
        RispExp::Bool(b) => Value::Bool(b),
        RispExp::Symbol(s) => Value::Symbol(s@),
        RispExp::Number(n) => Value::Number(n),
        RispExp::List(items) => Value::List(views(items@)),
        RispExp::Func(f) => Value::Func(f),
    }
}

/// The models of a sequence of expressions, in the same order.
pub open spec fn views(items: Seq<RispExp>) -> Seq<Value>
    decreases items,
{
    if items.len() == 0 {
        Seq::empty()
    } else {
        views(items.drop_last()).push(model(items.last()))
    }
}

impl View for RispExp {
    type V = Value;

    open spec fn view(&self) -> Value {
        model(*self)
    }
}

impl View for RispErr {
    type V = Seq<char>;

    open spec fn view(&self) -> Seq<char> {
        match self {
            RispErr::Reason(s) => s@,
        }
    }
}

/// `views` goes element by element.
pub proof fn lemma_views(items: Seq<RispExp>)
    ensures
        views(items).len() == items.len(),
        forall|i: int| 0 <= i < items.len() ==> #[trigger] views(items)[i] == items[i]@,
    decreases items.len(),
{
    if items.len() > 0 {
        lemma_views(items.drop_last());
    }
}

/// The model of an outcome.
pub open spec fn outcome(r: Result<RispExp, RispErr>) -> Result<Value, Seq<char>> {
    match r {
        Ok(v) => Ok(v@),
        Err(e) => Err(e@),
    }
}

/// An error with the given reason.
pub fn reason(text: &str) -> (e: RispErr)
    ensures
        e@ == text@,
{
    RispErr::Reason(text.to_owned())
}

impl Clone for RispExp {
    fn clone(&self) -> (r: Self)
        ensures
            r@ == self@,
        decreases self,
    {
        match self {
            RispExp::Bool(b) => RispExp::Bool(*b),
            RispExp::Symbol(s) => RispExp::Symbol(s.clone()),
            RispExp::Number(n) => RispExp::Number(*n),
            RispExp::List(items) => {
                let mut copy: Vec<RispExp> = Vec::new();
                let mut i: usize = 0;
                while i < items.len()
                    invariant
                        self is List,
                        self->List_0 == *items,
                        i <= items.len(),
                        copy.len() == i,
                        views(copy@) == views(items@.take(i as int)),
                    decreases items.len() - i,
                {
                    assert(decreases_to!(self => items[i as int]));
                    let ghost before = copy@;
                    copy.push(items[i].clone());
                    i = i + 1;
                    proof {
                        assert(copy@.drop_last() =~= before);
                        assert(items@.take(i as int).drop_last() =~= items@.take(i - 1));
                    }
                }
                proof {
                    assert(items@.take(i as int) =~= items@);
                }
                RispExp::List(copy)
            },
            RispExp::Func(f) => RispExp::Func(*f),
        }
    }
}

impl Clone for RispErr {
    fn clone(&self) -> (r: Self)
        ensures
            r@ == self@,
    {
        match self {
            RispErr::Reason(s) => RispErr::Reason(s.clone()),
        }
    }
}

} // verus!
