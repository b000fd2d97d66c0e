//! The builtin operations: what each one is called and what it computes
//! from its evaluated arguments.

use crate::binary64::{
    at_most,
    difference,
    difference_of,
    equal,
    is_at_most,
    is_equal,
    is_less,
    is_nan,
    lemma_zero_is_neutral,
    less,
    sum,
    sum_of,
    ZERO,
};
use crate::value::{lemma_views, outcome, reason, views, Builtin, RispErr, RispExp, Value};
use vstd::prelude::*;

verus! {

/// The symbol to which a builtin is bound.
pub open spec fn name_of(b: Builtin) -> Seq<char> {
    match b {
        Builtin::Plus => "+"@,
        Builtin::Minus => "-"@,
        Builtin::Equal => "="@,
        Builtin::Greater => ">"@,
        Builtin::Less => "<"@,
        Builtin::AtLeast => ">="@,
        Builtin::AtMost => "<="@,
    }
}

/// The builtin that a symbol names, if it names one.
pub open spec fn builtin_named(name: Seq<char>) -> Option<Builtin> {
    if name == name_of(Builtin::Plus) {
        Some(Builtin::Plus)
    } else if name == name_of(Builtin::Minus) {
        Some(Builtin::Minus)
    } else if name == name_of(Builtin::Equal) {
        Some(Builtin::Equal)
    } else if name == name_of(Builtin::Greater) {
        Some(Builtin::Greater)
    } else if name == name_of(Builtin::Less) {
        Some(Builtin::Less)
    } else if name == name_of(Builtin::AtLeast) {
        Some(Builtin::AtLeast)
    } else if name == name_of(Builtin::AtMost) {
        Some(Builtin::AtMost)
    } else {
        None
    }
}

/// No two builtins share a symbol.
pub proof fn lemma_names_differ(b: Builtin)
    ensures
        builtin_named(name_of(b)) == Some(b),
{
    reveal_strlit("+");
    reveal_strlit("-");
    reveal_strlit("=");
    reveal_strlit(">");
    reveal_strlit("<");
    reveal_strlit(">=");
    reveal_strlit("<=");
    assert("+"@[0] == '+');
    assert("-"@[0] == '-');
    assert("="@[0] == '=');
    assert(">"@[0] == '>');
    assert("<"@[0] == '<');
    assert(">="@[0] == '>');
    assert("<="@[0] == '<');
    assert(">"@.len() == 1 && ">="@.len() == 2);
    assert("<"@.len() == 1 && "<="@.len() == 2);
}

/// The reason given for an argument that is no number.
pub open spec fn not_a_number() -> Seq<char> {
    "expected a number"@
}

/// The reason given where an operation that needs an argument has none.
pub open spec fn no_number() -> Seq<char> {
    "expected at least one number"@
}

/// Whether every argument is a number.
pub open spec fn all_numbers(args: Seq<Value>) -> bool {
    forall|i: int| 0 <= i < args.len() ==> #[trigger] args[i] is Number
}

/// The numbers that the arguments hold, in order.
pub open spec fn numbers(args: Seq<Value>) -> Seq<u64> {
    Seq::new(args.len(), |i: int| args[i]->Number_0)
}

/// The numbers added up from the left, starting from zero.
pub open spec fn total(xs: Seq<u64>) -> u64
    decreases xs.len(),
{
    if xs.len() == 0 {
        ZERO
    } else {
        sum_of(total(xs.drop_last()), xs.last())
    }
}

/// Whether the comparison `b` holds between `x` and `y`, in this order.
pub open spec fn holds(b: Builtin, x: u64, y: u64) -> bool {
    match b {
        Builtin::Equal => equal(x, y),
        Builtin::Greater => less(y, x),
        Builtin::Less => less(x, y),
        Builtin::AtLeast => at_most(y, x),
        Builtin::AtMost => at_most(x, y),
        _ => false,
    }
}

/// Whether the comparison holds between every number and the next.
pub open spec fn chain_holds(b: Builtin, xs: Seq<u64>) -> bool {
    forall|i: int| 0 <= i < xs.len() - 1 ==> holds(b, #[trigger] xs[i], xs[i + 1])
}

/// What a builtin gives for a sequence of evaluated arguments.
pub open spec fn applied(b: Builtin, args: Seq<Value>) -> Result<Value, Seq<char>> {
    if !all_numbers(args) {
        Err(not_a_number())
    } else {
        let xs = numbers(args);
        match b {
            Builtin::Plus => Ok(Value::Number(total(xs))),
            Builtin::Minus => if xs.len() == 0 {
                Err(no_number())
            } else {
                Ok(Value::Number(difference_of(xs[0], total(xs.skip(1)))))
            },
            _ => if xs.len() == 0 {
                Err(no_number())
            } else {
                Ok(Value::Bool(chain_holds(b, xs)))
            },
        }
    }
}

/// Without arguments a sum is zero, and every other builtin fails.
pub proof fn lemma_applied_to_nothing(b: Builtin)
    ensures
        applied(b, Seq::empty()) == if b == Builtin::Plus {
            Ok::<Value, Seq<char>>(Value::Number(ZERO))
        } else {
            Err::<Value, Seq<char>>(no_number())
        },
{
    assert(numbers(Seq::<Value>::empty()) =~= Seq::<u64>::empty());
}

/// With one number as its argument a comparison holds, and a difference is
/// that number.
pub proof fn lemma_applied_to_one(b: Builtin, x: u64)
    ensures
        b != Builtin::Plus && b != Builtin::Minus ==> applied(b, seq![Value::Number(x)]) == Ok::<
            Value,
            Seq<char>,
        >(Value::Bool(true)),
        !is_nan(x) ==> applied(Builtin::Minus, seq![Value::Number(x)]) == Ok::<
            Value,
            Seq<char>,
        >(Value::Number(x)),
{
    let args = seq![Value::Number(x)];
    assert(args[0] is Number);
    assert(numbers(args) =~= seq![x]);
    assert(seq![x].skip(1) =~= Seq::<u64>::empty());
    if !is_nan(x) {
        lemma_zero_is_neutral(x);
    }
}

impl Builtin {
    /// All builtins.
    pub fn all() -> (v: Vec<Builtin>)
        ensures
            v@ == seq![
                Builtin::Plus,
                Builtin::Minus,
                Builtin::Equal,
                Builtin::Greater,
                Builtin::Less,
                Builtin::AtLeast,
                Builtin::AtMost,
            ],
            forall|b: Builtin| v@.contains(b),
    {
        let v = vec![
            Builtin::Plus,
            Builtin::Minus,
            Builtin::Equal,
            Builtin::Greater,
            Builtin::Less,
            Builtin::AtLeast,
            Builtin::AtMost,
        ];
        proof {
            assert(v@[0] == Builtin::Plus);
            assert(v@[1] == Builtin::Minus);
            assert(v@[2] == Builtin::Equal);
            assert(v@[3] == Builtin::Greater);
            assert(v@[4] == Builtin::Less);
            assert(v@[5] == Builtin::AtLeast);
            assert(v@[6] == Builtin::AtMost);
            assert(v@ =~= seq![
                Builtin::Plus,
                Builtin::Minus,
                Builtin::Equal,
                Builtin::Greater,
                Builtin::Less,
                Builtin::AtLeast,
                Builtin::AtMost,
            ]);
        }
        v
    }

    /// The symbol to which the builtin is bound.
    pub fn name(&self) -> (s: String)
        ensures
            s@ == name_of(*self),
    {
        match self {
            Builtin::Plus => "+".to_owned(),
            Builtin::Minus => "-".to_owned(),
            Builtin::Equal => "=".to_owned(),
            Builtin::Greater => ">".to_owned(),
            Builtin::Less => "<".to_owned(),
            Builtin::AtLeast => ">=".to_owned(),
            Builtin::AtMost => "<=".to_owned(),
        }
    }

    /// The builtin to which a symbol is bound, if it is bound to one.
    pub fn named(name: &str) -> (r: Option<Builtin>)
        ensures
            r == builtin_named(name@),
    {
        let ops = Builtin::all();
        let key = name.to_owned();
        let mut i: usize = 0;
        while i < ops.len()
            invariant
                i <= ops.len(),
                key@ == name@,
                ops@ == seq![
                    Builtin::Plus,
                    Builtin::Minus,
                    Builtin::Equal,
                    Builtin::Greater,
                    Builtin::Less,
                    Builtin::AtLeast,
                    Builtin::AtMost,
                ],
                forall|j: int| 0 <= j < i ==> name_of(#[trigger] ops[j]) != name@,
            decreases ops.len() - i,
        {
            if ops[i].name() == key {
                proof {
                    lemma_names_differ(ops[i as int]);
                }
                return Some(ops[i]);
            }
            i = i + 1;
        }
        proof {
            assert(name_of(ops[0]) != name@);
            assert(name_of(ops[1]) != name@);
            assert(name_of(ops[2]) != name@);
            assert(name_of(ops[3]) != name@);
            assert(name_of(ops[4]) != name@);
            assert(name_of(ops[5]) != name@);
            assert(name_of(ops[6]) != name@);
        }
        None
    }

    /// Applies the builtin to evaluated arguments.
    pub fn apply(&self, args: &[RispExp]) -> (r: Result<RispExp, RispErr>)
        ensures
            outcome(r) == applied(*self, views(args@)),
    {
        let xs = match parse_list_of_floats(args) {
            Ok(xs) => xs,
            Err(e) => {
                return Err(e);
            },
        };
        proof {
            assert(xs@.skip(0) =~= xs@);
        }
        match self {
            Builtin::Plus => Ok(RispExp::Number(sum_from(&xs, 0))),
            Builtin::Minus => {
                if xs.len() == 0 {
                    Err(reason("expected at least one number"))
                } else {
                    Ok(RispExp::Number(difference(xs[0], sum_from(&xs, 1))))
                }
            },
            _ => {
                if xs.len() == 0 {
                    Err(reason("expected at least one number"))
                } else {
                    Ok(RispExp::Bool(chain(*self, &xs)))
                }
            },
        }
    }
}

/// The number that an evaluated argument holds.
pub fn parse_single_float(exp: &RispExp) -> (r: Result<u64, RispErr>)
    ensures
        match exp@ {
            Value::Number(n) => r == Ok::<u64, RispErr>(n),
            _ => r is Err && r->Err_0@ == not_a_number(),
        },
{
    match exp {
        RispExp::Number(num) => Ok(*num),
        _ => Err(reason("expected a number")),
    }
}

/// The numbers that the evaluated arguments hold, if all of them are numbers.
pub fn parse_list_of_floats(args: &[RispExp]) -> (r: Result<Vec<u64>, RispErr>)
    ensures
        all_numbers(views(args@)) ==> r is Ok && r->Ok_0@ == numbers(views(args@)),
        !all_numbers(views(args@)) ==> r is Err && r->Err_0@ == not_a_number(),
{
    let mut xs: Vec<u64> = Vec::new();
    let mut i: usize = 0;
    proof {
        lemma_views(args@);
    }
    while i < args.len()
        invariant
            i <= args.len(),
            xs.len() == i,
            views(args@).len() == args.len(),
            forall|j: int| 0 <= j < args.len() ==> #[trigger] views(args@)[j] == args[j]@,
            forall|j: int| 0 <= j < i ==> #[trigger] views(args@)[j] == Value::Number(xs[j]),
        decreases args.len() - i,
    {
        match parse_single_float(&args[i]) {
            Ok(x) => {
                xs.push(x);
            },
            Err(e) => {
                assert(!(views(args@)[i as int] is Number));
                return Err(e);
            },
        }
        i = i + 1;
    }
    assert(xs@ =~= numbers(views(args@)));
    Ok(xs)
}

/// The numbers from position `from` on, added up from the left.
fn sum_from(xs: &Vec<u64>, from: usize) -> (r: u64)
    requires
        from <= xs.len(),
    ensures
        r == total(xs@.skip(from as int)),
{
    let mut acc: u64 = ZERO;
    let mut i: usize = from;
    while i < xs.len()
        invariant
            from <= i <= xs.len(),
            acc == total(xs@.subrange(from as int, i as int)),
        decreases xs.len() - i,
    {
        proof {
            assert(xs@.subrange(from as int, i + 1).drop_last() =~= xs@.subrange(
                from as int,
                i as int,
            ));
        }
        acc = sum(acc, xs[i]);
        i = i + 1;
    }
    proof {
        assert(xs@.subrange(from as int, i as int) =~= xs@.skip(from as int));
    }
    acc
}

fn compare(b: Builtin, x: u64, y: u64) -> (r: bool)
    ensures
        r == holds(b, x, y),
{
    match b {
        Builtin::Equal => is_equal(x, y),
        Builtin::Greater => is_less(y, x),
        Builtin::Less => is_less(x, y),
        Builtin::AtLeast => is_at_most(y, x),
        Builtin::AtMost => is_at_most(x, y),
        _ => false,
    }
}

fn chain(b: Builtin, xs: &Vec<u64>) -> (r: bool)
    requires
        xs.len() > 0,
    ensures
        r == chain_holds(b, xs@),
{
    let mut i: usize = 0;
    while i + 1 < xs.len()
        invariant
            i < xs.len(),
            forall|j: int| 0 <= j < i ==> holds(b, #[trigger] xs[j], xs[j + 1]),
        decreases xs.len() - i,
    {
        if !compare(b, xs[i], xs[i + 1]) {
            return false;
        }
        i = i + 1;
    }
    true
}

} // verus!
