//! Evaluating an expression against an environment.
//!
//! Truth values and numbers stand for themselves, a symbol stands for what
//! the environment binds it to, and a list applies the builtin that its
//! first element evaluates to, to the values of the other elements.

use crate::binary64::ZERO;
use crate::builtins::{applied, lemma_applied_to_nothing};
use crate::config::Config;
use crate::env::RispEnv;
use crate::parser::{lexemes, parse, parsed, Lexeme, Token};
use crate::value::{lemma_views, outcome, reason, views, Builtin, RispErr, RispExp, Value};
use vstd::prelude::*;
use vstd::string::StringExecFns;

verus! {

/// The reason given for a symbol that the environment does not bind.
pub open spec fn unbound(name: Seq<char>) -> Seq<char> {
    "unexpected symbol k='"@ + name + "'"@
}

/// The reason given for a builtin that stands where an expression should.
pub open spec fn bare_function() -> Seq<char> {
    "unexpected form"@
}

/// The reason given for a list without elements.
pub open spec fn empty_list() -> Seq<char> {
    "expected a non-empty list"@
}

/// The reason given for a list whose first element is no builtin.
pub open spec fn not_a_function() -> Seq<char> {
    "first form must be a function"@
}

/// The value of an expression in an environment, or the reason why it has
/// none.
pub open spec fn value_of(exp: Value, env: Map<Seq<char>, Value>) -> Result<Value, Seq<char>>
    decreases exp,
{
    match exp {
        Value::Bool(_) => Ok(exp),
        Value::Number(_) => Ok(exp),
        Value::Symbol(name) => if env.contains_key(name) {
            Ok(env[name])
        } else {
            Err(unbound(name))
        },
        Value::Func(_) => Err(bare_function()),
        Value::List(items) => if items.len() == 0 {
            Err(empty_list())
        } else {
            match value_of(items[0], env) {
                Err(e) => Err(e),
                Ok(Value::Func(f)) => match values_of(items, 1, env) {
                    Err(e) => Err(e),
                    Ok(args) => applied(f, args),
                },
                Ok(_) => Err(not_a_function()),
            }
        },
    }
}

/// The values of the expressions from position `from` on, in order, or the
/// reason given by the first of them that has no value.
pub open spec fn values_of(items: Seq<Value>, from: int, env: Map<Seq<char>, Value>) -> Result<
    Seq<Value>,
    Seq<char>,
>
    decreases items, items.len() - from,
{
    if from < 0 || from >= items.len() {
        Ok(Seq::empty())
    } else {
        match value_of(items[from], env) {
            Err(e) => Err(e),
            Ok(v) => match values_of(items, from + 1, env) {
                Err(e) => Err(e),
                Ok(vs) => Ok(seq![v] + vs),
            },
        }
    }
}

/// A symbol that the environment does not bind has no value, and the
/// reason names the symbol.
pub proof fn lemma_unbound_symbol_is_named(name: Seq<char>, env: Map<Seq<char>, Value>)
    requires
        !env.contains_key(name),
    ensures
        value_of(Value::Symbol(name), env) == Err::<Value, Seq<char>>(unbound(name)),
        unbound(name).subrange(21, 21 + name.len() as int) == name,
{
    reveal_strlit("unexpected symbol k='");
    assert(unbound(name).subrange(21, 21 + name.len() as int) =~= name);
}

/// The empty list has no value, whatever the environment; a list of the
/// symbol `+` alone has the value zero wherever `+` is bound to addition.
pub proof fn lemma_empty_call_and_empty_sum(env: Map<Seq<char>, Value>)
    ensures
        value_of(Value::List(Seq::empty()), env) == Err::<Value, Seq<char>>(empty_list()),
        env.contains_key("+"@) && env["+"@] == Value::Func(Builtin::Plus)
            ==> value_of(Value::List(seq![Value::Symbol("+"@)]), env) == Ok::<Value, Seq<char>>(
            Value::Number(ZERO),
        ),
{
    reveal_with_fuel(value_of, 2);
    let call = seq![Value::Symbol("+"@)];
    assert(call[0] == Value::Symbol("+"@));
    assert(call.len() == 1);
    lemma_applied_to_nothing(Builtin::Plus);
    assert(values_of(call, 1, env) == Ok::<Seq<Value>, Seq<char>>(Seq::empty()));
}

/// What one evaluation does: it gives the value that the expression has in
/// the environment as it stood, and leaves the environment as it stood.
pub open spec fn evaluates(
    exp: Value,
    before: Map<Seq<char>, Value>,
    result: Result<Value, Seq<char>>,
    after: Map<Seq<char>, Value>,
) -> bool {
    result == value_of(exp, before) && after == before
}

/// Evaluating the same expression twice, the second time in the
/// environment that the first evaluation left, gives the same result both
/// times, and the environment is in the end what it was at the start.
pub proof fn lemma_eval_is_repeatable(
    exp: Value,
    start: Map<Seq<char>, Value>,
    first: Result<Value, Seq<char>>,
    between: Map<Seq<char>, Value>,
    second: Result<Value, Seq<char>>,
    end: Map<Seq<char>, Value>,
)
    requires
        evaluates(exp, start, first, between),
        evaluates(exp, between, second, end),
    ensures
        first == second,
        end == start,
{
}

/// Evaluates an expression. The environment is left as it was.
pub fn eval(exp: &RispExp, env: &mut RispEnv) -> (r: Result<RispExp, RispErr>)
    ensures
        evaluates(exp@, old(env)@, outcome(r), final(env)@),
    decreases exp,
{
    match exp {
        RispExp::Bool(_a) => Ok(exp.clone()),
        RispExp::Symbol(k) => match env.get(k.as_str()) {
            Some(v) => Ok(v.clone()),
            None => {
                let mut msg = "unexpected symbol k='".to_owned();
                msg.append(k.as_str());
                msg.append("'");
                Err(RispErr::Reason(msg))
            },
        },
        RispExp::Number(_) => Ok(exp.clone()),
        RispExp::List(list) => {
            proof {
                lemma_views(list@);
            }
            if list.len() == 0 {
                return Err(reason("expected a non-empty list"));
            }
            let first_eval = match eval(&list[0], env) {
                Ok(v) => v,
                Err(e) => {
                    return Err(e);
                },
            };
            match first_eval {
                RispExp::Func(f) => {
                    let ghost items = views(list@);
                    let ghost bindings = env@;
                    let mut args_eval: Vec<RispExp> = Vec::new();
                    let mut i: usize = 1;
                    proof {
                        assert(views(args_eval@) =~= Seq::<Value>::empty());
                        lemma_values_from_end(items, bindings);
                    }
                    while i < list.len()
                        invariant
                            exp is List,
                            exp->List_0 == *list,
                            1 <= i <= list.len(),
                            items == views(list@),
                            items.len() == list.len(),
                            forall|j: int| 0 <= j < list.len() ==> #[trigger] items[j] == list[j]@,
                            env@ == bindings,
                            old(env)@ == bindings,
                            exp@ == Value::List(items),
                            value_of(items[0], bindings) == Ok::<Value, Seq<char>>(Value::Func(f)),
                            values_of(items, 1, bindings) == prefixed(
                                views(args_eval@),
                                values_of(items, i as int, bindings),
                            ),
                        decreases list.len() - i,
                    {
                        assert(decreases_to!(exp => list[i as int]));
                        match eval(&list[i], env) {
                            Ok(v) => {
                                let ghost before = args_eval@;
                                args_eval.push(v);
                                proof {
                                    assert(args_eval@.drop_last() =~= before);
                                    match values_of(items, i + 1, bindings) {
                                        Ok(vs) => {
                                            assert(views(before) + (seq![v@] + vs) =~= views(
                                                args_eval@,
                                            ) + vs);
                                        },
                                        Err(e) => {},
                                    }
                                }
                            },
                            Err(e) => {
                                return Err(e);
                            },
                        }
                        i = i + 1;
                    }
                    proof {
                        assert(views(args_eval@) + Seq::<Value>::empty() =~= views(args_eval@));
                    }
                    f.apply(args_eval.as_slice())
                },
                _ => Err(reason("first form must be a function")),
            }
        },
        RispExp::Func(_) => Err(reason("unexpected form")),
    }
}

/// What `values_of` gives once the values `before` have been found and
/// `rest` is what it gives for the remaining expressions.
pub open spec fn prefixed(before: Seq<Value>, rest: Result<Seq<Value>, Seq<char>>) -> Result<
    Seq<Value>,
    Seq<char>,
> {
    match rest {
        Ok(vs) => Ok(before + vs),
        Err(e) => Err(e),
    }
}

proof fn lemma_values_from_end(items: Seq<Value>, env: Map<Seq<char>, Value>)
    ensures
        values_of(items, 1, env) == prefixed(Seq::empty(), values_of(items, 1, env)),
{
    match values_of(items, 1, env) {
        Ok(vs) => {
            assert(Seq::<Value>::empty() + vs =~= vs);
        },
        Err(e) => {},
    }
}

/// What parsing and then evaluating gives: the value of the first
/// expression among the tokens. The tokens that follow it are not looked at.
pub open spec fn parsed_value(
    ts: Seq<Lexeme>,
    booleans: bool,
    env: Map<Seq<char>, Value>,
) -> Result<Value, Seq<char>> {
    match parsed(ts, booleans) {
        Ok((exp, _)) => value_of(exp, env),
        Err(e) => Err(e),
    }
}

/// Parses the first expression among the tokens and evaluates it.
pub fn parse_and_eval(tokens: &[Token], config: &Config, env: &mut RispEnv) -> (r: Result<
    RispExp,
    RispErr,
>)
    ensures
        outcome(r) == parsed_value(lexemes(tokens@), config.boolean_literals, old(env)@),
        final(env)@ == old(env)@,
{
    let (parsed_exp, _) = match parse(tokens, config) {
        Ok(p) => p,
        Err(e) => {
            return Err(e);
        },
    };
    eval(&parsed_exp, env)
}

} // verus!
