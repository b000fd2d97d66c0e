use risp::builtins::{parse_list_of_floats, parse_single_float};
use risp::config::Config;
use risp::env::{default_env, RispEnv};
use risp::eval::{eval, parse_and_eval};
use risp::parser::Token;
use risp::render::{render, Piece};
use risp::tokenizer::tokenize;
use risp::value::{Builtin, RispErr, RispExp};

fn lex(line: String) -> Vec<Token> {
    tokenize(line)
        .into_iter()
        .map(|text| {
            let number = text.parse::<f64>().ok().map(|x| x.to_bits());
            Token { text, number }
        })
        .collect()
}

fn show(exp: RispExp) -> String {
    render(&exp)
        .iter()
        .map(|piece| match piece {
            Piece::Number(bits) => f64::from_bits(*bits).to_string(),
            other => other.text().unwrap(),
        })
        .collect()
}

fn run(line: &str, env: &mut RispEnv) -> Result<RispExp, RispErr> {
    parse_and_eval(&lex(line.to_string()), &Config::full(), env)
}

fn number(x: f64) -> RispExp {
    RispExp::Number(x.to_bits())
}

fn reason(text: &str) -> RispErr {
    RispErr::Reason(text.to_string())
}

#[test]
fn eval_check() {
    let env = &mut default_env();
    assert_eq!(
        format!(
            "{}",
            show(parse_and_eval(&lex("(+ 10 5 (- 10 3 3))".to_string()), &Config::full(), env).unwrap())
        ),
        "19"
    );
    assert_eq!(
        format!(
            "{}",
            show(parse_and_eval(&lex("(> 6 4 3 1)".to_string()), &Config::full(), env).unwrap())
        ),
        "true"
    );
}

#[test]
fn nested_sum_and_difference_give_nineteen() {
    let env = &mut default_env();
    assert_eq!(run("(+ 10 5 (- 10 3 3))", env), Ok(number(19.0)));
}

#[test]
fn chained_comparison_holds_only_if_every_pair_does() {
    let env = &mut default_env();
    assert_eq!(run("(> 6 4 3 1)", env), Ok(RispExp::Bool(true)));
    assert_eq!(run("(> 6 4 3 4)", env), Ok(RispExp::Bool(false)));
    assert_eq!(run("(> 6 4 4 1)", env), Ok(RispExp::Bool(false)));
    assert_eq!(run("(>= 6 4 4 1)", env), Ok(RispExp::Bool(true)));
    assert_eq!(run("(< 1 2 3)", env), Ok(RispExp::Bool(true)));
    assert_eq!(run("(< 1 3 2)", env), Ok(RispExp::Bool(false)));
    assert_eq!(run("(<= 1 1 2)", env), Ok(RispExp::Bool(true)));
    assert_eq!(run("(<= 2 1)", env), Ok(RispExp::Bool(false)));
    assert_eq!(run("(= 2 2 2)", env), Ok(RispExp::Bool(true)));
    assert_eq!(run("(= 2 2 3)", env), Ok(RispExp::Bool(false)));
}

#[test]
fn comparison_of_one_number_holds() {
    let env = &mut default_env();
    for op in ["=", ">", "<", ">=", "<="] {
        assert_eq!(run(&format!("({} 7)", op), env), Ok(RispExp::Bool(true)));
        assert_eq!(run(&format!("({} nan)", op), env), Ok(RispExp::Bool(true)));
    }
}

#[test]
fn comparison_without_numbers_fails() {
    let env = &mut default_env();
    for op in ["=", ">", "<", ">=", "<="] {
        assert_eq!(
            run(&format!("({})", op), env),
            Err(reason("expected at least one number"))
        );
    }
}

#[test]
fn comparison_follows_the_numbers_not_the_patterns() {
    let env = &mut default_env();
    assert_eq!(run("(= 0 -0)", env), Ok(RispExp::Bool(true)));
    assert_eq!(run("(< -0 0)", env), Ok(RispExp::Bool(false)));
    assert_eq!(run("(= nan nan)", env), Ok(RispExp::Bool(false)));
    assert_eq!(run("(<= nan 1)", env), Ok(RispExp::Bool(false)));
    assert_eq!(run("(>= 1 nan)", env), Ok(RispExp::Bool(false)));
    assert_eq!(run("(< -inf -1 -0.5 0 1e-320 inf)", env), Ok(RispExp::Bool(true)));
    assert_eq!(run("(> 1 -1)", env), Ok(RispExp::Bool(true)));
}

#[test]
fn unbound_symbol_fails_with_its_name() {
    let env = &mut default_env();
    assert_eq!(run("foo", env), Err(reason("unexpected symbol k='foo'")));
    assert_eq!(run("(+ 1 bar)", env), Err(reason("unexpected symbol k='bar'")));
    assert_eq!(run("(baz 1)", env), Err(reason("unexpected symbol k='baz'")));
}

#[test]
fn empty_list_fails_and_empty_sum_is_zero() {
    let env = &mut default_env();
    assert_eq!(run("()", env), Err(reason("expected a non-empty list")));
    assert_eq!(run("(+)", env), Ok(number(0.0)));
    assert_eq!(show(run("(+)", env).unwrap()), "0");
}

#[test]
fn difference_needs_a_number() {
    let env = &mut default_env();
    assert_eq!(run("(- )", env), Err(reason("expected at least one number")));
    assert_eq!(run("(- 5)", env), Ok(number(5.0)));
    assert_eq!(run("(- 10 3 3)", env), Ok(number(4.0)));
    assert_eq!(run("(- 1 2)", env), Ok(number(-1.0)));
}

#[test]
fn evaluating_twice_gives_the_same() {
    let env = &mut default_env();
    for line in ["(+ 10 5 (- 10 3 3))", "(> 6 4 3 1)", "foo", "()", "(+ 0.1 0.2)", "(1 2)"] {
        let tokens = lex(line.to_string());
        let first = parse_and_eval(&tokens, &Config::full(), env);
        let second = parse_and_eval(&tokens, &Config::full(), env);
        assert_eq!(first, second);
    }
    assert_eq!(run("(+ 1 2)", env), Ok(number(3.0)));
}

#[test]
fn a_failed_line_leaves_the_environment_usable() {
    let env = &mut default_env();
    assert!(run("(+ 1 foo)", env).is_err());
    assert!(run("(", env).is_err());
    assert_eq!(run("(+ 1 2)", env), Ok(number(3.0)));
}

#[test]
fn literals_evaluate_to_themselves() {
    let env = &mut default_env();
    assert_eq!(run("42", env), Ok(number(42.0)));
    assert_eq!(run("true", env), Ok(RispExp::Bool(true)));
    assert_eq!(run("false", env), Ok(RispExp::Bool(false)));
    assert_eq!(eval(&number(-1.5), env), Ok(number(-1.5)));
}

#[test]
fn operator_symbol_evaluates_to_its_builtin() {
    let env = &mut default_env();
    assert_eq!(run("+", env), Ok(RispExp::Func(Builtin::Plus)));
    assert_eq!(run(">=", env), Ok(RispExp::Func(Builtin::AtLeast)));
    assert_eq!(show(run("-", env).unwrap()), "Function {}");
}

#[test]
fn bare_builtin_is_no_form() {
    let env = &mut default_env();
    assert_eq!(
        eval(&RispExp::Func(Builtin::Plus), env),
        Err(reason("unexpected form"))
    );
    let call = RispExp::List(vec![RispExp::Func(Builtin::Plus), number(1.0)]);
    assert_eq!(eval(&call, env), Err(reason("unexpected form")));
}

#[test]
fn first_form_must_be_a_function() {
    let env = &mut default_env();
    assert_eq!(run("(1 2 3)", env), Err(reason("first form must be a function")));
    assert_eq!(run("(true)", env), Err(reason("first form must be a function")));
    assert_eq!(run("((+ 1 2) 3)", env), Err(reason("first form must be a function")));
    assert_eq!(run("(1 foo)", env), Err(reason("first form must be a function")));
}

#[test]
fn arguments_must_be_numbers() {
    let env = &mut default_env();
    assert_eq!(run("(+ 1 true)", env), Err(reason("expected a number")));
    assert_eq!(run("(- +)", env), Err(reason("expected a number")));
    assert_eq!(run("(> 1 (> 2 1))", env), Err(reason("expected a number")));
    assert_eq!(run("(= false)", env), Err(reason("expected a number")));
}

#[test]
fn the_first_failure_is_reported() {
    let env = &mut default_env();
    assert_eq!(run("(+ a b)", env), Err(reason("unexpected symbol k='a'")));
    assert_eq!(run("(+ (1) b)", env), Err(reason("first form must be a function")));
    assert_eq!(run("(+ true b)", env), Err(reason("unexpected symbol k='b'")));
    assert_eq!(run("(foo ())", env), Err(reason("unexpected symbol k='foo'")));
}

#[test]
fn tokens_after_the_first_expression_are_ignored() {
    let env = &mut default_env();
    assert_eq!(run("(+ 1 2) garbage", env), Ok(number(3.0)));
    assert_eq!(run("7 )", env), Ok(number(7.0)));
}

#[test]
fn malformed_lines_fail_before_evaluation() {
    let env = &mut default_env();
    assert_eq!(run("", env), Err(reason("could not get token")));
    assert_eq!(run(")", env), Err(reason("unexpected ')'")));
    assert_eq!(run("(+ 1 2", env), Err(reason("could not find closing ')'")));
}

#[test]
fn sums_are_rounded_as_doubles_are() {
    let env = &mut default_env();
    assert_eq!(run("(+ 0.1 0.2)", env), Ok(number(0.1 + 0.2)));
    assert_eq!(show(run("(+ 0.1 0.2)", env).unwrap()), "0.30000000000000004");
    assert_eq!(run("(+ 1e308 1e308)", env), Ok(number(f64::INFINITY)));
    assert_eq!(run("(- 1 inf)", env), Ok(number(f64::NEG_INFINITY)));
    assert_eq!(run("(+ 9007199254740992 1)", env), Ok(number(9007199254740992.0)));
    assert_eq!(run("(+ 1 2 3 4.5)", env), Ok(number(10.5)));
    assert_eq!(show(run("(+ inf -inf)", env).unwrap()), "NaN");
}

#[test]
fn sums_start_from_zero_and_go_left_to_right() {
    let env = &mut default_env();
    assert_eq!(run("(+ -0)", env), Ok(number(0.0)));
    assert_eq!(run("(- -0)", env), Ok(number(-0.0)));
    assert_eq!(run("(+ 1e16 1 1)", env), Ok(number((0.0 + 1e16 + 1.0) + 1.0)));
    assert_eq!(run("(- 1e16 1 1)", env), Ok(number(1e16 - ((0.0 + 1.0) + 1.0))));
}

#[test]
fn arithmetic_configuration_has_no_truth_values_and_no_comparisons() {
    let config = Config::arithmetic();
    let env = &mut config.environment();
    assert_eq!(
        parse_and_eval(&lex("(+ 1 (- 5 2))".to_string()), &config, env),
        Ok(number(4.0))
    );
    assert_eq!(
        parse_and_eval(&lex("true".to_string()), &config, env),
        Err(reason("unexpected symbol k='true'"))
    );
    assert_eq!(
        parse_and_eval(&lex("(> 2 1)".to_string()), &config, env),
        Err(reason("unexpected symbol k='>'"))
    );
}

#[test]
fn full_configuration_gives_the_default_environment() {
    let config = Config::full();
    let env = &mut config.environment();
    for name in ["+", "-", "=", ">", "<", ">=", "<="] {
        assert!(env.get(name).is_some());
        assert!(default_env().get(name).is_some());
    }
    assert!(env.get("*").is_none());
    assert_eq!(env.get("<="), Some(&RispExp::Func(Builtin::AtMost)));
    assert_eq!(env.get("="), Some(&RispExp::Func(Builtin::Equal)));
}

#[test]
fn environment_binds_and_rebinds() {
    let mut env = RispEnv::new();
    assert!(env.get("x").is_none());
    env.insert("x".to_string(), number(1.0));
    env.insert("y".to_string(), RispExp::Bool(true));
    assert_eq!(env.get("x"), Some(&number(1.0)));
    env.insert("x".to_string(), number(2.0));
    assert_eq!(env.get("x"), Some(&number(2.0)));
    assert_eq!(env.get("y"), Some(&RispExp::Bool(true)));
    assert_eq!(eval(&RispExp::Symbol("x".to_string()), &mut env), Ok(number(2.0)));
    let call = RispExp::List(vec![RispExp::Symbol("x".to_string())]);
    assert_eq!(eval(&call, &mut env), Err(reason("first form must be a function")));
}

#[test]
fn builtins_apply_to_evaluated_arguments() {
    let args = vec![number(10.0), number(3.0), number(3.0)];
    assert_eq!(Builtin::Plus.apply(&args), Ok(number(16.0)));
    assert_eq!(Builtin::Minus.apply(&args), Ok(number(4.0)));
    assert_eq!(Builtin::Greater.apply(&args), Ok(RispExp::Bool(false)));
    assert_eq!(Builtin::AtLeast.apply(&args), Ok(RispExp::Bool(true)));
    assert_eq!(Builtin::Plus.apply(&[]), Ok(number(0.0)));
    assert_eq!(
        Builtin::Less.apply(&[number(1.0), RispExp::Symbol("a".to_string())]),
        Err(reason("expected a number"))
    );
    assert_eq!(Builtin::all().len(), 7);
    assert_eq!(Builtin::AtMost.name(), "<=");
}

#[test]
fn numbers_are_taken_from_arguments() {
    assert_eq!(parse_single_float(&number(2.5)), Ok(2.5f64.to_bits()));
    assert_eq!(parse_single_float(&RispExp::Bool(true)), Err(reason("expected a number")));
    assert_eq!(
        parse_list_of_floats(&[number(1.0), number(2.0)]),
        Ok(vec![1.0f64.to_bits(), 2.0f64.to_bits()])
    );
    assert_eq!(parse_list_of_floats(&[]), Ok(vec![]));
    assert_eq!(
        parse_list_of_floats(&[number(1.0), RispExp::List(vec![])]),
        Err(reason("expected a number"))
    );
}

#[test]
fn builtins_are_found_by_their_symbols() {
    for op in Builtin::all() {
        assert_eq!(Builtin::named(&op.name()), Some(op));
    }
    assert_eq!(Builtin::named(">="), Some(Builtin::AtLeast));
    assert_eq!(Builtin::named("=="), None);
    assert_eq!(Builtin::named(""), None);
    assert_eq!(Builtin::named("plus"), None);
}

#[test]
fn a_copied_environment_binds_the_same() {
    let mut env = default_env();
    env.insert("x".to_string(), number(1.0));
    let mut copy = env.clone();
    env.insert("x".to_string(), number(2.0));
    assert_eq!(copy.get("x"), Some(&number(1.0)));
    assert_eq!(env.get("x"), Some(&number(2.0)));
    assert_eq!(run("(+ 1 2)", &mut copy), Ok(number(3.0)));
}

#[test]
fn a_configuration_may_list_a_builtin_twice() {
    let config = Config {
        boolean_literals: true,
        builtins: vec![Builtin::Less, Builtin::Plus, Builtin::Less],
    };
    let env = &mut config.environment();
    assert_eq!(
        parse_and_eval(&lex("(< 1 (+ 1 1))".to_string()), &config, env),
        Ok(RispExp::Bool(true))
    );
    assert_eq!(
        parse_and_eval(&lex("(- 1)".to_string()), &config, env),
        Err(reason("unexpected symbol k='-'"))
    );
}
