use risp::config::Config;
use risp::parser::{parse, parse_atom, read_seq, Token};
use risp::tokenizer::tokenize;
use risp::value::{RispErr, RispExp};

fn read(line: &str) -> Vec<Token> {
    tokenize(line.to_string())
        .into_iter()
        .map(|text| {
            let number = text.parse::<f64>().ok().map(|x| x.to_bits());
            Token { text, number }
        })
        .collect()
}

fn num(x: f64) -> RispExp {
    RispExp::Number(x.to_bits())
}

fn sym(s: &str) -> RispExp {
    RispExp::Symbol(s.to_string())
}

fn failure(text: &str) -> RispErr {
    RispErr::Reason(text.to_string())
}

#[test]
fn parse_reads_an_atom() {
    let config = Config::full();
    let tokens = read("42 rest");
    let (exp, rest) = parse(&tokens, &config).unwrap();
    assert_eq!(exp, num(42.0));
    assert_eq!(rest.len(), 1);
    assert_eq!(rest[0].text, "rest");
}

#[test]
fn parse_reads_a_nested_list() {
    let config = Config::full();
    let tokens = read("(+ 10 5 (- 10 3 3))");
    let (exp, rest) = parse(&tokens, &config).unwrap();
    assert_eq!(
        exp,
        RispExp::List(vec![
            sym("+"),
            num(10.0),
            num(5.0),
            RispExp::List(vec![sym("-"), num(10.0), num(3.0), num(3.0)]),
        ])
    );
    assert!(rest.is_empty());
}

#[test]
fn parse_reads_an_empty_list() {
    let config = Config::full();
    let tokens = read("()");
    let (exp, rest) = parse(&tokens, &config).unwrap();
    assert_eq!(exp, RispExp::List(vec![]));
    assert!(rest.is_empty());
}

#[test]
fn parse_leaves_what_follows_the_first_expression() {
    let config = Config::full();
    let tokens = read("(+ 1 2) garbage ) (");
    let (exp, rest) = parse(&tokens, &config).unwrap();
    assert_eq!(exp, RispExp::List(vec![sym("+"), num(1.0), num(2.0)]));
    let left: Vec<&str> = rest.iter().map(|t| t.text.as_str()).collect();
    assert_eq!(left, vec!["garbage", ")", "("]);
}

#[test]
fn parse_fails_without_a_token() {
    let config = Config::full();
    let tokens = read("");
    assert_eq!(parse(&tokens, &config).unwrap_err(), failure("could not get token"));
}

#[test]
fn parse_fails_on_a_closing_parenthesis_at_the_front() {
    let config = Config::full();
    let tokens = read(") 1 2");
    assert_eq!(parse(&tokens, &config).unwrap_err(), failure("unexpected ')'"));
}

#[test]
fn parse_fails_on_a_list_left_open() {
    let config = Config::full();
    assert_eq!(
        parse(&read("(+ 1 2"), &config).unwrap_err(),
        failure("could not find closing ')'")
    );
    assert_eq!(
        parse(&read("(+ (1 2)"), &config).unwrap_err(),
        failure("could not find closing ')'")
    );
    assert_eq!(parse(&read("("), &config).unwrap_err(), failure("could not find closing ')'"));
}

#[test]
fn read_seq_reads_up_to_the_closing_parenthesis() {
    let config = Config::full();
    let tokens = read("a (b) 3 ) after");
    let (exp, rest) = read_seq(&tokens, &config).unwrap();
    assert_eq!(
        exp,
        RispExp::List(vec![sym("a"), RispExp::List(vec![sym("b")]), num(3.0)])
    );
    assert_eq!(rest.len(), 1);
    assert_eq!(rest[0].text, "after");
}

#[test]
fn read_seq_fails_without_a_closing_parenthesis() {
    let config = Config::full();
    assert_eq!(
        read_seq(&read("a b"), &config).unwrap_err(),
        failure("could not find closing ')'")
    );
    assert_eq!(read_seq(&read(""), &config).unwrap_err(), failure("could not find closing ')'"));
}

#[test]
fn parse_atom_knows_truth_values_numbers_and_symbols() {
    let config = Config::full();
    let tokens = read("true false 10 -2.5 1e3 inf foo + 1x");
    let atoms: Vec<RispExp> = tokens.iter().map(|t| parse_atom(t, &config)).collect();
    assert_eq!(
        atoms,
        vec![
            RispExp::Bool(true),
            RispExp::Bool(false),
            num(10.0),
            num(-2.5),
            num(1000.0),
            num(f64::INFINITY),
            sym("foo"),
            sym("+"),
            sym("1x"),
        ]
    );
}

#[test]
fn parse_atom_without_truth_values_reads_them_as_symbols() {
    let config = Config::arithmetic();
    let tokens = read("true false 7");
    let atoms: Vec<RispExp> = tokens.iter().map(|t| parse_atom(t, &config)).collect();
    assert_eq!(atoms, vec![sym("true"), sym("false"), num(7.0)]);
}

#[test]
fn parse_atom_goes_by_the_reading_that_the_token_carries() {
    let config = Config::full();
    let numeral = Token { text: "ten".to_string(), number: Some(10.0f64.to_bits()) };
    let word = Token { text: "10".to_string(), number: None };
    let truth = Token { text: "true".to_string(), number: Some(1.0f64.to_bits()) };
    assert_eq!(parse_atom(&numeral, &config), num(10.0));
    assert_eq!(parse_atom(&word, &config), sym("10"));
    assert_eq!(parse_atom(&truth, &config), RispExp::Bool(true));
}
