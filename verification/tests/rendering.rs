use risp::config::Config;
use risp::parser::{parse, Token};
use risp::render::{render, Piece};
use risp::tokenizer::tokenize;
use risp::value::{Builtin, RispExp};

fn tokens_of(line: &str) -> Vec<Token> {
    tokenize(line.to_string())
        .into_iter()
        .map(|text| {
            let number = text.parse::<f64>().ok().map(|x| x.to_bits());
            Token { text, number }
        })
        .collect()
}

fn written(exp: &RispExp) -> String {
    render(exp)
        .iter()
        .map(|piece| match piece {
            Piece::Number(bits) => f64::from_bits(*bits).to_string(),
            other => other.text().unwrap(),
        })
        .collect()
}

fn word(s: &str) -> Piece {
    Piece::Text(s.to_string())
}

#[test]
fn render_atoms() {
    assert_eq!(render(&RispExp::Bool(true)), vec![word("true")]);
    assert_eq!(render(&RispExp::Bool(false)), vec![word("false")]);
    assert_eq!(render(&RispExp::Symbol("foo".to_string())), vec![word("foo")]);
    assert_eq!(
        render(&RispExp::Number(19.0f64.to_bits())),
        vec![Piece::Number(19.0f64.to_bits())]
    );
    assert_eq!(render(&RispExp::Func(Builtin::Plus)), vec![word("Function {}")]);
}

#[test]
fn render_lists_with_separators() {
    let list = RispExp::List(vec![
        RispExp::Number(1.0f64.to_bits()),
        RispExp::Symbol("a".to_string()),
        RispExp::List(vec![]),
        RispExp::List(vec![RispExp::Bool(true)]),
    ]);
    assert_eq!(
        render(&list),
        vec![
            Piece::Open,
            Piece::Number(1.0f64.to_bits()),
            Piece::Separator,
            word("a"),
            Piece::Separator,
            Piece::Open,
            Piece::Close,
            Piece::Separator,
            Piece::Open,
            word("true"),
            Piece::Close,
            Piece::Close,
        ]
    );
    assert_eq!(written(&list), "(1,a,(),(true))");
    assert_eq!(written(&RispExp::List(vec![])), "()");
}

#[test]
fn pieces_have_their_text() {
    assert_eq!(Piece::Open.text(), Some("(".to_string()));
    assert_eq!(Piece::Close.text(), Some(")".to_string()));
    assert_eq!(Piece::Separator.text(), Some(",".to_string()));
    assert_eq!(word("x").text(), Some("x".to_string()));
    assert_eq!(Piece::Number(0).text(), None);
}

#[test]
fn numbers_are_written_in_decimal() {
    assert_eq!(written(&RispExp::Number(19.0f64.to_bits())), "19");
    assert_eq!(written(&RispExp::Number(0.5f64.to_bits())), "0.5");
    assert_eq!(written(&RispExp::Number((-0.0f64).to_bits())), "-0");
    assert_eq!(written(&RispExp::Number(f64::NAN.to_bits())), "NaN");
}

#[test]
fn parsing_then_rendering_keeps_the_nesting() {
    let config = Config::full();
    let cases = [
        ("(+ 10 5 (- 10 3 3))", "(+,10,5,(-,10,3,3))"),
        ("(a (b c) d)", "(a,(b,c),d)"),
        ("((()))", "((()))"),
        ("(() () (x))", "((),(),(x))"),
        ("atom", "atom"),
        ("( true   false )", "(true,false)"),
        ("(1.50 2e0)", "(1.5,2)"),
    ];
    for (line, expected) in cases {
        let tokens = tokens_of(line);
        let (exp, rest) = parse(&tokens, &config).unwrap();
        assert!(rest.is_empty());
        assert_eq!(written(&exp), expected);
    }
}

#[test]
fn rendering_without_separators_gives_the_tokens_back() {
    let config = Config::full();
    for line in ["(+ 10 5 (- 10 3 3))", "(a (b c) d) e f", "((x) ((y)) z)", "()"] {
        let tokens = tokens_of(line);
        let (exp, rest) = parse(&tokens, &config).unwrap();
        let taken = tokens.len() - rest.len();
        let pieces: Vec<Piece> = render(&exp)
            .into_iter()
            .filter(|p| *p != Piece::Separator)
            .collect();
        assert_eq!(pieces.len(), taken);
        for (piece, token) in pieces.iter().zip(tokens.iter()) {
            match piece {
                Piece::Number(bits) => assert_eq!(Some(*bits), token.number),
                other => assert_eq!(other.text().unwrap(), token.text),
            }
        }
    }
}

#[test]
fn copies_are_equal_to_what_they_copy() {
    let config = Config::full();
    let tokens = tokens_of("(+ 10 (a true) ())");
    let (exp, _) = parse(&tokens, &config).unwrap();
    let copy = exp.clone();
    assert_eq!(copy, exp);
    assert_eq!(render(&copy), render(&exp));
}
