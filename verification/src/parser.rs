//! Building an expression from tokens.
//!
//! An expression is an atom, or a parenthesis, the expressions of a list and
//! the closing parenthesis. One call reads one expression from the front of
//! the tokens and says how many tokens it took; what follows is left alone.

use crate::config::Config;
use crate::value::{reason, views, RispErr, RispExp, Value};
use vstd::prelude::*;

verus! {

/// A word of the line, with the number that it denotes if it denotes one.
#[derive(Debug, PartialEq)]
pub struct Token {
    /// The word as it stands in the line.
    pub text: String,
    /// The bit pattern of the double that the word denotes, or `None` where
    /// the word is no numeral.
    pub number: Option<u64>,
}

/// The model of a token.
pub struct Lexeme {
    pub text: Seq<char>,
    pub number: Option<u64>,
}

impl View for Token {
    type V = Lexeme;

    open spec fn view(&self) -> Lexeme {
        Lexeme { text: self.text@, number: self.number }
    }
}

/// The models of a sequence of tokens.
pub open spec fn lexemes(tokens: Seq<Token>) -> Seq<Lexeme> {
    Seq::new(tokens.len(), |i: int| tokens[i]@)
}

/// Whether the token is the opening parenthesis.
pub open spec fn is_open(t: Lexeme) -> bool {
    t.text == "("@
}

/// Whether the token is the closing parenthesis.
pub open spec fn is_close(t: Lexeme) -> bool {
    t.text == ")"@
}

/// The reason given where there is no token to read.
pub open spec fn no_token() -> Seq<char> {
    "could not get token"@
}

/// The reason given for a closing parenthesis where an expression begins.
pub open spec fn stray_close() -> Seq<char> {
    "unexpected ')'"@
}

/// The reason given for a list that the tokens do not close.
pub open spec fn no_close() -> Seq<char> {
    "could not find closing ')'"@
}

/// The literal that a token other than a parenthesis stands for. With
/// `booleans`, the words `true` and `false` are truth values; any other word
/// is a number if it denotes one and a symbol if not.
pub open spec fn atom(t: Lexeme, booleans: bool) -> Value {
    if booleans && t.text == "true"@ {
        Value::Bool(true)
    } else if booleans && t.text == "false"@ {
        Value::Bool(false)
    } else {
        match t.number {
            Some(n) => Value::Number(n),
            None => Value::Symbol(t.text),
        }
    }
}

/// The expression at the front of the tokens and the number of tokens that
/// it takes, or the reason why there is none.
pub open spec fn parsed(ts: Seq<Lexeme>, booleans: bool) -> Result<(Value, nat), Seq<char>>
    decreases ts.len(), 0nat,
{
    if ts.len() == 0 {
        Err(no_token())
    } else if is_open(ts[0]) {
        match listed(ts.skip(1), booleans) {
            Ok((items, n)) => Ok((Value::List(items), n + 1)),
            Err(e) => Err(e),
        }
    } else if is_close(ts[0]) {
        Err(stray_close())
    } else {
        Ok((atom(ts[0], booleans), 1))
    }
}

/// The expressions up to the closing parenthesis, and the number of tokens
/// up to and with that parenthesis. An expression always takes between one
/// token and all of them (`lemma_parsed_length`), so the test on `n` never
/// fails; it is there to show that the recursion ends.
pub open spec fn listed(ts: Seq<Lexeme>, booleans: bool) -> Result<(Seq<Value>, nat), Seq<char>>
    decreases ts.len(), 1nat,
{
    if ts.len() == 0 {
        Err(no_close())
    } else if is_close(ts[0]) {
        Ok((Seq::empty(), 1))
    } else {
        match parsed(ts, booleans) {
            Err(e) => Err(e),
            Ok((first, n)) => if 0 < n <= ts.len() {
                match listed(ts.skip(n as int), booleans) {
                    Ok((others, m)) => Ok((seq![first] + others, n + m)),
                    Err(e) => Err(e),
                }
            } else {
                Err(no_close())
            },
        }
    }
}

/// An expression takes at least one token and no more than there are.
pub proof fn lemma_parsed_length(ts: Seq<Lexeme>, booleans: bool)
    ensures
        parsed(ts, booleans) matches Ok((_, n)) ==> 0 < n <= ts.len(),
        listed(ts, booleans) matches Ok((_, n)) ==> 0 < n <= ts.len(),
    decreases ts.len(),
{
    if ts.len() > 0 {
        lemma_parsed_length(ts.skip(1), booleans);
        if !is_close(ts[0]) {
            if let Ok((first, n)) = parsed(ts, booleans) {
                lemma_parsed_length(ts.skip(n as int), booleans);
            }
        }
    }
}

/// The model of what a parser returns: the expression and the number of
/// tokens taken.
pub open spec fn parse_outcome(
    tokens: Seq<Token>,
    r: Result<(RispExp, &[Token]), RispErr>,
) -> Result<(Value, nat), Seq<char>> {
    match r {
        Ok((exp, rest)) => Ok((exp@, (tokens.len() - rest@.len()) as nat)),
        Err(e) => Err(e@),
    }
}

/// Whether two strings hold the same text.
fn same_text(a: &String, b: &str) -> (r: bool)
    ensures
        r == (a@ == b@),
{
    let other = b.to_owned();
    *a == other
}

/// The literal that a token other than a parenthesis stands for.
pub fn parse_atom(token: &Token, config: &Config) -> (exp: RispExp)
    ensures
        exp@ == atom(token@, config.boolean_literals),
{
    if config.boolean_literals && same_text(&token.text, "true") {
        RispExp::Bool(true)
    } else if config.boolean_literals && same_text(&token.text, "false") {
        RispExp::Bool(false)
    } else {
        match token.number {
            Some(v) => RispExp::Number(v),
            None => RispExp::Symbol(token.text.clone()),
        }
    }
}

/// Reads one expression from the front of the tokens and returns it with the
/// tokens that follow it.
pub fn parse<'a>(tokens: &'a [Token], config: &Config) -> (r: Result<
    (RispExp, &'a [Token]),
    RispErr,
>)
    ensures
        parse_outcome(tokens@, r) == parsed(lexemes(tokens@), config.boolean_literals),
        r matches Ok((_, rest)) ==> rest@.len() < tokens@.len() && rest@ == tokens@.skip(
            tokens@.len() - rest@.len(),
        ),
    decreases tokens@.len(), 0nat,
{
    if tokens.len() == 0 {
        return Err(reason("could not get token"));
    }
    let token = &tokens[0];
    let rest = vstd::slice::slice_subrange(tokens, 1, tokens.len());
    proof {
        assert(lexemes(rest@) =~= lexemes(tokens@).skip(1));
        assert(rest@ =~= tokens@.skip(1));
    }
    if same_text(&token.text, "(") {
        match read_seq(rest, config) {
            Ok((list, after)) => {
                proof {
                    assert(after@ =~= tokens@.skip(tokens@.len() - after@.len()));
                }
                Ok((list, after))
            },
            Err(e) => Err(e),
        }
    } else if same_text(&token.text, ")") {
        Err(reason("unexpected ')'"))
    } else {
        Ok((parse_atom(token, config), rest))
    }
}

/// What `listed` gives for the tokens at `ts` once the expressions `before`
/// have been read from `taken` tokens in front of them.
pub open spec fn continued(
    before: Seq<Value>,
    taken: nat,
    ts: Seq<Lexeme>,
    booleans: bool,
) -> Result<(Seq<Value>, nat), Seq<char>> {
    match listed(ts, booleans) {
        Ok((others, m)) => Ok((before + others, taken + m)),
        Err(e) => Err(e),
    }
}

/// Reads the expressions that follow an opening parenthesis, up to the
/// parenthesis that closes it, and returns them as a list with the tokens
/// that follow.
pub fn read_seq<'a>(tokens: &'a [Token], config: &Config) -> (r: Result<
    (RispExp, &'a [Token]),
    RispErr,
>)
    ensures
        match listed(lexemes(tokens@), config.boolean_literals) {
            Ok((items, n)) => r matches Ok((exp, rest)) && exp@ == Value::List(items) && n
                == tokens@.len() - rest@.len(),
            Err(e) => r matches Err(got) && got@ == e,
        },
        r matches Ok((_, rest)) ==> rest@.len() < tokens@.len() && rest@ == tokens@.skip(
            tokens@.len() - rest@.len(),
        ),
    decreases tokens@.len(), 1nat,
{
    let ghost booleans = config.boolean_literals;
    let ghost all = lexemes(tokens@);
    let mut res: Vec<RispExp> = Vec::new();
    let mut xs = tokens;
    proof {
        assert(views(res@) =~= Seq::<Value>::empty());
        assert(tokens@.skip(0) =~= tokens@);
        match listed(all, booleans) {
            Ok((items, n)) => {
                assert(Seq::<Value>::empty() + items =~= items);
            },
            Err(e) => {},
        }
    }
    loop
        invariant
            booleans == config.boolean_literals,
            all == lexemes(tokens@),
            xs@.len() <= tokens@.len(),
            xs@ == tokens@.skip(tokens@.len() - xs@.len()),
            listed(all, booleans) == continued(
                views(res@),
                (tokens@.len() - xs@.len()) as nat,
                lexemes(xs@),
                booleans,
            ),
        decreases xs@.len(),
    {
        if xs.len() == 0 {
            return Err(reason("could not find closing ')'"));
        }
        let rest = vstd::slice::slice_subrange(xs, 1, xs.len());
        if same_text(&xs[0].text, ")") {
            proof {
                assert(views(res@) + Seq::<Value>::empty() =~= views(res@));
                assert(rest@ =~= tokens@.skip(tokens@.len() - rest@.len()));
            }
            return Ok((RispExp::List(res), rest));
        }
        let ghost here = lexemes(xs@);
        proof {
            lemma_parsed_length(here, booleans);
        }
        match parse(xs, config) {
            Err(e) => {
                return Err(e);
            },
            Ok((exp, new_xs)) => {
                let ghost before = views(res@);
                let ghost old_res = res@;
                let ghost n = xs@.len() - new_xs@.len();
                res.push(exp);
                proof {
                    assert(res@.drop_last() =~= old_res);
                    assert(views(res@) =~= before + seq![exp@]);
                    assert(lexemes(new_xs@) =~= here.skip(n));
                    assert(new_xs@ =~= tokens@.skip(tokens@.len() - new_xs@.len()));
                    match listed(here.skip(n), booleans) {
                        Ok((others, m)) => {
                            assert(before + (seq![exp@] + others) =~= (before + seq![exp@])
                                + others);
                        },
                        Err(e) => {},
                    }
                }
                xs = new_xs;
            },
        }
    }
}

} // verus!
