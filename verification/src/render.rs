//! Writing a value out.
//!
//! A value is written as a sequence of pieces. Every piece but a number has
//! a text of its own; the decimal text of a number is for the caller to
//! supply.

use crate::parser::{atom, is_close, is_open, lemma_parsed_length, listed, parsed, Lexeme};
use crate::value::{lemma_views, views, RispExp, Value};
use vstd::prelude::*;

verus! {

/// One piece of a written value.
#[derive(Debug, PartialEq)]
pub enum Piece {
    /// The parenthesis that opens a list.
    Open,
    /// The parenthesis that closes a list.
    Close,
    /// The comma between two elements of a list.
    Separator,
    /// A word.
    Text(String),
    /// A number, as its bit pattern.
    Number(u64),
}

/// The model of a piece.
pub enum Mark {
    Open,
    Close,
    Separator,
    Text(Seq<char>),
    Number(u64),
}

impl View for Piece {
    type V = Mark;

    open spec fn view(&self) -> Mark {
        match self {
            Piece::Open => Mark::Open,
            Piece::Close => Mark::Close,
            Piece::Separator => Mark::Separator,
            Piece::Text(s) => Mark::Text(s@),
            Piece::Number(n) => Mark::Number(*n),
        }
    }
}

/// The models of a sequence of pieces.
pub open spec fn marks(pieces: Seq<Piece>) -> Seq<Mark> {
    Seq::new(pieces.len(), |i: int| pieces[i]@)
}

/// The text that stands for a builtin.
pub open spec fn function_text() -> Seq<char> {
    "Function {}"@
}

/// The text of a piece, where it has one of its own.
pub open spec fn text_of(m: Mark) -> Option<Seq<char>> {
    match m {
        Mark::Open => Some("("@),
        Mark::Close => Some(")"@),
        Mark::Separator => Some(","@),
        Mark::Text(s) => Some(s),
        Mark::Number(_) => None,
    }
}

/// A value written out: a truth value as `true` or `false`, a symbol as its
/// text, a number as itself, a builtin as a fixed text, and a list as its
/// elements between parentheses, with a separator between one and the next.
pub open spec fn rendering(v: Value) -> Seq<Mark>
    decreases v,
{
    match v {
        Value::Bool(b) => seq![Mark::Text(if b { "true"@ } else { "false"@ })],
        Value::Symbol(s) => seq![Mark::Text(s)],
        Value::Number(n) => seq![Mark::Number(n)],
        Value::Func(_) => seq![Mark::Text(function_text())],
        Value::List(items) => seq![Mark::Open] + joined(items, items.len() as int) + seq![
            Mark::Close,
        ],
    }
}

/// The first `upto` elements written out, with a separator between one and
/// the next.
pub open spec fn joined(items: Seq<Value>, upto: int) -> Seq<Mark>
    decreases items, upto,
{
    if upto <= 0 || upto > items.len() {
        Seq::empty()
    } else if upto == 1 {
        rendering(items[0])
    } else {
        joined(items, upto - 1) + seq![Mark::Separator] + rendering(items[upto - 1])
    }
}

impl Piece {
    /// The text of the piece, or `None` for a number.
    pub fn text(&self) -> (r: Option<String>)
        ensures
            match text_of(self@) {
                Some(s) => r matches Some(t) && t@ == s,
                None => r is None,
            },
    {
        match self {
            Piece::Open => Some("(".to_owned()),
            Piece::Close => Some(")".to_owned()),
            Piece::Separator => Some(",".to_owned()),
            Piece::Text(s) => Some(s.clone()),
            Piece::Number(_) => None,
        }
    }
}

/// Writes a value out.
pub fn render(exp: &RispExp) -> (pieces: Vec<Piece>)
    ensures
        marks(pieces@) == rendering(exp@),
    decreases exp,
{
    let mut out: Vec<Piece> = Vec::new();
    match exp {
        RispExp::Bool(a) => {
            if *a {
                out.push(Piece::Text("true".to_owned()));
            } else {
                out.push(Piece::Text("false".to_owned()));
            }
            assert(marks(out@) =~= rendering(exp@));
        },
        RispExp::Symbol(s) => {
            out.push(Piece::Text(s.clone()));
            assert(marks(out@) =~= rendering(exp@));
        },
        RispExp::Number(n) => {
            out.push(Piece::Number(*n));
            assert(marks(out@) =~= rendering(exp@));
        },
        RispExp::Func(_) => {
            out.push(Piece::Text("Function {}".to_owned()));
            assert(marks(out@) =~= rendering(exp@));
        },
        RispExp::List(list) => {
            let ghost items = views(list@);
            proof {
                lemma_views(list@);
            }
            out.push(Piece::Open);
            let mut i: usize = 0;
            assert(marks(out@) =~= seq![Mark::Open] + joined(items, 0));
            while i < list.len()
                invariant
                    exp is List,
                    exp->List_0 == *list,
                    i <= list.len(),
                    items == views(list@),
                    items.len() == list.len(),
                    forall|j: int| 0 <= j < list.len() ==> #[trigger] items[j] == list[j]@,
                    marks(out@) == seq![Mark::Open] + joined(items, i as int),
                decreases list.len() - i,
            {
                let ghost before = marks(out@);
                if i > 0 {
                    out.push(Piece::Separator);
                }
                assert(decreases_to!(exp => list[i as int]));
                let mut inner = render(&list[i]);
                let ghost middle = marks(out@);
                let ghost added = marks(inner@);
                out.append(&mut inner);
                i = i + 1;
                proof {
                    assert(marks(out@) =~= middle + added);
                    if i > 1 {
                        assert(middle =~= before + seq![Mark::Separator]);
                        assert(marks(out@) =~= seq![Mark::Open] + (joined(items, i - 1) + seq![
                            Mark::Separator,
                        ] + added));
                    } else {
                        assert(middle =~= before);
                        assert(joined(items, 0) =~= Seq::<Mark>::empty());
                        assert(marks(out@) =~= seq![Mark::Open] + added);
                    }
                }
            }
            let ghost before = marks(out@);
            out.push(Piece::Close);
            assert(marks(out@) =~= before + seq![Mark::Close]);
        },
    }
    out
}

/// The piece that a token stands for: a parenthesis, or the atom as it is
/// written out.
pub open spec fn mark_of(t: Lexeme, booleans: bool) -> Mark {
    if is_open(t) {
        Mark::Open
    } else if is_close(t) {
        Mark::Close
    } else {
        rendering(atom(t, booleans))[0]
    }
}

/// The pieces that the tokens stand for, one for one.
pub open spec fn outline(ts: Seq<Lexeme>, booleans: bool) -> Seq<Mark> {
    Seq::new(ts.len(), |i: int| mark_of(ts[i], booleans))
}

/// The pieces without the separators.
pub open spec fn unseparated(ms: Seq<Mark>) -> Seq<Mark> {
    ms.filter(|m: Mark| !(m is Separator))
}

/// The elements of a list written out one after the other.
pub open spec fn concatenated(items: Seq<Value>, upto: int) -> Seq<Mark>
    decreases items, upto,
{
    if upto <= 0 || upto > items.len() {
        Seq::empty()
    } else {
        concatenated(items, upto - 1) + unseparated(rendering(items[upto - 1]))
    }
}

proof fn lemma_unseparated_single(m: Mark)
    ensures
        unseparated(seq![m]) == if m is Separator {
            Seq::<Mark>::empty()
        } else {
            seq![m]
        },
{
    reveal(Seq::filter);
    let s = seq![m];
    assert(s.drop_last() =~= Seq::<Mark>::empty());
    assert(s.drop_last().filter(|m: Mark| !(m is Separator)) =~= Seq::<Mark>::empty());
    assert(s.last() == m);
    if !(m is Separator) {
        assert(Seq::<Mark>::empty().push(m) =~= seq![m]);
    }
}

proof fn lemma_unseparated_join(items: Seq<Value>, upto: int)
    requires
        0 <= upto <= items.len(),
    ensures
        unseparated(joined(items, upto)) == concatenated(items, upto),
    decreases upto,
{
    let keep = |m: Mark| !(m is Separator);
    if upto == 0 {
        reveal(Seq::filter);
    } else if upto == 1 {
        assert(concatenated(items, 0) =~= Seq::<Mark>::empty());
        assert(Seq::<Mark>::empty() + unseparated(rendering(items[0])) =~= unseparated(
            rendering(items[0]),
        ));
    } else {
        lemma_unseparated_join(items, upto - 1);
        lemma_unseparated_single(Mark::Separator);
        let a = joined(items, upto - 1);
        let b = seq![Mark::Separator];
        let c = rendering(items[upto - 1]);
        Seq::filter_distributes_over_add(a + b, c, keep);
        Seq::filter_distributes_over_add(a, b, keep);
        assert(unseparated(a) + Seq::<Mark>::empty() =~= unseparated(a));
    }
}

proof fn lemma_parentheses_differ()
    ensures
        "("@ != ")"@,
{
    reveal_strlit("(");
    reveal_strlit(")");
    assert("("@[0] != ")"@[0]);
}

/// A list written out, without its separators, is its elements written
/// out one after the other between the two parentheses.
proof fn lemma_unseparated_list(items: Seq<Value>)
    ensures
        unseparated(rendering(Value::List(items))) == seq![Mark::Open] + (concatenated(
            items,
            items.len() as int,
        ) + seq![Mark::Close]),
{
    let keep = |m: Mark| !(m is Separator);
    let inner = joined(items, items.len() as int);
    lemma_unseparated_join(items, items.len() as int);
    lemma_unseparated_single(Mark::Open);
    lemma_unseparated_single(Mark::Close);
    Seq::filter_distributes_over_add(seq![Mark::Open] + inner, seq![Mark::Close], keep);
    Seq::filter_distributes_over_add(seq![Mark::Open], inner, keep);
    assert((seq![Mark::Open] + unseparated(inner)) + seq![Mark::Close] =~= seq![Mark::Open] + (
    unseparated(inner) + seq![Mark::Close]));
}

/// The outline of tokens that begin with an opening parenthesis.
proof fn lemma_outline_after_open(ts: Seq<Lexeme>, booleans: bool, n: int)
    requires
        ts.len() > 0,
        is_open(ts[0]),
        0 <= n < ts.len(),
    ensures
        outline(ts.take(n + 1), booleans) == seq![Mark::Open] + outline(
            ts.skip(1).take(n),
            booleans,
        ),
{
    assert(outline(ts.take(n + 1), booleans) =~= seq![Mark::Open] + outline(
        ts.skip(1).take(n),
        booleans,
    ));
}

/// The outline of an atom is the atom written out.
proof fn lemma_outline_of_atom(ts: Seq<Lexeme>, booleans: bool)
    requires
        ts.len() > 0,
        !is_open(ts[0]),
        !is_close(ts[0]),
    ensures
        unseparated(rendering(atom(ts[0], booleans))) == outline(ts.take(1), booleans),
{
    let a = atom(ts[0], booleans);
    lemma_unseparated_single(rendering(a)[0]);
    assert(rendering(a) =~= seq![rendering(a)[0]]);
    assert(outline(ts.take(1), booleans) =~= rendering(a));
}

/// Writing out what was parsed gives back the tokens that were read, piece
/// for piece, once the separators are taken out: every parenthesis and every
/// atom stands where it stood, so the elements of every list are the same,
/// in the same order and in the same groups.
pub proof fn lemma_rendering_keeps_nesting(ts: Seq<Lexeme>, booleans: bool)
    ensures
        parsed(ts, booleans) matches Ok((v, n)) ==> n <= ts.len() && unseparated(rendering(v))
            == outline(ts.take(n as int), booleans),
        listed(ts, booleans) matches Ok((items, n)) ==> n <= ts.len() && concatenated(
            items,
            items.len() as int,
        ) + seq![Mark::Close] == outline(ts.take(n as int), booleans),
    decreases ts.len(), 1nat,
{
    lemma_parsed_length(ts, booleans);
    if ts.len() == 0 {
    } else if is_open(ts[0]) {
        lemma_parentheses_differ();
        lemma_rendering_keeps_nesting(ts.skip(1), booleans);
        lemma_parsed_length(ts.skip(1), booleans);
        if let Ok((items, n)) = listed(ts.skip(1), booleans) {
            lemma_unseparated_list(items);
            lemma_outline_after_open(ts, booleans, n as int);
        }
        lemma_rendering_of_list_items(ts, booleans);
    } else if is_close(ts[0]) {
        assert(outline(ts.take(1), booleans) =~= seq![Mark::Close]);
        assert(concatenated(Seq::<Value>::empty(), 0) + seq![Mark::Close] =~= seq![Mark::Close]);
    } else {
        lemma_outline_of_atom(ts, booleans);
        lemma_rendering_of_list_items(ts, booleans);
    }
}

/// The step of `lemma_rendering_keeps_nesting` for a list that goes on with
/// one more element.
proof fn lemma_rendering_of_list_items(ts: Seq<Lexeme>, booleans: bool)
    requires
        ts.len() > 0,
        !is_close(ts[0]),
        parsed(ts, booleans) matches Ok((v, n)) ==> n <= ts.len() && unseparated(rendering(v))
            == outline(ts.take(n as int), booleans),
    ensures
        listed(ts, booleans) matches Ok((items, n)) ==> n <= ts.len() && concatenated(
            items,
            items.len() as int,
        ) + seq![Mark::Close] == outline(ts.take(n as int), booleans),
    decreases ts.len(), 0nat,
{
    lemma_parsed_length(ts, booleans);
    if let Ok((first, n)) = parsed(ts, booleans) {
        let rest = ts.skip(n as int);
        lemma_rendering_keeps_nesting(rest, booleans);
        lemma_parsed_length(rest, booleans);
        if let Ok((others, m)) = listed(rest, booleans) {
            lemma_concatenated_prepend(first, others, others.len() as int);
            lemma_outline_splits(ts, booleans, n as int, m as int);
            lemma_list_goes_on(
                unseparated(rendering(first)),
                concatenated(others, others.len() as int),
            );
        }
    }
}

proof fn lemma_outline_splits(ts: Seq<Lexeme>, booleans: bool, n: int, m: int)
    requires
        0 <= n,
        0 <= m,
        n + m <= ts.len(),
    ensures
        outline(ts.take(n + m), booleans) == outline(ts.take(n), booleans) + outline(
            ts.skip(n).take(m),
            booleans,
        ),
{
    assert(outline(ts.take(n + m), booleans) =~= outline(ts.take(n), booleans) + outline(
        ts.skip(n).take(m),
        booleans,
    ));
}

proof fn lemma_list_goes_on(a: Seq<Mark>, b: Seq<Mark>)
    ensures
        (a + b) + seq![Mark::Close] == a + (b + seq![Mark::Close]),
{
    assert((a + b) + seq![Mark::Close] =~= a + (b + seq![Mark::Close]));
}

proof fn lemma_concatenated_prepend(first: Value, others: Seq<Value>, upto: int)
    requires
        0 <= upto <= others.len(),
    ensures
        concatenated(seq![first] + others, upto + 1) == unseparated(rendering(first))
            + concatenated(others, upto),
    decreases upto,
{
    let items = seq![first] + others;
    if upto == 0 {
        assert(concatenated(items, 0) =~= Seq::<Mark>::empty());
        assert(items[0] == first);
        assert(concatenated(items, 1) =~= unseparated(rendering(first)));
        assert(unseparated(rendering(first)) + concatenated(others, 0) =~= unseparated(
            rendering(first),
        ));
    } else {
        lemma_concatenated_prepend(first, others, upto - 1);
        assert(items[upto] == others[upto - 1]);
        assert(concatenated(items, upto + 1) =~= unseparated(rendering(first)) + (concatenated(
            others,
            upto - 1,
        ) + unseparated(rendering(others[upto - 1]))));
    }
}

} // verus!
