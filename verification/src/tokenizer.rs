//! Splitting a line of text into tokens.
//!
//! Each parenthesis is a token of its own, whatever stands next to it; every
//! other token is a maximal run of characters that holds neither white space
//! nor a parenthesis.

use vstd::prelude::*;

verus! {

/// The characters that separate words: those with the Unicode property
/// `White_Space`.
pub open spec fn is_space(c: char) -> bool {
    let n = c as u32;
    ||| 0x09 <= n <= 0x0d
    ||| n == 0x20
    ||| n == 0x85
    ||| n == 0xa0
    ||| n == 0x1680
    ||| 0x2000 <= n <= 0x200a
    ||| n == 0x2028
    ||| n == 0x2029
    ||| n == 0x202f
    ||| n == 0x205f
    ||| n == 0x3000
}

/// Whether the character is one of the two parentheses.
pub open spec fn is_paren(c: char) -> bool {
    c == '(' || c == ')'
}

/// The text with a space put before and after each parenthesis.
pub open spec fn padded(s: Seq<char>) -> Seq<char>
    decreases s.len(),
{
    if s.len() == 0 {
        seq![]
    } else if is_paren(s[0]) {
        seq![' ', s[0], ' '] + padded(s.skip(1))
    } else {
        seq![s[0]] + padded(s.skip(1))
    }
}

/// The number of characters before the first white space in `s`.
pub open spec fn run_len(s: Seq<char>) -> nat
    decreases s.len(),
{
    if s.len() == 0 || is_space(s[0]) {
        0
    } else {
        1 + run_len(s.skip(1))
    }
}

/// The maximal runs of characters other than white space, in order.
pub open spec fn words(s: Seq<char>) -> Seq<Seq<char>>
    decreases s.len(),
    via words_decreases
{
    if s.len() == 0 {
        seq![]
    } else if is_space(s[0]) {
        words(s.skip(1))
    } else {
        let n = run_len(s) as int;
        seq![s.take(n)] + words(s.skip(n))
    }
}

/// The tokens of a line: its words once every parenthesis is set apart.
pub open spec fn tokens_of(s: Seq<char>) -> Seq<Seq<char>> {
    words(padded(s))
}

/// The views of a vector of strings.
pub open spec fn texts(v: Seq<String>) -> Seq<Seq<char>> {
    Seq::new(v.len(), |i: int| v[i]@)
}

/// The number of characters before the first white space or parenthesis.
spec fn atom_len(s: Seq<char>) -> nat
    decreases s.len(),
{
    if s.len() == 0 || is_space(s[0]) || is_paren(s[0]) {
        0
    } else {
        1 + atom_len(s.skip(1))
    }
}

/// What one pass over the text collects.
spec fn scan(s: Seq<char>) -> Seq<Seq<char>>
    decreases s.len(),
    via scan_decreases
{
    if s.len() == 0 {
        seq![]
    } else if is_space(s[0]) {
        scan(s.skip(1))
    } else if is_paren(s[0]) {
        seq![seq![s[0]]] + scan(s.skip(1))
    } else {
        let n = atom_len(s) as int;
        seq![s.take(n)] + scan(s.skip(n))
    }
}

#[via_fn]
proof fn words_decreases(s: Seq<char>) {
    lemma_run_len_bound(s);
}

#[via_fn]
proof fn scan_decreases(s: Seq<char>) {
    lemma_atom_len_bound(s);
}

proof fn lemma_run_len_bound(s: Seq<char>)
    ensures
        run_len(s) <= s.len(),
        s.len() > 0 && !is_space(s[0]) ==> run_len(s) >= 1,
    decreases s.len(),
{
    if s.len() > 0 && !is_space(s[0]) {
        lemma_run_len_bound(s.skip(1));
    }
}

proof fn lemma_atom_len_bound(s: Seq<char>)
    ensures
        atom_len(s) <= s.len(),
        s.len() > 0 && !is_space(s[0]) && !is_paren(s[0]) ==> atom_len(s) >= 1,
        forall|i: int| 0 <= i < atom_len(s) ==> !is_space(#[trigger] s[i]) && !is_paren(s[i]),
        atom_len(s) < s.len() ==> is_space(s[atom_len(s) as int]) || is_paren(
            s[atom_len(s) as int],
        ),
    decreases s.len(),
{
    if s.len() > 0 && !is_space(s[0]) && !is_paren(s[0]) {
        let t = s.skip(1);
        lemma_atom_len_bound(t);
        assert forall|i: int| 0 <= i < atom_len(s) implies !is_space(#[trigger] s[i]) && !is_paren(
            s[i],
        ) by {
            if i > 0 {
                assert(s[i] == t[i - 1]);
            }
        }
        if atom_len(s) < s.len() {
            assert(s[atom_len(s) as int] == t[atom_len(t) as int]);
        }
    }
}

/// Padding leaves a leading atom as it is, and a white space or the end of
/// the text follows it.
proof fn lemma_padded_atom(s: Seq<char>)
    ensures
        run_len(padded(s)) == atom_len(s),
        padded(s).take(atom_len(s) as int) == s.take(atom_len(s) as int),
        padded(s).skip(atom_len(s) as int) == padded(s.skip(atom_len(s) as int)),
        atom_len(s) <= padded(s).len(),
    decreases s.len(),
{
    lemma_atom_len_bound(s);
    if s.len() == 0 {
        assert(padded(s).take(0) =~= s.take(0));
        assert(padded(s).skip(0) =~= padded(s.skip(0)));
    } else if is_space(s[0]) {
        assert(padded(s)[0] == s[0]);
        assert(padded(s).take(0) =~= s.take(0));
        assert(s.skip(0) =~= s);
        assert(padded(s).skip(0) =~= padded(s));
    } else if is_paren(s[0]) {
        assert(padded(s)[0] == ' ');
        assert(padded(s).take(0) =~= s.take(0));
        assert(s.skip(0) =~= s);
        assert(padded(s).skip(0) =~= padded(s));
    } else {
        let t = s.skip(1);
        let n = atom_len(t) as int;
        lemma_padded_atom(t);
        lemma_atom_len_bound(t);
        let p = padded(s);
        assert(p == seq![s[0]] + padded(t));
        assert(p.skip(1) =~= padded(t));
        assert(p[0] == s[0]);
        assert(p.take(n + 1) =~= seq![s[0]] + padded(t).take(n));
        assert(s.take(n + 1) =~= seq![s[0]] + t.take(n));
        assert(p.skip(n + 1) =~= padded(t).skip(n));
        assert(s.skip(n + 1) =~= t.skip(n));
    }
}

/// One pass over the text collects exactly its tokens.
proof fn lemma_scan_is_tokens(s: Seq<char>)
    ensures
        scan(s) == tokens_of(s),
    decreases s.len(),
{
    if s.len() == 0 {
    } else if is_space(s[0]) {
        let t = s.skip(1);
        lemma_scan_is_tokens(t);
        let p = padded(s);
        assert(p[0] == s[0]);
        assert(p.skip(1) =~= padded(t));
    } else if is_paren(s[0]) {
        let t = s.skip(1);
        lemma_scan_is_tokens(t);
        let p = padded(s);
        assert(p == seq![' ', s[0], ' '] + padded(t));
        let p1 = p.skip(1);
        assert(p1 =~= seq![s[0], ' '] + padded(t));
        assert(words(p) == words(p1));
        assert(p1[0] == s[0]);
        let p2 = p1.skip(1);
        assert(p2 =~= seq![' '] + padded(t));
        assert(p2[0] == ' ');
        assert(run_len(p2) == 0);
        assert(run_len(p1) == 1);
        assert(p1.take(1) =~= seq![s[0]]);
        assert(p1.skip(1) == p2);
        assert(words(p1) == seq![seq![s[0]]] + words(p2));
        assert(p2.skip(1) =~= padded(t));
        assert(words(p2) == words(padded(t)));
    } else {
        let n = atom_len(s) as int;
        lemma_atom_len_bound(s);
        lemma_padded_atom(s);
        lemma_scan_is_tokens(s.skip(n));
        let p = padded(s);
        assert(p[0] == s[0]);
    }
}

/// What a token looks like: one parenthesis, or one or more characters none
/// of which is a white space or a parenthesis.
pub open spec fn is_token(w: Seq<char>) -> bool {
    ||| w.len() == 1 && is_paren(w[0])
    ||| w.len() > 0 && forall|j: int| 0 <= j < w.len() ==> !is_space(#[trigger] w[j]) && !is_paren(
        w[j],
    )
}

proof fn lemma_scan_gives_tokens(s: Seq<char>)
    ensures
        forall|i: int| 0 <= i < scan(s).len() ==> is_token(#[trigger] scan(s)[i]),
    decreases s.len(),
{
    if s.len() == 0 {
        assert(scan(s).len() == 0);
    } else if is_space(s[0]) {
        lemma_scan_gives_tokens(s.skip(1));
        assert(scan(s) == scan(s.skip(1)));
    } else if is_paren(s[0]) {
        lemma_scan_gives_tokens(s.skip(1));
        let rest = scan(s.skip(1));
        assert forall|i: int| 0 <= i < scan(s).len() implies is_token(#[trigger] scan(s)[i]) by {
            if i > 0 {
                assert(scan(s)[i] == rest[i - 1]);
            } else {
                assert(scan(s)[0] == seq![s[0]]);
                assert(seq![s[0]][0] == s[0]);
            }
        }
    } else {
        let n = atom_len(s) as int;
        lemma_atom_len_bound(s);
        lemma_scan_gives_tokens(s.skip(n));
        let rest = scan(s.skip(n));
        assert forall|i: int| 0 <= i < scan(s).len() implies is_token(#[trigger] scan(s)[i]) by {
            if i > 0 {
                assert(scan(s)[i] == rest[i - 1]);
            } else {
                let w = s.take(n);
                assert(scan(s)[0] == w);
                assert forall|j: int| 0 <= j < w.len() implies !is_space(#[trigger] w[j])
                    && !is_paren(w[j]) by {
                    assert(w[j] == s[j]);
                }
            }
        }
    }
}

/// Every token of a line is one parenthesis or a word without white space
/// and without parentheses; none is empty.
pub proof fn lemma_tokens_are_words(s: Seq<char>)
    ensures
        forall|i: int| 0 <= i < tokens_of(s).len() ==> is_token(#[trigger] tokens_of(s)[i]),
{
    lemma_scan_is_tokens(s);
    lemma_scan_gives_tokens(s);
}

fn is_whitespace(c: char) -> (b: bool)
    ensures
        b == is_space(c),
{
    let n: u32 = c as u32;
    (0x09 <= n && n <= 0x0d) || n == 0x20 || n == 0x85 || n == 0xa0 || n == 0x1680 || (0x2000 <= n
        && n <= 0x200a) || n == 0x2028 || n == 0x2029 || n == 0x202f || n == 0x205f || n == 0x3000
}

/// The character at position `i`. Where the text is known to be ASCII the
/// byte is read directly; otherwise the text is decoded up to `i`.
fn char_at(text: &str, ascii: bool, i: usize) -> (c: char)
    requires
        i < text@.len(),
        ascii ==> text.is_ascii(),
    ensures
        c == text@[i as int],
{
    if ascii {
        let b = text.get_ascii(i);
        b as char
    } else {
        text.get_char(i)
    }
}

/// The characters from `from` up to `to`, as a string of their own.
fn slice(text: &str, ascii: bool, from: usize, to: usize) -> (s: String)
    requires
        from <= to <= text@.len(),
        ascii ==> text.is_ascii(),
    ensures
        s@ == text@.subrange(from as int, to as int),
{
    if ascii {
        text.substring_ascii(from, to).to_owned()
    } else {
        text.substring_char(from, to).to_owned()
    }
}

/// Splits a line into its tokens, in the order in which they stand.
pub fn tokenize(expr: String) -> (tokens: Vec<String>)
    ensures
        texts(tokens@) == tokens_of(expr@),
{
    let text = expr.as_str();
    let ascii = text.is_ascii();
    let len = text.unicode_len();
    let mut tokens: Vec<String> = Vec::new();
    let mut i: usize = 0;
    proof {
        lemma_scan_is_tokens(expr@);
        assert(text@.skip(0) =~= text@);
        assert(texts(tokens@) =~= Seq::<Seq<char>>::empty());
    }
    while i < len
        invariant
            text@ == expr@,
            ascii ==> text.is_ascii(),
            len == text@.len(),
            i <= len,
            texts(tokens@) + scan(text@.skip(i as int)) == scan(text@),
        decreases len - i,
    {
        let ghost rest = text@.skip(i as int);
        let ghost before = texts(tokens@);
        let c = char_at(text, ascii, i);
        assert(rest[0] == c);
        if is_whitespace(c) {
            i = i + 1;
            assert(rest.skip(1) =~= text@.skip(i as int));
        } else if c == '(' || c == ')' {
            tokens.push(slice(text, ascii, i, i + 1));
            assert(text@.subrange(i as int, i + 1) =~= seq![c]);
            i = i + 1;
            assert(rest.skip(1) =~= text@.skip(i as int));
            assert(texts(tokens@) =~= before + seq![seq![c]]);
            assert(texts(tokens@) + scan(rest.skip(1)) =~= before + scan(rest));
        } else {
            let start = i;
            let ghost n = atom_len(rest) as int;
            proof {
                lemma_atom_len_bound(rest);
            }
            i = i + 1;
            while i < len && !is_break(text, ascii, i)
                invariant
                    start < i <= len,
                    ascii ==> text.is_ascii(),
                    len == text@.len(),
                    rest == text@.skip(start as int),
                    n == atom_len(rest),
                    i - start <= n <= rest.len(),
                    forall|j: int| 0 <= j < n ==> !is_space(#[trigger] rest[j]) && !is_paren(rest[j]),
                    n < rest.len() ==> is_space(rest[n]) || is_paren(rest[n]),
                decreases len - i,
            {
                assert(rest[i - start] == text@[i as int]);
                i = i + 1;
            }
            assert(i - start == n) by {
                if i < len {
                    assert(rest[i - start] == text@[i as int]);
                }
            }
            tokens.push(slice(text, ascii, start, i));
            assert(text@.subrange(start as int, i as int) =~= rest.take(n));
            assert(rest.skip(n) =~= text@.skip(i as int));
            assert(texts(tokens@) =~= before + seq![rest.take(n)]);
            assert(texts(tokens@) + scan(rest.skip(n)) =~= before + scan(rest));
        }
    }
    proof {
        assert(text@.skip(len as int) =~= Seq::<char>::empty());
        assert(texts(tokens@) + Seq::<Seq<char>>::empty() =~= texts(tokens@));
    }
    tokens
}

fn is_break(text: &str, ascii: bool, i: usize) -> (b: bool)
    requires
        i < text@.len(),
        ascii ==> text.is_ascii(),
    ensures
        b == (is_space(text@[i as int]) || is_paren(text@[i as int])),
{
    let c = char_at(text, ascii, i);
    is_whitespace(c) || c == '(' || c == ')'
}

} // verus!
