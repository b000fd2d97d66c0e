use risp::tokenizer::tokenize;

fn words(line: &str) -> Vec<String> {
    tokenize(line.to_string())
}

#[test]
fn tokenize_check() {
    assert_eq!(
        tokenize("(+ 10 5)".to_string()),
        vec!["(", "+", "10", "5", ")"]
    )
}

#[test]
fn tokenize_empty_line_gives_no_token() {
    assert_eq!(words(""), Vec::<String>::new());
    assert_eq!(words("   \t\n"), Vec::<String>::new());
}

#[test]
fn tokenize_sets_parentheses_apart() {
    assert_eq!(words("(a(b)c)"), vec!["(", "a", "(", "b", ")", "c", ")"]);
    assert_eq!(words("()"), vec!["(", ")"]);
    assert_eq!(words("))(("), vec![")", ")", "(", "("]);
    assert_eq!(words("(+ 10 5 (- 10 3 3))").len(), 11);
}

#[test]
fn tokenize_splits_on_runs_of_white_space() {
    assert_eq!(words("  a \t\t b\n\nc\r\n"), vec!["a", "b", "c"]);
    assert_eq!(words("a\u{00a0}b\u{3000}c\u{2003}d\u{0085}e"), vec!["a", "b", "c", "d", "e"]);
    assert_eq!(words("a\u{200b}b"), vec!["a\u{200b}b"]);
}

#[test]
fn tokenize_keeps_other_characters_in_words() {
    assert_eq!(words("foo,bar \"x y\" ;c"), vec!["foo,bar", "\"x", "y\"", ";c"]);
    assert_eq!(words("héllo wörld"), vec!["héllo", "wörld"]);
    assert_eq!(words(">= <= 1e10 -3.5"), vec![">=", "<=", "1e10", "-3.5"]);
}

#[test]
fn tokenize_agrees_with_padding_and_splitting() {
    let lines = [
        "(+ 10 5)",
        "((( a)b )c",
        " x  (y\tz)\n",
        "",
        "(",
        "a\u{2028}(b\u{1680})",
        "no parens here",
    ];
    for line in lines {
        let expected: Vec<String> = line
            .replace("(", " ( ")
            .replace(")", " ) ")
            .split_whitespace()
            .map(|x| x.to_string())
            .collect();
        assert_eq!(words(line), expected);
    }
}

#[test]
fn tokenize_splits_exactly_at_white_space_and_parentheses() {
    for code in 0..=0x10ffffu32 {
        let c = match char::from_u32(code) {
            Some(c) => c,
            None => continue,
        };
        let line: String = ['a', c, 'b'].iter().collect();
        let tokens = words(&line);
        if c.is_whitespace() {
            assert_eq!(tokens, vec!["a", "b"], "U+{:04X}", code);
        } else if c == '(' || c == ')' {
            assert_eq!(tokens, vec!["a".to_string(), c.to_string(), "b".to_string()]);
        } else {
            assert_eq!(tokens, vec![line.clone()], "U+{:04X}", code);
        }
    }
}
