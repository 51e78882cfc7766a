use flex::automaton::Automaton;
use flex::regex_parser::{alphabet, compile, parse_rep};
use flex::nfa::RepConfig;
use flex::regex_tokenizer::{Item, Regex, RegexError};

fn hits(pattern: &str, input: &str) -> usize {
    compile(pattern, 1u8).unwrap().run(input).len()
}

#[test]
fn single_literal_matches_itself_once() {
    for c in ["a", "z", "7", "é", ",", r"\.", r"\\", "."] {
        let a = compile(c, 3u8).unwrap();
        let text = if c == r"\." {
            "."
        } else if c == r"\\" {
            "\\"
        } else if c == "." {
            "q"
        } else {
            c
        };
        assert_eq!(a.run(text), vec![3]);
        assert_eq!(a.run(""), Vec::<u8>::new());
    }
}

#[test]
fn concatenation_is_full_match() {
    assert_eq!(hits("ab", "ab"), 1);
    assert_eq!(hits("ab", "a"), 0);
    assert_eq!(hits("ab", "abc"), 0);
    assert_eq!(hits("ab", "ba"), 0);
}

#[test]
fn bounded_repetition_scenario() {
    assert_eq!(hits("a{2,3}", "a"), 0);
    assert_eq!(hits("a{2,3}", "aa"), 1);
    assert_eq!(hits("a{2,3}", "aaa"), 1);
    assert_eq!(hits("a{2,3}", "aaaa"), 0);
}

#[test]
fn star_scenario() {
    assert_eq!(hits("a*", ""), 1);
    assert_eq!(hits("a*", "aaaaa"), 1);
    assert_eq!(hits("a*", "aab"), 0);
}

#[test]
fn repetition_counts() {
    for m in 0..5usize {
        for n in m..6usize {
            let pattern = format!("x{{{},{}}}", m, n);
            for k in 0..8usize {
                let input = "x".repeat(k);
                let expected = if m <= k && k <= n { 1 } else { 0 };
                assert_eq!(hits(&pattern, &input), expected, "{} on {}", pattern, input);
            }
        }
        let exact = format!("x{{{}}}", m);
        let open = format!("x{{{},}}", m);
        for k in 0..8usize {
            let input = "x".repeat(k);
            assert_eq!(hits(&exact, &input), if k == m { 1 } else { 0 });
            assert_eq!(hits(&open, &input), if k >= m { 1 } else { 0 });
        }
    }
}

#[test]
fn star_plus_question() {
    let inputs = ["", "x", "xx", "xxx"];
    let star = [1, 1, 1, 1];
    let plus = [0, 1, 1, 1];
    let question = [1, 1, 0, 0];
    for (i, input) in inputs.iter().enumerate() {
        assert_eq!(hits("x*", input), star[i]);
        assert_eq!(hits("x+", input), plus[i]);
        assert_eq!(hits("x?", input), question[i]);
    }
}

#[test]
fn grouping_is_associative() {
    let left = compile("(ab)c", 1u8).unwrap();
    let right = compile("a(bc)", 1u8).unwrap();
    let flat = compile("abc", 1u8).unwrap();
    assert_eq!(left, right);
    assert_eq!(left, flat);
    for input in ["abc", "ab", "abcc", "", "bc"] {
        assert_eq!(left.run(input), right.run(input));
    }
}

#[test]
fn group_repetition() {
    assert_eq!(hits("(abc){2,3}", "abcabc"), 1);
    assert_eq!(hits("(abc){2,3}", "abcabcabc"), 1);
    assert_eq!(hits("(abc){2,3}", "abc"), 0);
    assert_eq!(hits("(ab)*c", "ababc"), 1);
    assert_eq!(hits("(ab)*c", "abac"), 0);
    assert_eq!(hits("()", ""), 1);
    assert_eq!(hits("", ""), 1);
    assert_eq!(hits("", "a"), 0);
}

#[test]
fn classes_in_patterns() {
    assert_eq!(hits(r"\d+", "2024"), 1);
    assert_eq!(hits(r"\d+", "20x4"), 0);
    assert_eq!(hits(r"\D", "x"), 1);
    assert_eq!(hits("a.c", "abc"), 1);
    assert_eq!(hits(r"a\.c", "abc"), 0);
    assert_eq!(hits(r"a\.c", "a.c"), 1);
    assert_eq!(hits("go+gle", "gooogle"), 1);
    assert_eq!(hits("go+gle", "ggle"), 0);
}

#[test]
fn nested_star_does_not_loop() {
    assert!(hits("(a*)*", "") >= 1);
    assert!(hits("(a*)*", "aa") >= 1);
    assert_eq!(hits("(a*)*", "ab"), 0);
}

#[test]
fn inverted_range_is_an_error() {
    assert_eq!(compile("a{3,2}", 1u8), Err(RegexError::InvalidRange(1)));
}

#[test]
fn trailing_backslash_is_an_error() {
    assert_eq!(compile(r"ab\", 1u8), Err(RegexError::TrailingBackslash(2)));
}

#[test]
fn syntax_errors() {
    assert_eq!(compile(r"a\q", 1u8), Err(RegexError::InvalidEscape(1, 'q')));
    assert_eq!(compile("(ab", 1u8), Err(RegexError::UnmatchedOpen(0)));
    assert_eq!(compile("ab)", 1u8), Err(RegexError::UnmatchedClose(2)));
    assert_eq!(compile("*a", 1u8), Err(RegexError::NothingToRepeat(0)));
    assert_eq!(compile("a**", 1u8), Err(RegexError::NothingToRepeat(2)));
    assert_eq!(compile("a|b", 1u8), Err(RegexError::UnexpectedToken(1)));
    assert_eq!(compile("[a]", 1u8), Err(RegexError::UnexpectedToken(0)));
    assert_eq!(compile("a{x}", 1u8), Err(RegexError::ExpectedDigit(2)));
    assert_eq!(compile("a{", 1u8), Err(RegexError::ExpectedDigit(2)));
    assert_eq!(compile("a{2", 1u8), Err(RegexError::ExpectedCloseBrace(3)));
    assert_eq!(compile("a{2,3", 1u8), Err(RegexError::ExpectedCloseBrace(5)));
    assert_eq!(compile("a{2,x}", 1u8), Err(RegexError::ExpectedDigit(4)));
}

#[test]
fn parse_rep_reads_suffixes() {
    let cases = [
        ("*", RepConfig::new(0, None)),
        ("?", RepConfig::new(0, Some(1))),
        ("+", RepConfig::new(1, None)),
        ("{2}", RepConfig::new(2, Some(2))),
        ("{2,3}", RepConfig::new(2, Some(3))),
        ("{2,}", RepConfig::new(2, None)),
    ];
    for (text, expected) in cases.iter() {
        let regex = Regex::new(text.to_string());
        let mut iter = regex.tokens_iter();
        assert_eq!(parse_rep(&mut iter), Ok(Some(*expected)));
        assert_eq!(iter.next(), Ok(None));
    }
    let regex = Regex::new("a".to_string());
    let mut iter = regex.tokens_iter();
    assert_eq!(parse_rep(&mut iter), Ok(None));
    assert_eq!(iter.next(), Ok(Some(Item::Char('a'))));
}

#[test]
fn alphabet_reads_content_only() {
    let regex = Regex::new("a(".to_string());
    let mut iter = regex.tokens_iter();
    let frag: Automaton<u8> = alphabet(&mut iter).unwrap().unwrap();
    assert_eq!(frag, Automaton::from_content(Item::Char('a')));
    assert_eq!(alphabet::<u8>(&mut iter), Ok(None));
    assert_eq!(iter.next(), Ok(Some(Item::BracketL)));
    assert_eq!(alphabet::<u8>(&mut iter), Ok(None));
}
