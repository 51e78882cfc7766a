use flex::regex_tokenizer::{Item, Regex, RegexError};

#[test]
fn test_parse() {
    let regex_string = "go+gle".to_string();
    let regex = Regex::new(regex_string);
    let mut regex_iter = regex.tokens_iter();
    assert_eq!(Item::Char('g'), regex_iter.next().unwrap().unwrap());
    assert_eq!(Item::Char('o'), regex_iter.next().unwrap().unwrap());
    assert_eq!(Item::OneOrMore, regex_iter.next().unwrap().unwrap());
    assert_eq!(Item::Char('g'), regex_iter.next().unwrap().unwrap());
    assert_eq!(Item::Char('l'), regex_iter.next().unwrap().unwrap());
    assert_eq!(Item::Char('e'), regex_iter.next().unwrap().unwrap());
    assert_eq!(None, regex_iter.next().unwrap());
}

#[test]
fn test_back() {
    let regex_string = "go+gle".to_string();
    let regex = Regex::new(regex_string);
    let mut regex_iter = regex.tokens_iter();

    assert_eq!(Item::Char('g'), regex_iter.next().unwrap().unwrap());
    assert_eq!(Item::Char('o'), regex_iter.next().unwrap().unwrap());

    regex_iter.back();

    assert_eq!(Item::Char('o'), regex_iter.next().unwrap().unwrap());
    assert_eq!(Item::OneOrMore, regex_iter.next().unwrap().unwrap());
    assert_eq!(Item::Char('g'), regex_iter.next().unwrap().unwrap());
    assert_eq!(Item::Char('l'), regex_iter.next().unwrap().unwrap());
    assert_eq!(Item::Char('e'), regex_iter.next().unwrap().unwrap());
    assert_eq!(None, regex_iter.next().unwrap());
}

#[test]
fn test_rep_regex() {
    let regex_string = "(abc){2,3}".to_string();
    let regex = Regex::new(regex_string);
    let mut regex_iter = regex.tokens_iter();
    assert_eq!(Item::BracketL, regex_iter.next().unwrap().unwrap());
    assert_eq!(Item::Char('a'), regex_iter.next().unwrap().unwrap());
    assert_eq!(Item::Char('b'), regex_iter.next().unwrap().unwrap());
    assert_eq!(Item::Char('c'), regex_iter.next().unwrap().unwrap());
    assert_eq!(Item::BracketR, regex_iter.next().unwrap().unwrap());
    assert_eq!(Item::CurryL, regex_iter.next().unwrap().unwrap());
    assert_eq!(Item::Digit(2), regex_iter.next().unwrap().unwrap());
    assert_eq!(Item::Char(','), regex_iter.next().unwrap().unwrap());
    assert_eq!(Item::Digit(3), regex_iter.next().unwrap().unwrap());
    assert_eq!(Item::CurryR, regex_iter.next().unwrap().unwrap());
    assert_eq!(None, regex_iter.next().unwrap());
}

#[test]
fn test_baskslash() {
    let regex_string = r"\d".to_string();
    let regex = Regex::new(regex_string);
    let mut regex_iter = regex.tokens_iter();
    assert_eq!(Item::SmallD, regex_iter.next().unwrap().unwrap());
}

#[test]
fn test_escaped_backslash() {
    let regex_string = r"\.".to_string();
    let regex = Regex::new(regex_string);
    let mut regex_iter = regex.tokens_iter();
    assert_eq!(Item::Dot, regex_iter.next().unwrap().unwrap());
}

#[test]
fn every_escape_and_special() {
    let regex = Regex::new(r"\d\D\.\*\|\?\(\)\{\}\[\]\\.*+|?(){}[]".to_string());
    let mut iter = regex.tokens_iter();
    let expected = [
        Item::SmallD,
        Item::LargeD,
        Item::Dot,
        Item::Ast,
        Item::Pipe,
        Item::Question,
        Item::BracketLInner,
        Item::BracketRInner,
        Item::CurryLInner,
        Item::CurryRInner,
        Item::SquareLInner,
        Item::SquareRInner,
        Item::BackSlash,
        Item::Any,
        Item::SomeTime,
        Item::OneOrMore,
        Item::Or,
        Item::ZeroOrOne,
        Item::BracketL,
        Item::BracketR,
        Item::CurryL,
        Item::CurryR,
        Item::SquareL,
        Item::SquareR,
    ];
    for item in expected.iter() {
        assert_eq!(Ok(Some(*item)), iter.next());
    }
    assert_eq!(Ok(None), iter.next());
}

#[test]
fn back_returns_a_whole_escape() {
    let regex = Regex::new(r"a\*b".to_string());
    let mut iter = regex.tokens_iter();
    assert_eq!(Ok(Some(Item::Char('a'))), iter.next());
    assert_eq!(Ok(Some(Item::Ast)), iter.next());
    iter.back();
    assert_eq!(Ok(Some(Item::Ast)), iter.next());
    assert_eq!(Ok(Some(Item::Char('b'))), iter.next());
}

#[test]
fn backslash_at_end_is_an_error() {
    let regex = Regex::new(r"ab\".to_string());
    let mut iter = regex.tokens_iter();
    iter.next().unwrap();
    iter.next().unwrap();
    assert_eq!(Err(RegexError::TrailingBackslash(2)), iter.next());
}

#[test]
fn unknown_escape_is_an_error() {
    let regex = Regex::new(r"\q".to_string());
    let mut iter = regex.tokens_iter();
    assert_eq!(Err(RegexError::InvalidEscape(0, 'q')), iter.next());
    let plus = Regex::new(r"\+".to_string());
    assert_eq!(Err(RegexError::InvalidEscape(0, '+')), plus.tokens_iter().next());
}

#[test]
fn digits_and_unicode() {
    let regex = Regex::new("7é".to_string());
    let mut iter = regex.tokens_iter();
    assert_eq!(Ok(Some(Item::Digit(7))), iter.next());
    assert_eq!(Ok(Some(Item::Char('é'))), iter.next());
    assert_eq!(Ok(None), iter.next());
}

#[test]
fn item_char() {
    assert!(Item::Char('a').matches_char('a'));
    assert!(!Item::Char('a').matches_char('b'));
    assert_eq!(Item::from_char('q'), Item::Char('q'));
}

#[test]
fn item_digit() {
    assert!(Item::Digit(0).matches_char('0'));
    assert!(!Item::Digit(1).matches_char('0'));
    assert!(!Item::Digit(0).matches_char('a'));
    assert!(!Item::Digit(12).matches_char('1'));
}

#[test]
fn item_classes() {
    assert!(Item::Any.matches_char('a'));
    assert!(Item::SmallD.matches_char('0'));
    assert!(!Item::SmallD.matches_char('a'));
    assert!(Item::LargeD.matches_char('a'));
    assert!(!Item::LargeD.matches_char('0'));
}

#[test]
fn item_escaped_literals() {
    assert!(Item::Dot.matches_char('.'));
    assert!(!Item::Dot.matches_char('x'));
    assert!(Item::BracketLInner.matches_char('('));
    assert!(Item::BracketRInner.matches_char(')'));
    assert!(Item::CurryLInner.matches_char('{'));
    assert!(Item::CurryRInner.matches_char('}'));
    assert!(Item::BackSlash.matches_char('\\'));
    assert!(Item::Plus.matches_char('+'));
    assert!(!Item::SomeTime.matches_char('*'));
    assert!(!Item::BracketL.matches_char('('));
}
