//! The tokenizer: it splits a pattern into symbolic items (literal characters,
//! digits, escaped specials, structural punctuation and repetition operators).
use vstd::prelude::*;

verus! {

/// One token of a pattern.
#[derive(Debug, PartialEq, Eq, Clone, Copy, Hash, Structural)]
pub enum Item {
    /// `\d`
    SmallD,
    /// `\D`
    LargeD,
    /// `0`-`9`
    Digit(usize),
    /// any other literal character
    Char(char),
    /// `\+`
    Plus,
    /// `+`
    OneOrMore,
    /// `\.`
    Dot,
    /// `.`
    Any,
    /// `\*`
    Ast,
    /// `*`
    SomeTime,
    /// `\|`
    Pipe,
    /// `|`
    Or,
    /// `\?`
    Question,
    /// `?`
    ZeroOrOne,
    /// `\(`
    BracketLInner,
    /// `(`
    BracketL,
    /// `\)`
    BracketRInner,
    /// `)`
    BracketR,
    /// `\{`
    CurryLInner,
    /// `{`
    CurryL,
    /// `\}`
    CurryRInner,
    /// `}`
    CurryR,
    /// `\[`
    SquareLInner,
    /// `[`
    SquareL,
    /// `\]`
    SquareRInner,
    /// `]`
    SquareR,
    /// `\\`
    BackSlash,
}

/// What can go wrong while compiling a pattern; each error carries the
/// character position where it was found.
#[derive(Debug, PartialEq, Eq, Clone, Copy, Structural)]
pub enum RegexError {
    /// A backslash is the last character of the pattern.
    TrailingBackslash(usize),
    /// A backslash is followed by a character that has no escape meaning.
    InvalidEscape(usize, char),
    /// A `(` that is never closed.
    UnmatchedOpen(usize),
    /// A `)` with no `(` before it.
    UnmatchedClose(usize),
    /// A repetition operator with nothing before it to repeat.
    NothingToRepeat(usize),
    /// A token that cannot stand where it was found (`|`, `[`, `]`, `}`).
    UnexpectedToken(usize),
    /// A repetition bound that should be a digit is not one.
    ExpectedDigit(usize),
    /// A repetition bound is not closed by `}`.
    ExpectedCloseBrace(usize),
    /// `{m,n}` with `n < m`; the position is that of the `{`.
    InvalidRange(usize),
    /// The automaton would not fit in memory addressable by `usize`.
    TooLarge(usize),
}

pub open spec fn is_digit_char(c: char) -> bool {
    '0' <= c && c <= '9'
}

/// The numeric value of a decimal digit character.
pub open spec fn digit_value(c: char) -> usize {
    (c as u32 - '0' as u32) as usize
}

/// Whether an item, used as the content of a transition, accepts character `c`.
pub open spec fn item_matches(item: Item, c: char) -> bool {
    match item {
        Item::SmallD => is_digit_char(c),
        Item::LargeD => !is_digit_char(c),
        Item::Digit(d) => d < 10 && is_digit_char(c) && digit_value(c) == d,
        Item::Char(x) => x == c,
        Item::Any => true,
        Item::Plus => c == '+',
        Item::Dot => c == '.',
        Item::Ast => c == '*',
        Item::Pipe => c == '|',
        Item::Question => c == '?',
        Item::BracketLInner => c == '(',
        Item::BracketRInner => c == ')',
        Item::CurryLInner => c == '{',
        Item::CurryRInner => c == '}',
        Item::SquareLInner => c == '[',
        Item::SquareRInner => c == ']',
        Item::BackSlash => c == '\\',
        _ => false,
    }
}

/// The item that an unescaped special character stands for.
pub open spec fn special_of(c: char) -> Option<Item> {
    if c == '.' {
        Some(Item::Any)
    } else if c == '*' {
        Some(Item::SomeTime)
    } else if c == '+' {
        Some(Item::OneOrMore)
    } else if c == '|' {
        Some(Item::Or)
    } else if c == '?' {
        Some(Item::ZeroOrOne)
    } else if c == '(' {
        Some(Item::BracketL)
    } else if c == ')' {
        Some(Item::BracketR)
    } else if c == '{' {
        Some(Item::CurryL)
    } else if c == '}' {
        Some(Item::CurryR)
    } else if c == '[' {
        Some(Item::SquareL)
    } else if c == ']' {
        Some(Item::SquareR)
    } else {
        None
    }
}

/// The item that `\c` stands for, if `c` may follow a backslash.
pub open spec fn escape_of(c: char) -> Option<Item> {
    if c == 'd' {
        Some(Item::SmallD)
    } else if c == 'D' {
        Some(Item::LargeD)
    } else if c == '.' {
        Some(Item::Dot)
    } else if c == '*' {
        Some(Item::Ast)
    } else if c == '|' {
        Some(Item::Pipe)
    } else if c == '?' {
        Some(Item::Question)
    } else if c == '(' {
        Some(Item::BracketLInner)
    } else if c == ')' {
        Some(Item::BracketRInner)
    } else if c == '{' {
        Some(Item::CurryLInner)
    } else if c == '}' {
        Some(Item::CurryRInner)
    } else if c == '[' {
        Some(Item::SquareLInner)
    } else if c == ']' {
        Some(Item::SquareRInner)
    } else if c == '\\' {
        Some(Item::BackSlash)
    } else {
        None
    }
}

/// The token that starts at position `i` of pattern `s` (with `i < s.len()`),
/// with the position just after it.
pub open spec fn token_at(s: Seq<char>, i: int) -> Result<(Item, int), RegexError> {
    let c = s[i];
    if c == '\\' {
        if i + 1 >= s.len() {
            Err(RegexError::TrailingBackslash(i as usize))
        } else {
            match escape_of(s[i + 1]) {
                Some(item) => Ok((item, i + 2)),
                None => Err(RegexError::InvalidEscape(i as usize, s[i + 1])),
            }
        }
    } else {
        match special_of(c) {
            Some(item) => Ok((item, i + 1)),
            None => if is_digit_char(c) {
                Ok((Item::Digit(digit_value(c)), i + 1))
            } else {
                Ok((Item::Char(c), i + 1))
            },
        }
    }
}

fn is_digit(c: &char) -> (r: bool)
    ensures
        r == is_digit_char(*c),
{
    '0' <= *c && *c <= '9'
}

impl Item {
    /// Whether this item, as transition content, accepts `c`.
    pub fn matches_char(&self, c: char) -> (r: bool)
        ensures
            r == item_matches(*self, c),
    {
        match *self {
            Item::SmallD => is_digit(&c),
            Item::LargeD => !is_digit(&c),
            Item::Digit(d) => d < 10 && is_digit(&c) && (c as u32 - '0' as u32) as usize == d,
            Item::Char(x) => x == c,
            Item::Any => true,
            Item::Plus => c == '+',
            Item::Dot => c == '.',
            Item::Ast => c == '*',
            Item::Pipe => c == '|',
            Item::Question => c == '?',
            Item::BracketLInner => c == '(',
            Item::BracketRInner => c == ')',
            Item::CurryLInner => c == '{',
            Item::CurryRInner => c == '}',
            Item::SquareLInner => c == '[',
            Item::SquareRInner => c == ']',
            Item::BackSlash => c == '\\',
            _ => false,
        }
    }

    /// A literal-character item.
    pub fn from_char(c: char) -> (r: Item)
        ensures
            r == Item::Char(c),
    {
        Item::Char(c)
    }
}

/// The item for the character after a backslash at position `pos`.
fn parse_backslash(c: Option<char>, pos: usize) -> (r: Result<Item, RegexError>)
    ensures
        c is None ==> r == Err::<Item, RegexError>(RegexError::TrailingBackslash(pos)),
        c is Some ==> r == (match escape_of(c->0) {
            Some(item) => Ok(item),
            None => Err(RegexError::InvalidEscape(pos, c->0)),
        }),
{
    match c {
        Some('d') => Ok(Item::SmallD),
        Some('D') => Ok(Item::LargeD),
        Some('.') => Ok(Item::Dot),
        Some('*') => Ok(Item::Ast),
        Some('|') => Ok(Item::Pipe),
        Some('?') => Ok(Item::Question),
        Some('(') => Ok(Item::BracketLInner),
        Some(')') => Ok(Item::BracketRInner),
        Some('{') => Ok(Item::CurryLInner),
        Some('}') => Ok(Item::CurryRInner),
        Some('[') => Ok(Item::SquareLInner),
        Some(']') => Ok(Item::SquareRInner),
        Some('\\') => Ok(Item::BackSlash),
        Some(x) => Err(RegexError::InvalidEscape(pos, x)),
        None => Err(RegexError::TrailingBackslash(pos)),
    }
}

fn try_digit(c: char) -> (r: Option<Item>)
    ensures
        r == (if is_digit_char(c) {
            Some(Item::Digit(digit_value(c)))
        } else {
            None
        }),
{
    if is_digit(&c) {
        Some(Item::Digit((c as u32 - '0' as u32) as usize))
    } else {
        None
    }
}

fn try_special_char(c: char) -> (r: Option<Item>)
    ensures
        r == special_of(c),
{
    match c {
        '.' => Some(Item::Any),
        '*' => Some(Item::SomeTime),
        '+' => Some(Item::OneOrMore),
        '|' => Some(Item::Or),
        '?' => Some(Item::ZeroOrOne),
        '(' => Some(Item::BracketL),
        ')' => Some(Item::BracketR),
        '{' => Some(Item::CurryL),
        '}' => Some(Item::CurryR),
        '[' => Some(Item::SquareL),
        ']' => Some(Item::SquareR),
        _ => None,
    }
}

/// A pattern, as written.
pub struct Regex {
    string: String,
}

impl View for Regex {
    type V = Seq<char>;

    closed spec fn view(&self) -> Seq<char> {
        self.string@
    }
}

impl Regex {
    pub fn new(string: String) -> (r: Regex)
        ensures
            r@ == string@,
    {
        Regex { string }
    }

    /// A token stream over the pattern, positioned at its start.
    pub fn tokens_iter(&self) -> (r: RegexTokenIter)
        ensures
            r.chars() == self@,
            r.pos() == 0,
            r.wf(),
    {
        let s = self.string.as_str();
        let n = s.unicode_len();
        let mut item: Vec<char> = Vec::new();
        let mut i: usize = 0;
        while i < n
            invariant
                n == s@.len(),
                s@ == self@,
                i <= n,
                item@ == s@.subrange(0, i as int),
            decreases n - i,
        {
            item.push(s.get_char(i));
            i = i + 1;
        }
        proof {
            assert(item@ =~= s@);
        }
        RegexTokenIter { item, idx: 0, prev: 0 }
    }
}

/// A forward token stream over a pattern, with one token of pushback.
#[derive(Debug)]
pub struct RegexTokenIter {
    item: Vec<char>,
    idx: usize,
    prev: usize,
}

impl RegexTokenIter {
    /// The characters of the pattern.
    pub closed spec fn chars(&self) -> Seq<char> {
        self.item@
    }

    /// The position of the next character to read.
    pub closed spec fn pos(&self) -> int {
        self.idx as int
    }

    /// The position where the most recently read token starts.
    pub closed spec fn prev_pos(&self) -> int {
        self.prev as int
    }

    pub closed spec fn wf(&self) -> bool {
        self.prev <= self.idx <= self.item.len()
    }

    /// The position of the next character to read.
    pub fn position(&self) -> (r: usize)
        requires
            self.wf(),
        ensures
            r == self.pos(),
            r <= self.chars().len(),
    {
        self.idx
    }

    /// A well-formed stream is never past the end of its pattern.
    pub proof fn lemma_pos_bound(&self)
        requires
            self.wf(),
        ensures
            0 <= self.prev_pos() <= self.pos() <= self.chars().len(),
    {
    }

    /// Every token starts before the end of the pattern and ends after its
    /// first character, at most at the end.
    pub proof fn lemma_token_advances(s: Seq<char>, i: int)
        requires
            0 <= i < s.len(),
        ensures
            token_at(s, i) matches Ok((_, j)) ==> i < j <= s.len(),
    {
    }

    fn next_char(&mut self) -> (r: Option<char>)
        requires
            old(self).wf(),
        ensures
            final(self).wf(),
            final(self).chars() == old(self).chars(),
            final(self).prev_pos() == old(self).prev_pos(),
            old(self).pos() == old(self).chars().len() ==> r is None && final(self).pos() == old(self).pos(),
            old(self).pos() < old(self).chars().len() ==> r == Some(old(self).chars()[old(self).pos()])
                && final(self).pos() == old(self).pos() + 1,
    {
        if self.idx == self.item.len() {
            return None;
        }
        let res = Some(self.item[self.idx]);
        self.idx += 1;
        res
    }

    /// Returns the most recently read token to the stream.
    pub fn back(&mut self)
        requires
            old(self).wf(),
        ensures
            final(self).wf(),
            final(self).chars() == old(self).chars(),
            final(self).pos() == old(self).prev_pos(),
            final(self).prev_pos() == old(self).prev_pos(),
    {
        self.idx = self.prev;
    }

    /// The next token: `Ok(None)` at the end of the pattern, or the lexical
    /// error found where the token starts.
    pub fn next(&mut self) -> (r: Result<Option<Item>, RegexError>)
        requires
            old(self).wf(),
        ensures
            final(self).wf(),
            final(self).chars() == old(self).chars(),
            final(self).prev_pos() == old(self).pos(),
            old(self).pos() >= old(self).chars().len() ==> r == Ok::<Option<Item>, RegexError>(None)
                && final(self).pos() == old(self).pos(),
            old(self).pos() < old(self).chars().len() ==> match token_at(old(self).chars(), old(self).pos()) {
                Ok((item, j)) => r == Ok::<Option<Item>, RegexError>(Some(item)) && final(self).pos() == j,
                Err(e) => r == Err::<Option<Item>, RegexError>(e),
            },
    {
        let start = self.idx;
        let first = self.next_char();
        self.prev = start;
        match first {
            None => Ok(None),
            Some(c) => {
                if c == '\\' {
                    let follow = self.next_char();
                    match parse_backslash(follow, start) {
                        Ok(item) => Ok(Some(item)),
                        Err(e) => Err(e),
                    }
                } else if let Some(item) = try_special_char(c) {
                    Ok(Some(item))
                } else if let Some(item) = try_digit(c) {
                    Ok(Some(item))
                } else {
                    Ok(Some(Item::Char(c)))
                }
            },
        }
    }
}

} // verus!
