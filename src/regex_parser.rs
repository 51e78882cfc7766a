//! The compiler: a recursive-descent parser over the token stream that builds
//! the automaton with the construction algebra.
//!
//! Grammar: `items := rep items?`, `rep := item suffix?`,
//! `item := content-token | '(' items? ')'`, where a suffix is `*`, `+`, `?`,
//! `{m}`, `{m,}` or `{m,n}` with single-digit bounds.
use vstd::prelude::*;
use crate::automaton::{targets_below, well_formed, Automaton, NfaNode, NfaState};
use crate::nfa::{lemma_concat_well_formed, rep_copies, spec_concat_tail, spec_rep, RepConfig};
use crate::regex_tokenizer::{
    digit_value, is_digit_char, item_matches, special_of, token_at, Item, Regex, RegexError, RegexTokenIter,
};
use crate::run::{run_spec, walk, walk_from_start};

verus! {

/// The next token at position `k` with the position after it, or `None` at
/// the end of the pattern.
pub open spec fn next_token(s: Seq<char>, k: int) -> Result<Option<(Item, int)>, RegexError> {
    if k >= s.len() {
        Ok(None)
    } else {
        match token_at(s, k) {
            Ok(p) => Ok(Some(p)),
            Err(e) => Err(e),
        }
    }
}

/// Whether a token stands for input to match (as opposed to structure or a
/// repetition operator).
pub open spec fn is_content_item(it: Item) -> bool {
    !(it is OneOrMore || it is SomeTime || it is Or || it is ZeroOrOne || it is BracketL || it is BracketR
        || it is CurryL || it is CurryR || it is SquareL || it is SquareR)
}

/// The one-symbol fragment for a content item.
pub open spec fn symbol_fragment<T>(it: Item) -> Seq<Seq<(NfaState<T>, usize)>> {
    seq![seq![(NfaState::<T>::NfaContent(it), 1usize)], Seq::empty()]
}

/// The fragment that matches only the empty string.
pub open spec fn empty_fragment<T>() -> Seq<Seq<(NfaState<T>, usize)>> {
    seq![Seq::<(NfaState<T>, usize)>::empty()]
}

/// The rest of a `{...}` suffix whose `{` is at `open`, from position `k`:
/// the repetition bounds and the position after the `}`.
pub open spec fn parse_braces(s: Seq<char>, open: int, k: int) -> Result<(RepConfig, int), RegexError> {
    match next_token(s, k) {
        Err(e) => Err(e),
        Ok(Some((Item::Digit(m), k2))) => match next_token(s, k2) {
            Err(e) => Err(e),
            Ok(Some((Item::CurryR, k3))) => Ok((RepConfig { min: m, max: Some(m) }, k3)),
            Ok(Some((Item::Char(','), k3))) => match next_token(s, k3) {
                Err(e) => Err(e),
                Ok(Some((Item::CurryR, k4))) => Ok((RepConfig { min: m, max: None }, k4)),
                Ok(Some((Item::Digit(x), k4))) => match next_token(s, k4) {
                    Err(e) => Err(e),
                    Ok(Some((Item::CurryR, k5))) => if x < m {
                        Err(RegexError::InvalidRange(open as usize))
                    } else {
                        Ok((RepConfig { min: m, max: Some(x) }, k5))
                    },
                    _ => Err(RegexError::ExpectedCloseBrace(k4 as usize)),
                },
                _ => Err(RegexError::ExpectedDigit(k3 as usize)),
            },
            _ => Err(RegexError::ExpectedCloseBrace(k2 as usize)),
        },
        _ => Err(RegexError::ExpectedDigit(k as usize)),
    }
}

/// The repetition suffix at position `k`, if there is one, with the position
/// after it.
pub open spec fn parse_suffix(s: Seq<char>, k: int) -> Result<Option<(RepConfig, int)>, RegexError> {
    match next_token(s, k) {
        Err(e) => Err(e),
        Ok(Some((Item::SomeTime, k2))) => Ok(Some((RepConfig { min: 0, max: None }, k2))),
        Ok(Some((Item::OneOrMore, k2))) => Ok(Some((RepConfig { min: 1, max: None }, k2))),
        Ok(Some((Item::ZeroOrOne, k2))) => Ok(Some((RepConfig { min: 0, max: Some(1) }, k2))),
        Ok(Some((Item::CurryL, k2))) => match parse_braces(s, k, k2) {
            Err(e) => Err(e),
            Ok(p) => Ok(Some(p)),
        },
        _ => Ok(None),
    }
}

/// `items`: the fragment for the items from position `i` up to the end of the
/// pattern (`open` is `None`) or up to and including the `)` that closes the
/// group opened at `open`, and the position after what was read. `None`: no
/// item.
pub open spec fn spec_items<T>(s: Seq<char>, i: int, open: Option<usize>) -> Result<
    (Option<Seq<Seq<(NfaState<T>, usize)>>>, int),
    RegexError,
>
    decreases s.len() - i, 2int,
{
    match next_token(s, i) {
        Err(e) => Err(e),
        Ok(None) => match open {
            Some(p) => Err(RegexError::UnmatchedOpen(p)),
            None => Ok((None, i)),
        },
        Ok(Some((Item::BracketR, j))) => match open {
            Some(_) => Ok((None, j)),
            None => Err(RegexError::UnmatchedClose(i as usize)),
        },
        Ok(Some(_)) => match spec_repeated::<T>(s, i) {
            Err(e) => Err(e),
            Ok((f, j)) => if j <= i || j > s.len() {
                Err(RegexError::TooLarge(i as usize))
            } else {
                match spec_items::<T>(s, j, open) {
                    Err(e) => Err(e),
                    Ok((None, k)) => Ok((Some(f), k)),
                    Ok((Some(g), k)) => if f.len() + g.len() > usize::MAX {
                        Err(RegexError::TooLarge(i as usize))
                    } else {
                        Ok((Some(spec_concat_tail(f, g)), k))
                    },
                }
            },
        },
    }
}

/// `rep`: an item at position `i` with its optional repetition suffix.
pub open spec fn spec_repeated<T>(s: Seq<char>, i: int) -> Result<(Seq<Seq<(NfaState<T>, usize)>>, int), RegexError>
    decreases s.len() - i, 1int,
{
    match spec_item::<T>(s, i) {
        Err(e) => Err(e),
        Ok((f, j)) => match parse_suffix(s, j) {
            Err(e) => Err(e),
            Ok(None) => Ok((f, j)),
            Ok(Some((cfg, k))) => if 1 + rep_copies(cfg.min, cfg.max) * f.len() > usize::MAX {
                Err(RegexError::TooLarge(j as usize))
            } else {
                Ok((spec_rep(cfg.min, cfg.max, f), k))
            },
        },
    }
}

/// `item`: a content token or a parenthesised group at position `i`.
pub open spec fn spec_item<T>(s: Seq<char>, i: int) -> Result<(Seq<Seq<(NfaState<T>, usize)>>, int), RegexError>
    decreases s.len() - i, 0int,
{
    match next_token(s, i) {
        Err(e) => Err(e),
        Ok(None) => Err(RegexError::UnexpectedToken(i as usize)),
        Ok(Some((it, j))) => if is_content_item(it) {
            Ok((symbol_fragment(it), j))
        } else if it is BracketL {
            if j <= i || j > s.len() {
                Err(RegexError::UnexpectedToken(i as usize))
            } else {
                match spec_items::<T>(s, j, Some(i as usize)) {
                    Err(e) => Err(e),
                    Ok((Some(g), k)) => Ok((g, k)),
                    Ok((None, k)) => Ok((empty_fragment(), k)),
                }
            }
        } else if it is SomeTime || it is OneOrMore || it is ZeroOrOne || it is CurryL {
            Err(RegexError::NothingToRepeat(i as usize))
        } else {
            Err(RegexError::UnexpectedToken(i as usize))
        },
    }
}

/// The automaton for pattern `s`, its last node accepting with `terminal`.
pub open spec fn spec_compile<T>(s: Seq<char>, terminal: T) -> Result<Seq<Seq<(NfaState<T>, usize)>>, RegexError> {
    match spec_items::<T>(s, 0, None) {
        Err(e) => Err(e),
        Ok((f, _)) => {
            let a = match f {
                Some(g) => g,
                None => empty_fragment(),
            };
            Ok(a.update(a.len() - 1, a[a.len() - 1].push((NfaState::NfaTerminal(terminal), 0usize))))
        },
    }
}

/// A pattern made of one literal character `c` (neither special nor a
/// backslash) compiles, and its automaton reports its terminal exactly once on
/// the one-character input `c`, and never on the empty input.
pub proof fn lemma_single_literal<T>(c: char, t: T)
    requires
        special_of(c) is None,
        c != '\\',
    ensures
        spec_compile(seq![c], t) is Ok,
        run_spec(spec_compile(seq![c], t)->Ok_0, seq![c]) == seq![t],
        run_spec(spec_compile(seq![c], t)->Ok_0, Seq::<char>::empty()) == Seq::<T>::empty(),
{
    let s = seq![c];
    let it = if is_digit_char(c) {
        Item::Digit(digit_value(c))
    } else {
        Item::Char(c)
    };
    assert(token_at(s, 0) == Ok::<(Item, int), RegexError>((it, 1)));
    assert(is_content_item(it));
    assert(item_matches(it, c));
    let f = symbol_fragment::<T>(it);
    assert(spec_item::<T>(s, 0) == Ok::<(Seq<Seq<(NfaState<T>, usize)>>, int), RegexError>((f, 1)));
    assert(parse_suffix(s, 1) == Ok::<Option<(RepConfig, int)>, RegexError>(None));
    assert(spec_repeated::<T>(s, 0) == Ok::<(Seq<Seq<(NfaState<T>, usize)>>, int), RegexError>((f, 1)));
    assert(next_token(s, 0) == Ok::<Option<(Item, int)>, RegexError>(Some((it, 1))));
    assert(spec_items::<T>(s, 1, None) == Ok::<(Option<Seq<Seq<(NfaState<T>, usize)>>>, int), RegexError>((None, 1)));
    assert(spec_items::<T>(s, 0, None) == Ok::<(Option<Seq<Seq<(NfaState<T>, usize)>>>, int), RegexError>((Some(f), 1)));
    let a = spec_compile(s, t)->Ok_0;
    let term = (NfaState::NfaTerminal(t), 0usize);
    assert(a =~= seq![seq![(NfaState::<T>::NfaContent(it), 1usize)], seq![term]]);
    reveal_with_fuel(walk, 16);
    assert(walk_from_start(a, s, true, 0) =~= seq![(t, 1usize)]);
    assert(run_spec(a, s) =~= seq![t]);
    assert(walk_from_start(a, Seq::<char>::empty(), true, 0) =~= Seq::<(T, usize)>::empty());
    assert(run_spec(a, Seq::<char>::empty()) =~= Seq::<T>::empty());
}

/// Reads the rest of a `{...}` suffix whose `{` is at `open`.
fn parse_braces_iter(iter: &mut RegexTokenIter, open: usize) -> (r: Result<RepConfig, RegexError>)
    requires
        old(iter).wf(),
    ensures
        final(iter).wf(),
        final(iter).chars() == old(iter).chars(),
        match parse_braces(old(iter).chars(), open as int, old(iter).pos()) {
            Ok((cfg, k)) => r == Ok::<RepConfig, RegexError>(cfg) && final(iter).pos() == k,
            Err(e) => r == Err::<RepConfig, RegexError>(e),
        },
{
    let k = iter.position();
    let min = match iter.next() {
        Err(e) => return Err(e),
        Ok(Some(Item::Digit(m))) => m,
        _ => return Err(RegexError::ExpectedDigit(k)),
    };
    let k2 = iter.position();
    match iter.next() {
        Err(e) => Err(e),
        Ok(Some(Item::CurryR)) => Ok(RepConfig::new(min, Some(min))),
        Ok(Some(Item::Char(','))) => {
            let k3 = iter.position();
            match iter.next() {
                Err(e) => Err(e),
                Ok(Some(Item::CurryR)) => Ok(RepConfig::new(min, None)),
                Ok(Some(Item::Digit(max))) => {
                    let k4 = iter.position();
                    match iter.next() {
                        Err(e) => Err(e),
                        Ok(Some(Item::CurryR)) => {
                            if max < min {
                                Err(RegexError::InvalidRange(open))
                            } else {
                                Ok(RepConfig::new(min, Some(max)))
                            }
                        },
                        _ => Err(RegexError::ExpectedCloseBrace(k4)),
                    }
                },
                _ => Err(RegexError::ExpectedDigit(k3)),
            }
        },
        _ => Err(RegexError::ExpectedCloseBrace(k2)),
    }
}

/// Reads a repetition suffix if one comes next; otherwise leaves the stream
/// where it was.
pub fn parse_rep(iter: &mut RegexTokenIter) -> (r: Result<Option<RepConfig>, RegexError>)
    requires
        old(iter).wf(),
    ensures
        final(iter).wf(),
        final(iter).chars() == old(iter).chars(),
        match parse_suffix(old(iter).chars(), old(iter).pos()) {
            Ok(None) => r == Ok::<Option<RepConfig>, RegexError>(None) && final(iter).pos() == old(iter).pos(),
            Ok(Some((cfg, k))) => r == Ok::<Option<RepConfig>, RegexError>(Some(cfg)) && final(iter).pos() == k,
            Err(e) => r == Err::<Option<RepConfig>, RegexError>(e),
        },
{
    let start = iter.position();
    match iter.next() {
        Err(e) => Err(e),
        Ok(None) => Ok(None),
        Ok(Some(Item::SomeTime)) => Ok(Some(RepConfig::new(0, None))),
        Ok(Some(Item::OneOrMore)) => Ok(Some(RepConfig::new(1, None))),
        Ok(Some(Item::ZeroOrOne)) => Ok(Some(RepConfig::new(0, Some(1)))),
        Ok(Some(Item::CurryL)) => match parse_braces_iter(iter, start) {
            Err(e) => Err(e),
            Ok(cfg) => Ok(Some(cfg)),
        },
        Ok(Some(_)) => {
            iter.back();
            Ok(None)
        },
    }
}

/// Reads one token and, if it stands for input to match, returns the
/// one-symbol fragment for it; otherwise leaves the stream where it was.
pub fn alphabet<T: Copy>(iter: &mut RegexTokenIter) -> (r: Result<Option<Automaton<T>>, RegexError>)
    requires
        old(iter).wf(),
    ensures
        final(iter).wf(),
        final(iter).chars() == old(iter).chars(),
        match next_token(old(iter).chars(), old(iter).pos()) {
            Err(e) => r == Err::<Option<Automaton<T>>, RegexError>(e),
            Ok(None) => r matches Ok(None) && final(iter).pos() == old(iter).pos(),
            Ok(Some((it, j))) => if is_content_item(it) {
                r matches Ok(Some(a)) && a@ == symbol_fragment::<T>(it) && final(iter).pos() == j
            } else {
                r matches Ok(None) && final(iter).pos() == old(iter).pos()
            },
        },
{
    match iter.next() {
        Err(e) => Err(e),
        Ok(None) => Ok(None),
        Ok(Some(token)) => {
            match token {
                Item::OneOrMore | Item::SomeTime | Item::Or | Item::ZeroOrOne | Item::BracketL | Item::BracketR
                | Item::CurryL | Item::CurryR | Item::SquareL | Item::SquareR => {
                    iter.back();
                    Ok(None)
                },
                _ => Ok(Some(Automaton::from_content(token))),
            }
        },
    }
}

fn item<T: Copy>(iter: &mut RegexTokenIter) -> (r: Result<Automaton<T>, RegexError>)
    requires
        old(iter).wf(),
    ensures
        final(iter).wf(),
        final(iter).chars() == old(iter).chars(),
        match spec_item::<T>(old(iter).chars(), old(iter).pos()) {
            Ok((f, j)) => r matches Ok(a) && a@ == f && final(iter).pos() == j && well_formed(f) && f.len() > 0
                && old(iter).pos() < j,
            Err(e) => r == Err::<Automaton<T>, RegexError>(e),
        },
    decreases iter.chars().len() - iter.pos(), 0int,
{
    let ghost s = iter.chars();
    let start = iter.position();
    proof {
        if start < s.len() {
            RegexTokenIter::lemma_token_advances(s, start as int);
        }
    }
    match alphabet::<T>(iter) {
        Err(e) => return Err(e),
        Ok(Some(a)) => {
            proof {
                assert(well_formed(a@));
            }
            return Ok(a);
        },
        Ok(None) => {},
    }
    match iter.next() {
        Err(e) => Err(e),
        Ok(None) => Err(RegexError::UnexpectedToken(start)),
        Ok(Some(Item::BracketL)) => match items::<T>(iter, Some(start)) {
            Err(e) => Err(e),
            Ok(Some(g)) => Ok(g),
            Ok(None) => {
                let mut a = Automaton::new();
                a.push(NfaNode::new());
                proof {
                    assert(a@ =~= empty_fragment::<T>());
                    assert(targets_below(a@[0], 1));
                }
                Ok(a)
            },
        },
        Ok(Some(Item::SomeTime)) | Ok(Some(Item::OneOrMore)) | Ok(Some(Item::ZeroOrOne)) | Ok(Some(Item::CurryL)) => Err(
            RegexError::NothingToRepeat(start),
        ),
        Ok(Some(_)) => Err(RegexError::UnexpectedToken(start)),
    }
}

fn rep<T: Copy>(iter: &mut RegexTokenIter) -> (r: Result<Automaton<T>, RegexError>)
    requires
        old(iter).wf(),
    ensures
        final(iter).wf(),
        final(iter).chars() == old(iter).chars(),
        match spec_repeated::<T>(old(iter).chars(), old(iter).pos()) {
            Ok((f, j)) => r matches Ok(a) && a@ == f && final(iter).pos() == j && well_formed(f) && f.len() > 0
                && old(iter).pos() < j,
            Err(e) => r == Err::<Automaton<T>, RegexError>(e),
        },
    decreases iter.chars().len() - iter.pos(), 1int,
{
    let f = match item::<T>(iter) {
        Err(e) => return Err(e),
        Ok(f) => f,
    };
    let j = iter.position();
    match parse_rep(iter) {
        Err(e) => Err(e),
        Ok(None) => Ok(f),
        Ok(Some(cfg)) => {
            let copies: usize = match cfg.max {
                Some(n) => n,
                None => if cfg.min == 0 {
                    1
                } else {
                    cfg.min
                },
            };
            match copies.checked_mul(f.len()) {
                None => Err(RegexError::TooLarge(j)),
                Some(size) => {
                    if size == usize::MAX {
                        Err(RegexError::TooLarge(j))
                    } else {
                        Ok(cfg.nfa(f))
                    }
                },
            }
        },
    }
}

/// Parses items up to the end of the pattern (`open` is `None`) or up to and
/// including the `)` that closes the group opened at position `open`.
fn items<T: Copy>(iter: &mut RegexTokenIter, open: Option<usize>) -> (r: Result<Option<Automaton<T>>, RegexError>)
    requires
        old(iter).wf(),
    ensures
        final(iter).wf(),
        final(iter).chars() == old(iter).chars(),
        match spec_items::<T>(old(iter).chars(), old(iter).pos(), open) {
            Ok((None, k)) => r matches Ok(None) && final(iter).pos() == k,
            Ok((Some(f), k)) => r matches Ok(Some(a)) && a@ == f && final(iter).pos() == k && well_formed(f)
                && f.len() > 0,
            Err(e) => r == Err::<Option<Automaton<T>>, RegexError>(e),
        },
        r is Ok ==> old(iter).pos() <= final(iter).pos(),
    decreases iter.chars().len() - iter.pos(), 2int,
{
    let start = iter.position();
    match iter.next() {
        Err(e) => return Err(e),
        Ok(None) => {
            return match open {
                Some(p) => Err(RegexError::UnmatchedOpen(p)),
                None => Ok(None),
            };
        },
        Ok(Some(Item::BracketR)) => {
            return match open {
                Some(_) => Ok(None),
                None => Err(RegexError::UnmatchedClose(start)),
            };
        },
        Ok(Some(_)) => iter.back(),
    }
    let mut f = match rep::<T>(iter) {
        Err(e) => return Err(e),
        Ok(f) => f,
    };
    proof {
        iter.lemma_pos_bound();
    }
    match items::<T>(iter, open) {
        Err(e) => Err(e),
        Ok(None) => Ok(Some(f)),
        Ok(Some(g)) => {
            if f.len() > usize::MAX - g.len() {
                Err(RegexError::TooLarge(start))
            } else {
                proof {
                    lemma_concat_well_formed(f@, f@.len() - 1, g@);
                }
                f.concat_tail(g);
                Ok(Some(f))
            }
        },
    }
}

/// Compiles `pattern` into an automaton whose accepting node carries
/// `terminal`, or reports the first lexical or syntax error.
pub fn compile<T: Copy>(pattern: &str, terminal: T) -> (r: Result<Automaton<T>, RegexError>)
    ensures
        match spec_compile(pattern@, terminal) {
            Ok(a) => r matches Ok(b) && b@ == a,
            Err(e) => r == Err::<Automaton<T>, RegexError>(e),
        },
        r matches Ok(b) ==> well_formed(b@) && b@.len() > 0,
{
    let regex = Regex::new(pattern.to_string());
    let mut iter = regex.tokens_iter();
    match items::<T>(&mut iter, None) {
        Err(e) => Err(e),
        Ok(f) => {
            let mut a = match f {
                Some(g) => g,
                None => {
                    let mut e = Automaton::new();
                    e.push(NfaNode::new());
                    proof {
                        assert(e@ =~= empty_fragment::<T>());
                        assert(targets_below(e@[0], 1));
                    }
                    e
                },
            };
            let ghost before = a@;
            a.set_termial_to_last_node(terminal);
            proof {
                assert forall|i: int| 0 <= i < a@.len() implies targets_below(#[trigger] a@[i], a@.len() as int) by {
                    assert(targets_below(before[i], before.len() as int));
                    if i == before.len() - 1 {
                        assert forall|j: int| 0 <= j < a@[i].len() && !((#[trigger] a@[i][j]).0 is NfaTerminal) implies a@[i][j].1 < a@.len() by {
                            if j < before[i].len() {
                                assert(a@[i][j] == before[i][j]);
                            }
                        }
                    }
                }
            }
            Ok(a)
        },
    }
}

} // verus!
