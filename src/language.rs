//! What compiled repetitions accept: laws that relate the construction of
//! `{m,n}`, `*`, `+` and `?` to the results of the execution engine.
use vstd::prelude::*;
use crate::automaton::{add_edge, shift, shift_edge, shift_node, targets_below, well_formed, NfaState};
use crate::nfa::{
    add_skips, lemma_concat_tail_assoc, lemma_concat_well_formed, rep_copies, spec_concat_tail, spec_concat_tail_n,
    spec_rep, RepConfig,
};
use crate::regex_parser::{
    empty_fragment, is_content_item, next_token, parse_suffix, spec_compile, spec_item, spec_items, spec_repeated,
    symbol_fragment,
};
use crate::regex_tokenizer::{digit_value, is_digit_char, item_matches, special_of, Item, RegexError};
use crate::run::{fresh_marks, run_spec, walk, walk_from_start};

verus! {

/// `a` with its last node made accepting with `t`.
pub open spec fn accepting<T>(a: Seq<Seq<(NfaState<T>, usize)>>, t: T) -> Seq<Seq<(NfaState<T>, usize)>> {
    add_edge(a, a.len() - 1, (NfaState::NfaTerminal(t), 0usize))
}

/// The query made of `k` copies of `c`.
pub open spec fn repeated_char(c: char, k: nat) -> Seq<char> {
    Seq::new(k, |i: int| c)
}

/// Node `i` of `n` one-symbol fragments chained after an empty start node:
/// odd nodes read the symbol, even nodes before the last link onwards.
spec fn chain_node<T>(it: Item, n: int, i: int) -> Seq<(NfaState<T>, usize)> {
    if i % 2 == 1 {
        seq![(NfaState::<T>::NfaContent(it), (i + 1) as usize)]
    } else if i < 2 * n {
        seq![(NfaState::<T>::Epsilon, (i + 1) as usize)]
    } else {
        Seq::empty()
    }
}

/// `chain_node` with the skip transitions to the last node added to the
/// copy ends `m..from`.
spec fn skip_node<T>(it: Item, m: int, n: int, from: int, i: int) -> Seq<(NfaState<T>, usize)> {
    if i % 2 == 0 && 2 * m <= i < 2 * from {
        chain_node::<T>(it, n, i).push((NfaState::<T>::Epsilon, (2 * n) as usize))
    } else {
        chain_node::<T>(it, n, i)
    }
}

spec fn skip_automaton<T>(it: Item, m: int, n: int, from: int) -> Seq<Seq<(NfaState<T>, usize)>> {
    Seq::new((2 * n + 1) as nat, |i: int| skip_node::<T>(it, m, n, from, i))
}

proof fn lemma_chain<T>(it: Item, n: nat)
    requires
        2 * n + 1 <= usize::MAX,
    ensures
        spec_concat_tail_n(empty_fragment::<T>(), symbol_fragment::<T>(it), n) == Seq::new(
            (2 * n + 1) as nat,
            |i: int| chain_node::<T>(it, n as int, i),
        ),
    decreases n,
{
    let f = symbol_fragment::<T>(it);
    if n == 0 {
        assert(empty_fragment::<T>() =~= Seq::new(1, |i: int| chain_node::<T>(it, 0, i)));
    } else {
        let m = (n - 1) as nat;
        lemma_chain::<T>(it, m);
        let prev = spec_concat_tail_n(empty_fragment::<T>(), f, m);
        let cur = spec_concat_tail(prev, f);
        let want = Seq::new((2 * n + 1) as nat, |i: int| chain_node::<T>(it, n as int, i));
        let sf = shift(f, (2 * m + 1) as int);
        assert(sf[0] =~= shift_node(f[0], (2 * m + 1) as int));
        assert(shift_edge(f[0][0], (2 * m + 1) as int) == (NfaState::<T>::NfaContent(it), (2 * m + 2) as usize));
        assert(sf[0] =~= seq![(NfaState::<T>::NfaContent(it), (2 * m + 2) as usize)]);
        assert(sf[1] =~= Seq::<(NfaState<T>, usize)>::empty());
        assert forall|i: int| 0 <= i < want.len() implies #[trigger] cur[i] == want[i] by {
            if i < 2 * m {
                assert(cur[i] == prev[i]);
            } else if i == 2 * m {
                assert(cur[i] =~= want[i]);
            } else if i == 2 * m + 1 {
                assert(cur[i] == sf[0]);
            } else {
                assert(cur[i] == sf[1]);
            }
        }
        assert(cur =~= want);
    }
}

proof fn lemma_skips<T>(it: Item, m: int, n: int, from: int)
    requires
        0 <= m <= from <= n,
    ensures
        add_skips(skip_automaton::<T>(it, m, n, from), from, n, 2, 2 * n) == skip_automaton::<T>(it, m, n, n),
    decreases n - from,
{
    if from < n {
        let cur = skip_automaton::<T>(it, m, n, from);
        let next = add_edge(cur, from * 2, (NfaState::<T>::Epsilon, (2 * n) as usize));
        assert(next =~= skip_automaton::<T>(it, m, n, from + 1));
        lemma_skips::<T>(it, m, n, from + 1);
    } else {
        assert(add_skips(skip_automaton::<T>(it, m, n, from), from, n, 2, 2 * n) == skip_automaton::<T>(it, m, n, from));
    }
}

/// The automaton for a one-symbol fragment repeated between `m` and `n`
/// times, made accepting with `t`.
spec fn bounded_automaton<T>(it: Item, m: int, n: int, t: T) -> Seq<Seq<(NfaState<T>, usize)>> {
    accepting(skip_automaton::<T>(it, m, n, n), t)
}

proof fn lemma_bounded_shape<T>(it: Item, m: usize, n: usize)
    requires
        m <= n,
        1 + n * 2 <= usize::MAX,
    ensures
        spec_rep(m, Some(n), symbol_fragment::<T>(it)) == skip_automaton::<T>(it, m as int, n as int, n as int),
{
    lemma_chain::<T>(it, n as nat);
    assert(Seq::new((2 * n + 1) as nat, |i: int| chain_node::<T>(it, n as int, i)) =~= skip_automaton::<T>(
        it,
        m as int,
        n as int,
        m as int,
    ));
    lemma_skips::<T>(it, m as int, n as int, m as int);
}

proof fn lemma_bounded_last<T>(it: Item, m: int, n: int, t: T, c: char, k: nat, pos: int, marks: Seq<bool>, depth: int)
    requires
        0 <= m <= n,
        0 <= pos <= k,
        marks.len() == 2 * n + 1,
    ensures
        walk(bounded_automaton::<T>(it, m, n, t), repeated_char(c, k), true, pos, 2 * n, marks, depth, 0, 0) == if pos
            == k {
            seq![(t, pos as usize)]
        } else {
            Seq::empty()
        },
{
    let a = bounded_automaton::<T>(it, m, n, t);
    assert(a[2 * n] =~= seq![(NfaState::NfaTerminal(t), 0usize)]);
    reveal_with_fuel(walk, 7);
}

proof fn lemma_bounded_odd<T>(it: Item, m: int, n: int, t: T, c: char, k: nat, i: int, pos: int, marks: Seq<bool>, depth: int)
    requires
        0 <= m <= n,
        0 <= pos <= k,
        0 <= i < 2 * n,
        i % 2 == 1,
        marks.len() == 2 * n + 1,
        2 * n + 1 <= usize::MAX,
        item_matches(it, c),
    ensures
        walk(bounded_automaton::<T>(it, m, n, t), repeated_char(c, k), true, pos, i, marks, depth, 0, 0) == if pos < k {
            walk(
                bounded_automaton::<T>(it, m, n, t),
                repeated_char(c, k),
                true,
                pos + 1,
                i + 1,
                fresh_marks(2 * n + 1, i + 1),
                1,
                0,
                0,
            )
        } else {
            Seq::empty()
        },
{
    let a = bounded_automaton::<T>(it, m, n, t);
    assert(a[i] =~= seq![(NfaState::<T>::NfaContent(it), (i + 1) as usize)]);
    reveal_with_fuel(walk, 7);
    if pos < k {
        assert(repeated_char(c, k)[pos] == c);
    }
}

proof fn lemma_bounded_even<T>(it: Item, m: int, n: int, t: T, c: char, k: nat, i: int, pos: int)
    requires
        0 <= m <= n,
        0 <= pos <= k,
        0 <= i < n,
        2 * n + 1 <= usize::MAX,
    ensures
        walk(
            bounded_automaton::<T>(it, m, n, t),
            repeated_char(c, k),
            true,
            pos,
            2 * i,
            fresh_marks(2 * n + 1, 2 * i),
            1,
            0,
            0,
        ) == walk(
            bounded_automaton::<T>(it, m, n, t),
            repeated_char(c, k),
            true,
            pos,
            2 * i + 1,
            fresh_marks(2 * n + 1, 2 * i).update(2 * i + 1, true),
            2,
            0,
            0,
        ) + if m <= i {
            walk(
                bounded_automaton::<T>(it, m, n, t),
                repeated_char(c, k),
                true,
                pos,
                2 * n,
                fresh_marks(2 * n + 1, 2 * i).update(2 * n, true),
                2,
                0,
                0,
            )
        } else {
            Seq::empty()
        },
{
    let a = bounded_automaton::<T>(it, m, n, t);
    if m <= i {
        assert(a[2 * i] =~= seq![
            (NfaState::<T>::Epsilon, (2 * i + 1) as usize),
            (NfaState::<T>::Epsilon, (2 * n) as usize),
        ]);
    } else {
        assert(a[2 * i] =~= seq![(NfaState::<T>::Epsilon, (2 * i + 1) as usize)]);
    }
    reveal_with_fuel(walk, 10);
}

proof fn lemma_bounded_walk<T>(it: Item, m: int, n: int, t: T, c: char, k: nat, i: int, pos: int)
    requires
        0 <= m <= n,
        0 <= pos <= k,
        0 <= i <= n,
        2 * n + 1 <= usize::MAX,
        item_matches(it, c),
    ensures
        walk(
            bounded_automaton::<T>(it, m, n, t),
            repeated_char(c, k),
            true,
            pos,
            2 * i,
            fresh_marks(2 * n + 1, 2 * i),
            1,
            0,
            0,
        ) == if m <= i + k - pos <= n {
            seq![(t, k as usize)]
        } else {
            Seq::empty()
        },
    decreases n - i,
{
    if i == n {
        lemma_bounded_last::<T>(it, m, n, t, c, k, pos, fresh_marks(2 * n + 1, 2 * i), 1);
    } else {
        lemma_bounded_even::<T>(it, m, n, t, c, k, i, pos);
        lemma_bounded_odd::<T>(it, m, n, t, c, k, 2 * i + 1, pos, fresh_marks(2 * n + 1, 2 * i).update(2 * i + 1, true), 2);
        lemma_bounded_last::<T>(it, m, n, t, c, k, pos, fresh_marks(2 * n + 1, 2 * i).update(2 * n, true), 2);
        if pos < k {
            lemma_bounded_walk::<T>(it, m, n, t, c, k, i + 1, pos + 1);
            assert(2 * i + 1 + 1 == 2 * (i + 1));
        }
    }
}

/// A one-symbol fragment repeated `{m,n}` times (`m <= n`) accepts a run of
/// `k` characters that the symbol matches, reporting its terminal exactly
/// once, if and only if `m <= k <= n`; otherwise no terminal is reached.
pub proof fn lemma_bounded_repetition<T>(it: Item, m: usize, n: usize, t: T, c: char, k: nat)
    requires
        m <= n,
        1 + n * 2 <= usize::MAX,
        item_matches(it, c),
    ensures
        run_spec(accepting(spec_rep(m, Some(n), symbol_fragment::<T>(it)), t), repeated_char(c, k)) == if m <= k <= n {
            seq![t]
        } else {
            Seq::<T>::empty()
        },
{
    lemma_bounded_shape::<T>(it, m, n);
    let a = bounded_automaton::<T>(it, m as int, n as int, t);
    lemma_bounded_walk::<T>(it, m as int, n as int, t, c, k, 0, 0);
    if m <= k <= n {
        assert(walk_from_start(a, repeated_char(c, k), true, 0) == seq![(t, k as usize)]);
        assert(run_spec(a, repeated_char(c, k)) =~= seq![t]);
    } else {
        assert(run_spec(a, repeated_char(c, k)) =~= Seq::<T>::empty());
    }
}

/// The item that a literal (non-special) pattern character stands for.
pub open spec fn literal_item(c: char) -> Item {
    if is_digit_char(c) {
        Item::Digit(digit_value(c))
    } else {
        Item::Char(c)
    }
}

/// A literal pattern character is a one-token item that matches itself.
proof fn lemma_literal_token(s: Seq<char>, i: int)
    requires
        0 <= i < s.len(),
        special_of(s[i]) is None,
        s[i] != '\\',
    ensures
        next_token(s, i) == Ok::<Option<(Item, int)>, RegexError>(Some((literal_item(s[i]), i + 1))),
        is_content_item(literal_item(s[i])),
        item_matches(literal_item(s[i]), s[i]),
{
}

/// Compiling `x` followed by the suffix at positions `1..` gives the
/// repetition that the suffix reads, made accepting.
proof fn lemma_compile_repeated<T>(s: Seq<char>, t: T, cfg: RepConfig)
    requires
        s.len() >= 2,
        special_of(s[0]) is None,
        s[0] != '\\',
        parse_suffix(s, 1) == Ok::<Option<(RepConfig, int)>, RegexError>(Some((cfg, s.len() as int))),
        1 + rep_copies(cfg.min, cfg.max) * 2 <= usize::MAX,
    ensures
        spec_compile(s, t) == Ok::<Seq<Seq<(NfaState<T>, usize)>>, RegexError>(
            accepting(spec_rep(cfg.min, cfg.max, symbol_fragment::<T>(literal_item(s[0]))), t),
        ),
{
    let it = literal_item(s[0]);
    lemma_literal_token(s, 0);
    let f = symbol_fragment::<T>(it);
    assert(spec_item::<T>(s, 0) == Ok::<(Seq<Seq<(NfaState<T>, usize)>>, int), RegexError>((f, 1)));
    let r = spec_rep(cfg.min, cfg.max, f);
    assert(spec_repeated::<T>(s, 0) == Ok::<(Seq<Seq<(NfaState<T>, usize)>>, int), RegexError>((r, s.len() as int)));
    assert(spec_items::<T>(s, s.len() as int, None) == Ok::<(Option<Seq<Seq<(NfaState<T>, usize)>>>, int), RegexError>(
        (None, s.len() as int),
    ));
    assert(spec_items::<T>(s, 0, None) == Ok::<(Option<Seq<Seq<(NfaState<T>, usize)>>>, int), RegexError>(
        (Some(r), s.len() as int),
    ));
}

/// The pattern `x{m,n}`, for a literal character `x` and digits `m <= n`,
/// compiles, and accepts `k` copies of `x`, reporting its terminal exactly
/// once, if and only if `m <= k <= n`.
pub proof fn lemma_compile_bounded<T>(x: char, dm: char, dn: char, t: T, k: nat)
    requires
        special_of(x) is None,
        x != '\\',
        is_digit_char(dm),
        is_digit_char(dn),
        digit_value(dm) <= digit_value(dn),
    ensures
        spec_compile(seq![x, '{', dm, ',', dn, '}'], t) is Ok,
        run_spec(spec_compile(seq![x, '{', dm, ',', dn, '}'], t)->Ok_0, repeated_char(x, k)) == if digit_value(dm)
            <= k <= digit_value(dn) {
            seq![t]
        } else {
            Seq::<T>::empty()
        },
{
    let s = seq![x, '{', dm, ',', dn, '}'];
    let m = digit_value(dm);
    let n = digit_value(dn);
    let cfg = RepConfig { min: m, max: Some(n) };
    assert(next_token(s, 1) == Ok::<Option<(Item, int)>, RegexError>(Some((Item::CurryL, 2))));
    assert(next_token(s, 2) == Ok::<Option<(Item, int)>, RegexError>(Some((Item::Digit(m), 3))));
    assert(next_token(s, 3) == Ok::<Option<(Item, int)>, RegexError>(Some((Item::Char(','), 4))));
    assert(next_token(s, 4) == Ok::<Option<(Item, int)>, RegexError>(Some((Item::Digit(n), 5))));
    assert(next_token(s, 5) == Ok::<Option<(Item, int)>, RegexError>(Some((Item::CurryR, 6))));
    assert(parse_suffix(s, 1) == Ok::<Option<(RepConfig, int)>, RegexError>(Some((cfg, 6))));
    assert(n <= 9);
    lemma_compile_repeated(s, t, cfg);
    lemma_literal_token(s, 0);
    lemma_bounded_repetition::<T>(literal_item(x), m, n, t, x, k);
}

/// The pattern `x?`, for a literal character `x`, accepts `k` copies of `x`,
/// reporting its terminal exactly once, if and only if `k` is 0 or 1.
pub proof fn lemma_compile_optional<T>(x: char, t: T, k: nat)
    requires
        special_of(x) is None,
        x != '\\',
    ensures
        spec_compile(seq![x, '?'], t) is Ok,
        run_spec(spec_compile(seq![x, '?'], t)->Ok_0, repeated_char(x, k)) == if k <= 1 {
            seq![t]
        } else {
            Seq::<T>::empty()
        },
{
    let s = seq![x, '?'];
    let cfg = RepConfig { min: 0, max: Some(1) };
    assert(next_token(s, 1) == Ok::<Option<(Item, int)>, RegexError>(Some((Item::ZeroOrOne, 2))));
    assert(parse_suffix(s, 1) == Ok::<Option<(RepConfig, int)>, RegexError>(Some((cfg, 2))));
    lemma_compile_repeated(s, t, cfg);
    lemma_literal_token(s, 0);
    lemma_bounded_repetition::<T>(literal_item(x), 0, 1, t, x, k);
}

/// The accepting automaton for `x+` (`star` false) or `x*` (`star` true):
/// start, a node that reads the symbol, and an accepting end that links back
/// to the start; for `x*` the start also links to the end.
spec fn loop_automaton<T>(it: Item, t: T, star: bool) -> Seq<Seq<(NfaState<T>, usize)>> {
    seq![
        if star {
            seq![(NfaState::<T>::Epsilon, 1usize), (NfaState::<T>::Epsilon, 2usize)]
        } else {
            seq![(NfaState::<T>::Epsilon, 1usize)]
        },
        seq![(NfaState::<T>::NfaContent(it), 2usize)],
        seq![(NfaState::<T>::Epsilon, 0usize), (NfaState::NfaTerminal(t), 0usize)],
    ]
}

proof fn lemma_loop_shape<T>(it: Item, t: T, star: bool)
    ensures
        accepting(spec_rep(if star { 0 } else { 1 }, None, symbol_fragment::<T>(it)), t) == loop_automaton(it, t, star),
{
    lemma_chain::<T>(it, 1);
    let base = spec_concat_tail_n(empty_fragment::<T>(), symbol_fragment::<T>(it), 1);
    assert(base =~= seq![
        seq![(NfaState::<T>::Epsilon, 1usize)],
        seq![(NfaState::<T>::NfaContent(it), 2usize)],
        Seq::<(NfaState<T>, usize)>::empty(),
    ]);
    let min: usize = if star { 0 } else { 1 };
    assert(rep_copies(min, None) == 1);
    let looped = add_edge(base, 2, (NfaState::<T>::Epsilon, 0usize));
    let r = spec_rep(min, None, symbol_fragment::<T>(it));
    if star {
        assert(r == add_edge(looped, 0, (NfaState::<T>::Epsilon, 2usize)));
    } else {
        assert(r == looped);
    }
    let a = accepting(r, t);
    let want = loop_automaton(it, t, star);
    assert(a[0] =~= want[0]);
    assert(a[1] =~= want[1]);
    assert(a[2] =~= want[2]);
    assert(a =~= want);
}

proof fn lemma_loop_end<T>(it: Item, t: T, star: bool, c: char, k: nat, pos: int, marks: Seq<bool>, depth: int)
    requires
        0 <= pos <= k,
        marks.len() == 3,
    ensures
        walk(loop_automaton(it, t, star), repeated_char(c, k), true, pos, 2, marks, depth, 0, 0) == (if pos == k {
            seq![(t, pos as usize)]
        } else {
            Seq::empty()
        }) + if !marks[0] && 0 <= depth < 3 {
            walk(loop_automaton(it, t, star), repeated_char(c, k), true, pos, 0, marks.update(0, true), depth + 1, 0, 0)
        } else {
            Seq::empty()
        },
{
    reveal_with_fuel(walk, 10);
}

proof fn lemma_loop_read<T>(it: Item, t: T, star: bool, c: char, k: nat, pos: int, marks: Seq<bool>, depth: int)
    requires
        0 <= pos <= k,
        marks.len() == 3,
        item_matches(it, c),
    ensures
        walk(loop_automaton(it, t, star), repeated_char(c, k), true, pos, 1, marks, depth, 0, 0) == if pos < k {
            walk(loop_automaton(it, t, star), repeated_char(c, k), true, pos + 1, 2, fresh_marks(3, 2), 1, 0, 0)
        } else {
            Seq::empty()
        },
{
    reveal_with_fuel(walk, 7);
    if pos < k {
        assert(repeated_char(c, k)[pos] == c);
    }
}

proof fn lemma_loop_start<T>(it: Item, t: T, star: bool, c: char, k: nat, pos: int, marks: Seq<bool>, depth: int)
    requires
        0 <= pos <= k,
        marks.len() == 3,
    ensures
        walk(loop_automaton(it, t, star), repeated_char(c, k), true, pos, 0, marks, depth, 0, 0) == (if !marks[1] && 0
            <= depth < 3 {
            walk(loop_automaton(it, t, star), repeated_char(c, k), true, pos, 1, marks.update(1, true), depth + 1, 0, 0)
        } else {
            Seq::empty()
        }) + if star && !marks[2] && 0 <= depth < 3 {
            walk(loop_automaton(it, t, star), repeated_char(c, k), true, pos, 2, marks.update(2, true), depth + 1, 0, 0)
        } else {
            Seq::empty()
        },
{
    reveal_with_fuel(walk, 10);
}

/// From the accepting end, at any position, the rest of the query is read
/// and the terminal reported exactly once.
proof fn lemma_loop_from_end<T>(it: Item, t: T, star: bool, c: char, k: nat, pos: int)
    requires
        0 <= pos <= k,
        item_matches(it, c),
    ensures
        walk(loop_automaton(it, t, star), repeated_char(c, k), true, pos, 2, fresh_marks(3, 2), 1, 0, 0) == seq![
            (t, k as usize),
        ],
    decreases k - pos,
{
    let m2 = fresh_marks(3, 2);
    let m20 = m2.update(0, true);
    let m201 = m20.update(1, true);
    lemma_loop_end::<T>(it, t, star, c, k, pos, m2, 1);
    lemma_loop_start::<T>(it, t, star, c, k, pos, m20, 2);
    lemma_loop_read::<T>(it, t, star, c, k, pos, m201, 3);
    if pos < k {
        lemma_loop_from_end::<T>(it, t, star, c, k, pos + 1);
    }
    assert(m20[2] && m20[1] == false && m2[0] == false);
    let w = walk(loop_automaton(it, t, star), repeated_char(c, k), true, pos, 2, m2, 1, 0, 0);
    if pos == k {
        assert(w =~= seq![(t, k as usize)]);
    } else {
        assert(w =~= seq![(t, k as usize)]);
    }
}

/// The automaton for `x+` (`star` false) accepts `k` copies of a character
/// that the symbol matches, reporting its terminal exactly once, if and only
/// if `k >= 1`; the one for `x*` (`star` true) accepts every `k`, once.
proof fn lemma_loop_run<T>(it: Item, t: T, star: bool, c: char, k: nat)
    requires
        item_matches(it, c),
    ensures
        run_spec(loop_automaton(it, t, star), repeated_char(c, k)) == if star || k >= 1 {
            seq![t]
        } else {
            Seq::<T>::empty()
        },
{
    let a = loop_automaton(it, t, star);
    let q = repeated_char(c, k);
    let m0 = fresh_marks(3, 0);
    let m01 = m0.update(1, true);
    let m02 = m0.update(2, true);
    lemma_loop_start::<T>(it, t, star, c, k, 0, m0, 1);
    lemma_loop_read::<T>(it, t, star, c, k, 0, m01, 2);
    lemma_loop_end::<T>(it, t, star, c, k, 0, m02, 2);
    if k >= 1 {
        lemma_loop_from_end::<T>(it, t, star, c, k, 1);
    }
    assert(m02[0]);
    let w = walk_from_start(a, q, true, 0);
    if star || k >= 1 {
        assert(w =~= seq![(t, k as usize)]);
        assert(run_spec(a, q) =~= seq![t]);
    } else {
        assert(w =~= Seq::<(T, usize)>::empty());
        assert(run_spec(a, q) =~= Seq::<T>::empty());
    }
}

/// The pattern `x*`, for a literal character `x`, accepts any number `k` of
/// copies of `x`, reporting its terminal exactly once.
pub proof fn lemma_compile_star<T>(x: char, t: T, k: nat)
    requires
        special_of(x) is None,
        x != '\\',
    ensures
        spec_compile(seq![x, '*'], t) is Ok,
        run_spec(spec_compile(seq![x, '*'], t)->Ok_0, repeated_char(x, k)) == seq![t],
{
    let s = seq![x, '*'];
    let cfg = RepConfig { min: 0, max: None };
    assert(next_token(s, 1) == Ok::<Option<(Item, int)>, RegexError>(Some((Item::SomeTime, 2))));
    assert(parse_suffix(s, 1) == Ok::<Option<(RepConfig, int)>, RegexError>(Some((cfg, 2))));
    lemma_compile_repeated(s, t, cfg);
    lemma_literal_token(s, 0);
    lemma_loop_shape::<T>(literal_item(x), t, true);
    lemma_loop_run::<T>(literal_item(x), t, true, x, k);
}

/// The pattern `x+`, for a literal character `x`, accepts `k` copies of `x`,
/// reporting its terminal exactly once, if and only if `k >= 1`.
pub proof fn lemma_compile_plus<T>(x: char, t: T, k: nat)
    requires
        special_of(x) is None,
        x != '\\',
    ensures
        spec_compile(seq![x, '+'], t) is Ok,
        run_spec(spec_compile(seq![x, '+'], t)->Ok_0, repeated_char(x, k)) == if k >= 1 {
            seq![t]
        } else {
            Seq::<T>::empty()
        },
{
    let s = seq![x, '+'];
    let cfg = RepConfig { min: 1, max: None };
    assert(next_token(s, 1) == Ok::<Option<(Item, int)>, RegexError>(Some((Item::OneOrMore, 2))));
    assert(parse_suffix(s, 1) == Ok::<Option<(RepConfig, int)>, RegexError>(Some((cfg, 2))));
    lemma_compile_repeated(s, t, cfg);
    lemma_literal_token(s, 0);
    lemma_loop_shape::<T>(literal_item(x), t, false);
    lemma_loop_run::<T>(literal_item(x), t, false, x, k);
}

/// A character that stands for itself in a pattern.
pub open spec fn is_literal_char(c: char) -> bool {
    special_of(c) is None && c != '\\'
}

/// The fragment a run of literal characters compiles to: their one-symbol
/// fragments chained in order.
pub open spec fn literal_fragment<T>(w: Seq<char>) -> Seq<Seq<(NfaState<T>, usize)>>
    decreases w.len(),
{
    if w.len() <= 1 {
        symbol_fragment::<T>(literal_item(w[0]))
    } else {
        spec_concat_tail(symbol_fragment::<T>(literal_item(w[0])), literal_fragment::<T>(w.drop_first()))
    }
}

/// `f` followed by `g`, if there is a `g`.
pub open spec fn join_fragments<T>(
    f: Seq<Seq<(NfaState<T>, usize)>>,
    g: Option<Seq<Seq<(NfaState<T>, usize)>>>,
) -> Seq<Seq<(NfaState<T>, usize)>> {
    match g {
        Some(h) => spec_concat_tail(f, h),
        None => f,
    }
}

proof fn lemma_symbol_well_formed<T>(it: Item)
    ensures
        well_formed(symbol_fragment::<T>(it)),
        symbol_fragment::<T>(it).len() == 2,
{
    let f = symbol_fragment::<T>(it);
    assert(targets_below(f[0], 2));
    assert(targets_below(f[1], 2));
}

proof fn lemma_literal_fragment<T>(w: Seq<char>)
    requires
        w.len() >= 1,
        2 * w.len() <= usize::MAX,
    ensures
        well_formed(literal_fragment::<T>(w)),
        literal_fragment::<T>(w).len() == 2 * w.len(),
    decreases w.len(),
{
    lemma_symbol_well_formed::<T>(literal_item(w[0]));
    if w.len() > 1 {
        lemma_literal_fragment::<T>(w.drop_first());
        lemma_concat_well_formed(
            symbol_fragment::<T>(literal_item(w[0])),
            1,
            literal_fragment::<T>(w.drop_first()),
        );
    }
}

/// Parsing items over a run of `len` literal characters at `j` chains their
/// fragments before whatever the items after the run give.
proof fn lemma_literal_run<T>(s: Seq<char>, j: int, len: int, open: Option<usize>, g: Option<Seq<Seq<(NfaState<T>, usize)>>>, k: int)
    requires
        0 <= j,
        len >= 1,
        j + len <= s.len(),
        forall|x: int| j <= x < j + len ==> is_literal_char(#[trigger] s[x]),
        parse_suffix(s, j + len) == Ok::<Option<(RepConfig, int)>, RegexError>(None),
        spec_items::<T>(s, j + len, open) == Ok::<(Option<Seq<Seq<(NfaState<T>, usize)>>>, int), RegexError>((g, k)),
        g matches Some(h) ==> well_formed(h) && h.len() > 0 && 2 * len + h.len() <= usize::MAX,
        2 * len <= usize::MAX,
    ensures
        spec_items::<T>(s, j, open) == Ok::<(Option<Seq<Seq<(NfaState<T>, usize)>>>, int), RegexError>(
            (Some(join_fragments(literal_fragment::<T>(s.subrange(j, j + len)), g)), k),
        ),
    decreases len,
{
    let w = s.subrange(j, j + len);
    let it = literal_item(s[j]);
    let f = symbol_fragment::<T>(it);
    lemma_literal_token(s, j);
    lemma_symbol_well_formed::<T>(it);
    assert(w[0] == s[j]);
    assert(spec_item::<T>(s, j) == Ok::<(Seq<Seq<(NfaState<T>, usize)>>, int), RegexError>((f, j + 1)));
    if len > 1 {
        lemma_literal_token(s, j + 1);
        assert(parse_suffix(s, j + 1) == Ok::<Option<(RepConfig, int)>, RegexError>(None));
    }
    assert(spec_repeated::<T>(s, j) == Ok::<(Seq<Seq<(NfaState<T>, usize)>>, int), RegexError>((f, j + 1)));
    if len == 1 {
        assert(literal_fragment::<T>(w) == f);
    } else {
        let w2 = s.subrange(j + 1, j + len);
        assert(w2 =~= w.drop_first());
        lemma_literal_run::<T>(s, j + 1, len - 1, open, g, k);
        lemma_literal_fragment::<T>(w2);
        let rest = join_fragments(literal_fragment::<T>(w2), g);
        match g {
            Some(h) => {
                lemma_concat_well_formed(literal_fragment::<T>(w2), literal_fragment::<T>(w2).len() - 1, h);
                lemma_concat_tail_assoc(f, literal_fragment::<T>(w2), h);
            },
            None => {},
        }
        assert(literal_fragment::<T>(w) == spec_concat_tail(f, literal_fragment::<T>(w2)));
    }
}

/// Grouping is associative for patterns of literal characters: with `a`, `b`
/// and `c` non-empty runs of literal characters, the patterns `(ab)c` and
/// `a(bc)` both compile, to the same automaton, so they accept the same
/// strings with the same terminals.
#[verifier::rlimit(40)]
pub proof fn lemma_group_assoc<T>(a: Seq<char>, b: Seq<char>, c: Seq<char>, t: T)
    requires
        a.len() >= 1,
        b.len() >= 1,
        c.len() >= 1,
        forall|x: int| 0 <= x < a.len() ==> is_literal_char(#[trigger] a[x]),
        forall|x: int| 0 <= x < b.len() ==> is_literal_char(#[trigger] b[x]),
        forall|x: int| 0 <= x < c.len() ==> is_literal_char(#[trigger] c[x]),
        2 * (a.len() + b.len() + c.len()) <= usize::MAX,
    ensures
        spec_compile(seq!['('] + a + b + seq![')'] + c, t) is Ok,
        spec_compile(a + seq!['('] + b + c + seq![')'], t) == spec_compile(seq!['('] + a + b + seq![')'] + c, t),
        forall|q: Seq<char>| #[trigger] run_spec(spec_compile(a + seq!['('] + b + c + seq![')'], t)->Ok_0, q)
            == run_spec(spec_compile(seq!['('] + a + b + seq![')'] + c, t)->Ok_0, q),
{
    let la = a.len() as int;
    let lb = b.len() as int;
    let lc = c.len() as int;
    lemma_literal_fragment::<T>(a);
    lemma_literal_fragment::<T>(b);
    lemma_literal_fragment::<T>(c);
    let fa = literal_fragment::<T>(a);
    let fb = literal_fragment::<T>(b);
    let fc = literal_fragment::<T>(c);
    let none = Option::<Seq<Seq<(NfaState<T>, usize)>>>::None;

    // (ab)c
    let l = seq!['('] + a + b + seq![')'] + c;
    let e = 1 + la + lb;
    let n = e + 1 + lc;
    assert(l.len() == n);
    assert(l[0] == '(');
    assert(l[e] == ')');
    assert(forall|x: int| 1 <= x < 1 + la ==> #[trigger] l[x] == a[x - 1]);
    assert(forall|x: int| 1 + la <= x < e ==> #[trigger] l[x] == b[x - 1 - la]);
    assert(forall|x: int| e + 1 <= x < n ==> #[trigger] l[x] == c[x - e - 1]);
    assert(l.subrange(1, 1 + la) =~= a);
    assert(l.subrange(1 + la, e) =~= b);
    assert(l.subrange(e + 1, n) =~= c);
    assert(next_token(l, e) == Ok::<Option<(Item, int)>, RegexError>(Some((Item::BracketR, e + 1))));
    assert(parse_suffix(l, e) == Ok::<Option<(RepConfig, int)>, RegexError>(None));
    assert(spec_items::<T>(l, e, Some(0)) == Ok::<(Option<Seq<Seq<(NfaState<T>, usize)>>>, int), RegexError>(
        (none, e + 1),
    ));
    lemma_literal_run::<T>(l, 1 + la, lb, Some(0), none, e + 1);
    lemma_literal_token(l, 1 + la);
    assert(parse_suffix(l, 1 + la) == Ok::<Option<(RepConfig, int)>, RegexError>(None));
    lemma_literal_run::<T>(l, 1, la, Some(0), Some(fb), e + 1);
    let g = spec_concat_tail(fa, fb);
    lemma_concat_well_formed(fa, fa.len() - 1, fb);
    assert(next_token(l, 0) == Ok::<Option<(Item, int)>, RegexError>(Some((Item::BracketL, 1))));
    assert(spec_item::<T>(l, 0) == Ok::<(Seq<Seq<(NfaState<T>, usize)>>, int), RegexError>((g, e + 1)));
    lemma_literal_token(l, e + 1);
    assert(parse_suffix(l, e + 1) == Ok::<Option<(RepConfig, int)>, RegexError>(None));
    assert(spec_repeated::<T>(l, 0) == Ok::<(Seq<Seq<(NfaState<T>, usize)>>, int), RegexError>((g, e + 1)));
    assert(parse_suffix(l, n) == Ok::<Option<(RepConfig, int)>, RegexError>(None));
    assert(spec_items::<T>(l, n, None) == Ok::<(Option<Seq<Seq<(NfaState<T>, usize)>>>, int), RegexError>((none, n)));
    lemma_literal_run::<T>(l, e + 1, lc, None, none, n);
    assert(spec_items::<T>(l, 0, None) == Ok::<(Option<Seq<Seq<(NfaState<T>, usize)>>>, int), RegexError>(
        (Some(spec_concat_tail(g, fc)), n),
    ));

    // a(bc)
    let r = a + seq!['('] + b + c + seq![')'];
    let p = la;
    let e2 = p + 1 + lb + lc;
    let n2 = e2 + 1;
    assert(r.len() == n2);
    assert(r[p] == '(');
    assert(r[e2] == ')');
    assert(forall|x: int| 0 <= x < la ==> #[trigger] r[x] == a[x]);
    assert(forall|x: int| p + 1 <= x < p + 1 + lb ==> #[trigger] r[x] == b[x - p - 1]);
    assert(forall|x: int| p + 1 + lb <= x < e2 ==> #[trigger] r[x] == c[x - p - 1 - lb]);
    assert(r.subrange(0, la) =~= a);
    assert(r.subrange(p + 1, p + 1 + lb) =~= b);
    assert(r.subrange(p + 1 + lb, e2) =~= c);
    assert(next_token(r, e2) == Ok::<Option<(Item, int)>, RegexError>(Some((Item::BracketR, n2))));
    assert(parse_suffix(r, e2) == Ok::<Option<(RepConfig, int)>, RegexError>(None));
    assert(spec_items::<T>(r, e2, Some(p as usize)) == Ok::<(Option<Seq<Seq<(NfaState<T>, usize)>>>, int), RegexError>(
        (none, n2),
    ));
    lemma_literal_run::<T>(r, p + 1 + lb, lc, Some(p as usize), none, n2);
    lemma_literal_token(r, p + 1 + lb);
    assert(parse_suffix(r, p + 1 + lb) == Ok::<Option<(RepConfig, int)>, RegexError>(None));
    lemma_literal_run::<T>(r, p + 1, lb, Some(p as usize), Some(fc), n2);
    let h = spec_concat_tail(fb, fc);
    lemma_concat_well_formed(fb, fb.len() - 1, fc);
    assert(next_token(r, p) == Ok::<Option<(Item, int)>, RegexError>(Some((Item::BracketL, p + 1))));
    assert(spec_item::<T>(r, p) == Ok::<(Seq<Seq<(NfaState<T>, usize)>>, int), RegexError>((h, n2)));
    assert(parse_suffix(r, n2) == Ok::<Option<(RepConfig, int)>, RegexError>(None));
    assert(spec_repeated::<T>(r, p) == Ok::<(Seq<Seq<(NfaState<T>, usize)>>, int), RegexError>((h, n2)));
    assert(spec_items::<T>(r, n2, None) == Ok::<(Option<Seq<Seq<(NfaState<T>, usize)>>>, int), RegexError>((none, n2)));
    assert(spec_items::<T>(r, p, None) == Ok::<(Option<Seq<Seq<(NfaState<T>, usize)>>>, int), RegexError>(
        (Some(h), n2),
    ));
    assert(parse_suffix(r, p) == Ok::<Option<(RepConfig, int)>, RegexError>(None));
    lemma_literal_run::<T>(r, 0, la, None, Some(h), n2);
    lemma_concat_tail_assoc(fa, fb, fc);
}

} // verus!
