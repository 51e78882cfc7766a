//! The construction algebra: splicing automaton fragments together
//! (concatenation through an epsilon transition, with index renumbering) and
//! unrolling repetitions.
use vstd::prelude::*;
use crate::run::run_spec;
use crate::automaton::{
    add_edge, shift, shift_edge, shift_node, targets_below, well_formed, Automaton, NfaNode, NfaState,
};

verus! {

/// `a` with fragment `f` appended after it and an epsilon transition from node
/// `src` to the fragment's first node; the fragment's targets are shifted by
/// the length of `a`.
pub open spec fn spec_concat<T>(
    a: Seq<Seq<(NfaState<T>, usize)>>,
    src: int,
    f: Seq<Seq<(NfaState<T>, usize)>>,
) -> Seq<Seq<(NfaState<T>, usize)>> {
    add_edge(a, src, (NfaState::Epsilon, a.len() as usize)) + shift(f, a.len() as int)
}

/// `f` chained after the last node of `a`.
pub open spec fn spec_concat_tail<T>(
    a: Seq<Seq<(NfaState<T>, usize)>>,
    f: Seq<Seq<(NfaState<T>, usize)>>,
) -> Seq<Seq<(NfaState<T>, usize)>> {
    spec_concat(a, a.len() - 1, f)
}

/// `n` copies of `f` chained after `a`, one after the other.
pub open spec fn spec_concat_tail_n<T>(
    a: Seq<Seq<(NfaState<T>, usize)>>,
    f: Seq<Seq<(NfaState<T>, usize)>>,
    n: nat,
) -> Seq<Seq<(NfaState<T>, usize)>>
    decreases n,
{
    if n == 0 {
        a
    } else {
        spec_concat_tail(spec_concat_tail_n(a, f, (n - 1) as nat), f)
    }
}

/// The index-shift invariant: splicing one well-formed automaton into
/// another, from any of its nodes, gives a well-formed automaton, and the
/// length grows by exactly the fragment's length.
pub proof fn lemma_concat_well_formed<T>(
    a: Seq<Seq<(NfaState<T>, usize)>>,
    src: int,
    f: Seq<Seq<(NfaState<T>, usize)>>,
)
    requires
        well_formed(a),
        well_formed(f),
        f.len() > 0,
        0 <= src < a.len(),
        a.len() + f.len() <= usize::MAX,
    ensures
        well_formed(spec_concat(a, src, f)),
        spec_concat(a, src, f).len() == a.len() + f.len(),
{
    let r = spec_concat(a, src, f);
    let n = r.len() as int;
    assert forall|i: int| 0 <= i < r.len() implies targets_below(#[trigger] r[i], n) by {
        if i < a.len() {
            assert(targets_below(a[i], a.len() as int));
            if i == src {
                assert forall|j: int| 0 <= j < r[i].len() && !((#[trigger] r[i][j]).0 is NfaTerminal) implies r[i][j].1 < n by {
                    assert(r[i] == a[i].push((NfaState::<T>::Epsilon, a.len() as usize)));
                    if j < a[i].len() {
                        assert(r[i][j] == a[i][j]);
                    }
                }
            }
        } else {
            let k = i - a.len();
            assert(targets_below(f[k], f.len() as int));
            assert(r[i] == shift_node(f[k], a.len() as int));
            assert forall|j: int| 0 <= j < r[i].len() && !((#[trigger] r[i][j]).0 is NfaTerminal) implies r[i][j].1 < n by {
                assert(r[i][j] == shift_edge(f[k][j], a.len() as int));
            }
        }
    }
}

/// Chaining `n` copies of a well-formed fragment keeps an automaton
/// well-formed, and adds `n` times the fragment's length.
pub proof fn lemma_concat_tail_n<T>(
    a: Seq<Seq<(NfaState<T>, usize)>>,
    f: Seq<Seq<(NfaState<T>, usize)>>,
    n: nat,
)
    requires
        well_formed(a),
        well_formed(f),
        f.len() > 0,
        a.len() > 0,
        a.len() + n * f.len() <= usize::MAX,
    ensures
        well_formed(spec_concat_tail_n(a, f, n)),
        spec_concat_tail_n(a, f, n).len() == a.len() + n * f.len(),
    decreases n,
{
    if n > 0 {
        let m = (n - 1) as nat;
        assert(a.len() + m * f.len() <= a.len() + n * f.len()) by (nonlinear_arith)
            requires
                m < n,
        ;
        assert(n * f.len() == m * f.len() + f.len()) by (nonlinear_arith)
            requires
                m == n - 1,
        ;
        lemma_concat_tail_n(a, f, m);
        let b = spec_concat_tail_n(a, f, m);
        lemma_concat_well_formed(b, b.len() - 1, f);
    } else {
        assert(n * f.len() == 0) by (nonlinear_arith)
            requires
                n == 0,
        ;
    }
}

/// Shifting twice is shifting once by the sum, as long as no target overflows.
proof fn lemma_shift_shift<T>(c: Seq<Seq<(NfaState<T>, usize)>>, x: int, y: int)
    requires
        well_formed(c),
        0 <= x,
        0 <= y,
        c.len() + x + y <= usize::MAX,
    ensures
        shift(shift(c, x), y) == shift(c, x + y),
{
    assert forall|i: int| 0 <= i < c.len() implies #[trigger] shift(shift(c, x), y)[i] == shift(c, x + y)[i] by {
        assert(targets_below(c[i], c.len() as int));
        assert(shift_node(shift_node(c[i], x), y) =~= shift_node(c[i], x + y));
    }
    assert(shift(shift(c, x), y) =~= shift(c, x + y));
}

/// Concatenation is associative: chaining `b` after `a` and then `c` builds
/// the same automaton as chaining `a` before `b` already followed by `c`, so
/// the two accept the same strings with the same terminals.
pub proof fn lemma_concat_tail_assoc<T>(
    a: Seq<Seq<(NfaState<T>, usize)>>,
    b: Seq<Seq<(NfaState<T>, usize)>>,
    c: Seq<Seq<(NfaState<T>, usize)>>,
)
    requires
        well_formed(b),
        well_formed(c),
        a.len() > 0,
        b.len() > 0,
        a.len() + b.len() + c.len() <= usize::MAX,
    ensures
        spec_concat_tail(spec_concat_tail(a, b), c) == spec_concat_tail(a, spec_concat_tail(b, c)),
        forall|q: Seq<char>| #[trigger] run_spec(spec_concat_tail(spec_concat_tail(a, b), c), q) == run_spec(
            spec_concat_tail(a, spec_concat_tail(b, c)),
            q,
        ),
{
    let la = a.len() as int;
    let lb = b.len() as int;
    let ab = spec_concat_tail(a, b);
    let bc = spec_concat_tail(b, c);
    let eps_b = (NfaState::<T>::Epsilon, lb as usize);
    let left = spec_concat_tail(ab, c);
    let right = spec_concat_tail(a, bc);
    lemma_shift_shift(c, lb, la);
    assert forall|i: int| 0 <= i < left.len() implies #[trigger] left[i] == right[i] by {
        if i < la {
            assert(left[i] == ab[i]);
        } else if i < la + lb {
            let k = i - la;
            assert(right[i] == shift_node(bc[k], la));
            if k == lb - 1 {
                assert(bc[k] == b[k].push(eps_b));
                assert(left[i] == shift_node(b[k], la).push((NfaState::<T>::Epsilon, (la + lb) as usize)));
                assert(shift_node(b[k].push(eps_b), la) =~= shift_node(b[k], la).push(
                    (NfaState::<T>::Epsilon, (la + lb) as usize),
                ));
            } else {
                assert(bc[k] == b[k]);
                assert(left[i] == shift_node(b[k], la));
            }
        } else {
            let k = i - la - lb;
            assert(left[i] == shift(c, la + lb)[k]);
            assert(right[i] == shift_node(bc[lb + k], la));
            assert(bc[lb + k] == shift(c, lb)[k]);
            assert(shift(shift(c, lb), la)[k] == shift_node(shift(c, lb)[k], la));
        }
    }
    assert(left =~= right);
}

impl<T: Copy> Automaton<T> {
    /// A node-for-node copy.
    pub fn duplicate(&self) -> (r: Self)
        ensures
            r@ == self@,
    {
        let mut res = Automaton::new();
        let n = self.len();
        let mut i: usize = 0;
        while i < n
            invariant
                n == self@.len(),
                i <= n,
                res@ == self@.subrange(0, i as int),
            decreases n - i,
        {
            let node = self.node(i);
            let mut copy = NfaNode::new();
            let m = node.len();
            let mut j: usize = 0;
            while j < m
                invariant
                    m == node@.len(),
                    j <= m,
                    copy@ == node@.subrange(0, j as int),
                decreases m - j,
            {
                let (state, target) = node.transition(j);
                copy.add_transition(state, target);
                j = j + 1;
                proof {
                    assert(copy@ =~= node@.subrange(0, j as int));
                }
            }
            proof {
                assert(copy@ =~= node@);
            }
            res.push(copy);
            i = i + 1;
            proof {
                assert(res@ =~= self@.subrange(0, i as int));
            }
        }
        proof {
            assert(res@ =~= self@);
        }
        res
    }

    /// Appends `cat_nfa` after this automaton and links node `source_idx` to
    /// the first appended node with an epsilon transition.
    pub fn concat(&mut self, source_idx: usize, cat_nfa: Self)
        requires
            source_idx < old(self)@.len(),
            old(self)@.len() + cat_nfa@.len() <= usize::MAX,
            well_formed(cat_nfa@),
        ensures
            final(self)@ == spec_concat(old(self)@, source_idx as int, cat_nfa@),
            final(self)@.len() == old(self)@.len() + cat_nfa@.len(),
    {
        let current_len = self.len();
        assert forall|i: int| 0 <= i < cat_nfa@.len() implies targets_below(
            #[trigger] cat_nfa@[i],
            usize::MAX + 1 - current_len,
        ) by {
            assert(targets_below(cat_nfa@[i], cat_nfa@.len() as int));
        }
        let shifted = cat_nfa.increment_all_index(current_len);
        self.add_epsilon_idx_node(source_idx, current_len);
        self.append_vec(shifted);
    }

    /// Chains `cat_nfa` after the last node.
    pub fn concat_tail(&mut self, cat_nfa: Self)
        requires
            old(self)@.len() > 0,
            old(self)@.len() + cat_nfa@.len() <= usize::MAX,
            well_formed(cat_nfa@),
        ensures
            final(self)@ == spec_concat_tail(old(self)@, cat_nfa@),
    {
        let last = self.len() - 1;
        self.concat(last, cat_nfa);
    }

    /// Chains `times` copies of `cat_nfa` after the last node, one after the
    /// other.
    pub fn concat_tail_n_times(&mut self, cat_nfa: Self, times: usize)
        requires
            old(self)@.len() > 0,
            well_formed(old(self)@),
            well_formed(cat_nfa@),
            cat_nfa@.len() > 0,
            old(self)@.len() + times * cat_nfa@.len() <= usize::MAX,
        ensures
            final(self)@ == spec_concat_tail_n(old(self)@, cat_nfa@, times as nat),
    {
        let mut i: usize = 0;
        while i < times
            invariant
                old(self)@.len() > 0,
                well_formed(old(self)@),
                well_formed(cat_nfa@),
                cat_nfa@.len() > 0,
                old(self)@.len() + times * cat_nfa@.len() <= usize::MAX,
                i <= times,
                self@ == spec_concat_tail_n(old(self)@, cat_nfa@, i as nat),
            decreases times - i,
        {
            proof {
                let fl = cat_nfa@.len();
                assert(i * fl <= times * fl) by (nonlinear_arith)
                    requires
                        i < times,
                ;
                lemma_concat_tail_n(old(self)@, cat_nfa@, i as nat);
                assert((i + 1) * fl <= times * fl) by (nonlinear_arith)
                    requires
                        i < times,
                ;
                assert((i + 1) * fl == i * fl + fl) by (nonlinear_arith);
            }
            let copy = cat_nfa.duplicate();
            self.concat_tail(copy);
            i = i + 1;
        }
    }
}

/// `a` with an epsilon transition from node `i * len` to node `target`, for
/// each `i` from `from` up to (not including) `to`.
pub open spec fn add_skips<T>(
    a: Seq<Seq<(NfaState<T>, usize)>>,
    from: int,
    to: int,
    len: int,
    target: int,
) -> Seq<Seq<(NfaState<T>, usize)>>
    decreases to - from,
{
    if from >= to {
        a
    } else {
        add_skips(add_edge(a, from * len, (NfaState::Epsilon, target as usize)), from + 1, to, len, target)
    }
}

/// The number of copies of the fragment that a repetition unrolls.
pub open spec fn rep_copies(min: usize, max: Option<usize>) -> nat {
    match max {
        Some(n) => n as nat,
        None => if min == 0 {
            1
        } else {
            min as nat
        },
    }
}

/// The automaton for fragment `f` repeated between `min` and `max` times
/// (`max` absent: no upper bound). The copies are chained after a single
/// empty start node, so copy `i` ends at node `i * f.len()`.
/// - `{m,n}`, `m < n`: an epsilon transition from the end of each copy
///   `m..n` to the end of the last one makes those copies optional;
/// - `{m,}`: an epsilon transition from the end of the last copy back to its
///   start allows more repeats; with `m == 0` one more, from the start node to
///   the end of the copy, allows none.
pub open spec fn spec_rep<T>(
    min: usize,
    max: Option<usize>,
    f: Seq<Seq<(NfaState<T>, usize)>>,
) -> Seq<Seq<(NfaState<T>, usize)>> {
    let k = rep_copies(min, max);
    let len = f.len() as int;
    let base = spec_concat_tail_n(seq![Seq::<(NfaState<T>, usize)>::empty()], f, k);
    match max {
        Some(n) => add_skips(base, min as int, n as int, len, n * len),
        None => {
            let looped = add_edge(base, k * len, (NfaState::Epsilon, ((k - 1) * len) as usize));
            if min == 0 {
                add_edge(looped, 0, (NfaState::Epsilon, len as usize))
            } else {
                looped
            }
        },
    }
}

/// A repetition suffix: at least `min` and at most `max` repeats (`max`
/// absent: unbounded).
#[derive(Debug, Clone, Copy, PartialEq, Eq)]
pub struct RepConfig {
    pub min: usize,
    pub max: Option<usize>,
}

impl RepConfig {
    pub fn new(min: usize, max: Option<usize>) -> (r: RepConfig)
        ensures
            r.min == min,
            r.max == max,
    {
        RepConfig { min, max }
    }

    /// Unrolls `nfa` into the automaton for this repetition.
    pub fn nfa<T: Copy>(self, nfa: Automaton<T>) -> (r: Automaton<T>)
        requires
            well_formed(nfa@),
            nfa@.len() > 0,
            self.max matches Some(n) ==> self.min <= n,
            1 + rep_copies(self.min, self.max) * nfa@.len() <= usize::MAX,
        ensures
            r@ == spec_rep(self.min, self.max, nfa@),
            well_formed(r@),
            r@.len() == 1 + rep_copies(self.min, self.max) * nfa@.len(),
    {
        let base_len = nfa.len();
        let min = self.min;
        let copies: usize = match self.max {
            Some(n) => n,
            None => if min == 0 {
                1
            } else {
                min
            },
        };
        let ghost f = nfa@;
        let mut res: Automaton<T> = Automaton::new();
        res.push(NfaNode::new());
        let ghost start = res@;
        proof {
            assert(start =~= seq![Seq::<(NfaState<T>, usize)>::empty()]);
            assert(well_formed(start));
            lemma_concat_tail_n(start, f, copies as nat);
        }
        res.concat_tail_n_times(nfa, copies);
        let ghost base = res@;
        proof {
            assert(min * base_len <= copies * base_len) by (nonlinear_arith)
                requires
                    min <= copies,
            ;
        }
        match self.max {
            Some(n) => {
                let end = n * base_len;
                let mut i: usize = min;
                while i < n
                    invariant
                        min <= i <= n,
                        n == copies,
                        end == n * base_len,
                        base.len() == 1 + copies * base_len,
                        well_formed(res@),
                        res@.len() == base.len(),
                        add_skips(res@, i as int, n as int, base_len as int, end as int)
                            == add_skips(base, min as int, n as int, base_len as int, end as int),
                    decreases n - i,
                {
                    proof {
                        assert(i * base_len < n * base_len + 1) by (nonlinear_arith)
                            requires
                                i < n,
                        ;
                    }
                    let ghost before = res@;
                    res.add_epsilon_idx_node(i * base_len, end);
                    proof {
                        assert forall|k: int| 0 <= k < res@.len() implies targets_below(#[trigger] res@[k], res@.len() as int) by {
                            assert(targets_below(before[k], before.len() as int));
                            if k == i * base_len {
                                assert forall|j: int| 0 <= j < res@[k].len() && !((#[trigger] res@[k][j]).0 is NfaTerminal) implies res@[k][j].1 < res@.len() by {
                                    if j < before[k].len() {
                                        assert(res@[k][j] == before[k][j]);
                                    }
                                }
                            }
                        }
                    }
                    i = i + 1;
                }
            },
            None => {
                proof {
                    assert(copies * base_len - base_len == (copies - 1) * base_len) by (nonlinear_arith);
                    assert(copies * base_len >= base_len) by (nonlinear_arith)
                        requires
                            copies >= 1,
                    ;
                }
                let last = copies * base_len;
                let ghost before = res@;
                res.add_epsilon_idx_node(last, last - base_len);
                proof {
                    assert forall|k: int| 0 <= k < res@.len() implies targets_below(#[trigger] res@[k], res@.len() as int) by {
                        assert(targets_below(before[k], before.len() as int));
                        if k == last {
                            assert forall|j: int| 0 <= j < res@[k].len() && !((#[trigger] res@[k][j]).0 is NfaTerminal) implies res@[k][j].1 < res@.len() by {
                                if j < before[k].len() {
                                    assert(res@[k][j] == before[k][j]);
                                }
                            }
                        }
                    }
                }
                if min == 0 {
                    let ghost before2 = res@;
                    res.add_epsilon_idx_node(0, base_len);
                    proof {
                        assert forall|k: int| 0 <= k < res@.len() implies targets_below(#[trigger] res@[k], res@.len() as int) by {
                            assert(targets_below(before2[k], before2.len() as int));
                            if k == 0 {
                                assert forall|j: int| 0 <= j < res@[k].len() && !((#[trigger] res@[k][j]).0 is NfaTerminal) implies res@[k][j].1 < res@.len() by {
                                    if j < before2[k].len() {
                                        assert(res@[k][j] == before2[k][j]);
                                    }
                                }
                            }
                        }
                    }
                }
            },
        }
        res
    }
}

} // verus!
