//! The execution engine: a path-enumerating walk of an automaton over a query.
//!
//! From a node, the walk first reports the node's terminal markers, then
//! follows its epsilon transitions, then the content transitions whose item
//! accepts the next query character, each in the order they were added. An
//! epsilon transition is not followed into a node already entered since the
//! last consumed character, so every walk ends, also on automata with epsilon
//! cycles. Terminals found along different paths are all reported.
use vstd::prelude::*;
use crate::automaton::{Automaton, NfaState};
use crate::regex_tokenizer::item_matches;

verus! {

/// Marks for a fresh epsilon chain that has entered only node `t`.
pub open spec fn fresh_marks(n: int, t: int) -> Seq<bool> {
    Seq::new(n as nat, |k: int| k == t)
}

/// The terminals, each with the query position where it was reached, found
/// from `node` at position `pos` of `q`, starting at transition `j` of phase
/// `phase` (0: terminal transitions, 1: epsilon transitions, 2: content
/// transitions) and going on through the later transitions and phases.
/// `marks` holds the nodes entered since the last consumed character, `depth`
/// how many there are. With `full`, a terminal counts only once the whole
/// query is consumed.
pub open spec fn walk<T>(
    a: Seq<Seq<(NfaState<T>, usize)>>,
    q: Seq<char>,
    full: bool,
    pos: int,
    node: int,
    marks: Seq<bool>,
    depth: int,
    phase: int,
    j: int,
) -> Seq<(T, usize)>
    decreases q.len() - pos, a.len() - depth, 3 - phase, a[node].len() - j,
{
    if !(0 <= node < a.len() && 0 <= pos <= q.len() && 0 <= phase < 3 && 0 <= j && marks.len() == a.len()) {
        Seq::empty()
    } else if j >= a[node].len() {
        walk(a, q, full, pos, node, marks, depth, phase + 1, 0)
    } else {
        let e = a[node][j];
        let t = e.1 as int;
        let here = if phase == 0 {
            match e.0 {
                NfaState::NfaTerminal(m) => if !full || pos == q.len() {
                    seq![(m, pos as usize)]
                } else {
                    Seq::empty()
                },
                _ => Seq::empty(),
            }
        } else if phase == 1 {
            if e.0 is Epsilon && t < a.len() && !marks[t] && 0 <= depth < a.len() {
                walk(a, q, full, pos, t, marks.update(t, true), depth + 1, 0, 0)
            } else {
                Seq::empty()
            }
        } else {
            match e.0 {
                NfaState::NfaContent(it) => if pos < q.len() && item_matches(it, q[pos]) && t < a.len() {
                    walk(a, q, full, pos + 1, t, fresh_marks(a.len() as int, t), 1, 0, 0)
                } else {
                    Seq::empty()
                },
                _ => Seq::empty(),
            }
        };
        here + walk(a, q, full, pos, node, marks, depth, phase, j + 1)
    }
}

/// Every terminal reached from the start node, each with the query position
/// at which it was reached (`full`: only those reached at the end).
pub open spec fn walk_from_start<T>(a: Seq<Seq<(NfaState<T>, usize)>>, q: Seq<char>, full: bool, pos: int) -> Seq<(T, usize)> {
    if a.len() == 0 {
        Seq::empty()
    } else {
        walk(a, q, full, pos, 0, fresh_marks(a.len() as int, 0), 1, 0, 0)
    }
}

/// The terminal markers of every accepting path of `a` over the whole of `q`,
/// in discovery order.
pub open spec fn run_spec<T>(a: Seq<Seq<(NfaState<T>, usize)>>, q: Seq<char>) -> Seq<T> {
    walk_from_start(a, q, true, 0).map_values(|p: (T, usize)| p.0)
}

fn fresh_mark_vec(n: usize, t: usize) -> (r: Vec<bool>)
    requires
        t < n,
    ensures
        r@ == fresh_marks(n as int, t as int),
{
    let mut r: Vec<bool> = Vec::new();
    let mut k: usize = 0;
    while k < n
        invariant
            k <= n,
            r@ == fresh_marks(n as int, t as int).subrange(0, k as int),
        decreases n - k,
    {
        r.push(k == t);
        k = k + 1;
        proof {
            assert(r@ =~= fresh_marks(n as int, t as int).subrange(0, k as int));
        }
    }
    proof {
        assert(r@ =~= fresh_marks(n as int, t as int));
    }
    r
}

impl<T: Copy> Automaton<T> {
    fn walk_node(
        &self,
        query: &Vec<char>,
        full: bool,
        pos: usize,
        node: usize,
        marks: &mut Vec<bool>,
        depth: usize,
        out: &mut Vec<(T, usize)>,
    )
        requires
            node < self@.len(),
            pos <= query@.len(),
            old(marks)@.len() == self@.len(),
            depth <= self@.len(),
        ensures
            final(out)@ == old(out)@ + walk(self@, query@, full, pos as int, node as int, old(marks)@, depth as int, 0, 0),
            final(marks)@ == old(marks)@,
        decreases query@.len() - pos, self@.len() - depth,
    {
        let ghost a = self@;
        let ghost q = query@;
        let ghost m0 = marks@;
        let ghost out0 = out@;
        let n = self.len();
        let nd = self.node(node);
        let deg = nd.len();
        let mut phase: usize = 0;
        while phase < 3
            invariant
                a == self@,
                q == query@,
                n == a.len(),
                node < n,
                pos <= q.len(),
                depth <= n,
                nd@ == a[node as int],
                deg == nd@.len(),
                phase <= 3,
                marks@ == m0,
                m0.len() == n,
                out0 + walk(a, q, full, pos as int, node as int, m0, depth as int, 0, 0)
                    == out@ + walk(a, q, full, pos as int, node as int, m0, depth as int, phase as int, 0),
            decreases 3 - phase,
        {
            let mut j: usize = 0;
            while j < deg
                invariant
                    a == self@,
                    q == query@,
                    n == a.len(),
                    node < n,
                    pos <= q.len(),
                    depth <= n,
                    nd@ == a[node as int],
                    deg == nd@.len(),
                    phase < 3,
                    j <= deg,
                    marks@ == m0,
                    m0.len() == n,
                    out0 + walk(a, q, full, pos as int, node as int, m0, depth as int, 0, 0)
                        == out@ + walk(a, q, full, pos as int, node as int, m0, depth as int, phase as int, j as int),
                decreases deg - j,
            {
                let (state, target) = nd.transition(j);
                let ghost rest = walk(a, q, full, pos as int, node as int, m0, depth as int, phase as int, j as int + 1);
                if phase == 0 {
                    if let NfaState::NfaTerminal(m) = state {
                        if !full || pos == query.len() {
                            out.push((m, pos));
                        }
                    }
                } else if phase == 1 {
                    if let NfaState::Epsilon = state {
                        if target < n && !marks[target] && depth < n {
                            marks.set(target, true);
                            self.walk_node(query, full, pos, target, marks, depth + 1, out);
                            marks.set(target, false);
                            proof {
                                assert(marks@ =~= m0);
                            }
                        }
                    }
                } else {
                    if let NfaState::NfaContent(it) = state {
                        if pos < query.len() && it.matches_char(query[pos]) && target < n {
                            let mut fresh = fresh_mark_vec(n, target);
                            self.walk_node(query, full, pos + 1, target, &mut fresh, 1, out);
                        }
                    }
                }
                proof {
                    assert(out0 + walk(a, q, full, pos as int, node as int, m0, depth as int, 0, 0) =~= out@ + rest);
                }
                j = j + 1;
            }
            phase = phase + 1;
        }
    }

    /// Every terminal reachable from the start node, reading `query` from
    /// position `idx`, each paired with the query position at which it was
    /// reached; one entry per path.
    pub fn collect_terminal(&self, query: &Vec<char>, idx: usize) -> (r: Vec<(T, usize)>)
        requires
            idx <= query@.len(),
        ensures
            r@ == walk_from_start(self@, query@, false, idx as int),
    {
        let mut out: Vec<(T, usize)> = Vec::new();
        let n = self.len();
        if n == 0 {
            return out;
        }
        let mut marks = fresh_mark_vec(n, 0);
        self.walk_node(query, false, idx, 0, &mut marks, 1, &mut out);
        proof {
            assert(out@ =~= walk_from_start(self@, query@, false, idx as int));
        }
        out
    }

    /// The terminal markers of every path that consumes the whole of
    /// `search_string` and ends in an accepting node, in discovery order.
    pub fn run(&self, search_string: &str) -> (r: Vec<T>)
        ensures
            r@ == run_spec(self@, search_string@),
    {
        let n_chars = search_string.unicode_len();
        let mut query: Vec<char> = Vec::new();
        let mut i: usize = 0;
        while i < n_chars
            invariant
                n_chars == search_string@.len(),
                i <= n_chars,
                query@ == search_string@.subrange(0, i as int),
            decreases n_chars - i,
        {
            query.push(search_string.get_char(i));
            i = i + 1;
        }
        proof {
            assert(query@ =~= search_string@);
        }
        let mut found: Vec<(T, usize)> = Vec::new();
        let n = self.len();
        if n > 0 {
            let mut marks = fresh_mark_vec(n, 0);
            self.walk_node(&query, true, 0, 0, &mut marks, 1, &mut found);
        }
        let ghost w = walk_from_start(self@, query@, true, 0);
        proof {
            assert(found@ =~= w);
        }
        let mut res: Vec<T> = Vec::new();
        let mut k: usize = 0;
        while k < found.len()
            invariant
                found@ == w,
                k <= found@.len(),
                res@ == w.map_values(|p: (T, usize)| p.0).subrange(0, k as int),
            decreases found@.len() - k,
        {
            res.push(found[k].0);
            k = k + 1;
            proof {
                assert(res@ =~= w.map_values(|p: (T, usize)| p.0).subrange(0, k as int));
            }
        }
        proof {
            assert(res@ =~= run_spec(self@, search_string@));
        }
        res
    }
}

} // verus!
