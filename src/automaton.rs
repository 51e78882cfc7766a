//! The automaton core: an ordered, 0-indexed sequence of nodes, each holding a
//! list of (state, target index) transitions. Node 0 is the start node.
use vstd::prelude::*;
use crate::regex_tokenizer::{item_matches, Item};

verus! {

/// The label of a transition.
#[derive(Debug, Clone, Copy, PartialEq, Eq)]
pub enum NfaState<T> {
    /// Accepting: carries the caller's marker; its target index is unused.
    NfaTerminal(T),
    /// Consumes one input character that the item accepts.
    NfaContent(Item),
    /// Consumes no input.
    Epsilon,
}

impl<T: Copy> NfaState<T> {
    pub fn from_content(content: Item) -> (r: Self)
        ensures
            r == NfaState::<T>::NfaContent(content),
    {
        NfaState::NfaContent(content)
    }

    pub fn from_terminal(terminal: T) -> (r: Self)
        ensures
            r == NfaState::<T>::NfaTerminal(terminal),
    {
        NfaState::NfaTerminal(terminal)
    }

    pub fn from_epsilon() -> (r: Self)
        ensures
            r == NfaState::<T>::Epsilon,
    {
        NfaState::Epsilon
    }

    pub fn is_terminal(&self) -> (r: bool)
        ensures
            r == self is NfaTerminal,
    {
        matches!(self, NfaState::NfaTerminal(_))
    }
}

/// A transition moved `inc` places further along; terminal transitions keep
/// their (unused) index.
pub open spec fn shift_edge<T>(e: (NfaState<T>, usize), inc: int) -> (NfaState<T>, usize) {
    match e.0 {
        NfaState::NfaTerminal(_) => e,
        _ => (e.0, (e.1 + inc) as usize),
    }
}

pub open spec fn shift_node<T>(n: Seq<(NfaState<T>, usize)>, inc: int) -> Seq<(NfaState<T>, usize)> {
    n.map_values(|e: (NfaState<T>, usize)| shift_edge(e, inc))
}

/// Every node of `a` with its non-terminal targets moved `inc` places further.
pub open spec fn shift<T>(a: Seq<Seq<(NfaState<T>, usize)>>, inc: int) -> Seq<Seq<(NfaState<T>, usize)>> {
    a.map_values(|n: Seq<(NfaState<T>, usize)>| shift_node(n, inc))
}

/// Every non-terminal transition of node `n` targets an index below `bound`.
pub open spec fn targets_below<T>(n: Seq<(NfaState<T>, usize)>, bound: int) -> bool {
    forall|j: int| 0 <= j < n.len() && !((#[trigger] n[j]).0 is NfaTerminal) ==> n[j].1 < bound
}

/// Every non-terminal transition of `a` targets an index below `bound`.
pub open spec fn all_targets_below<T>(a: Seq<Seq<(NfaState<T>, usize)>>, bound: int) -> bool {
    forall|i: int| 0 <= i < a.len() ==> targets_below(#[trigger] a[i], bound)
}

/// The automaton invariant: every non-terminal target names a node.
pub open spec fn well_formed<T>(a: Seq<Seq<(NfaState<T>, usize)>>) -> bool {
    all_targets_below(a, a.len() as int)
}

/// `a` with transition `e` added at the end of node `idx`'s list.
pub open spec fn add_edge<T>(
    a: Seq<Seq<(NfaState<T>, usize)>>,
    idx: int,
    e: (NfaState<T>, usize),
) -> Seq<Seq<(NfaState<T>, usize)>> {
    a.update(idx, a[idx].push(e))
}

/// One node: its outgoing transitions, in the order they were added.
#[derive(Debug, Clone, PartialEq, Eq)]
pub struct NfaNode<T> {
    states: Vec<(NfaState<T>, usize)>,
}

impl<T> View for NfaNode<T> {
    type V = Seq<(NfaState<T>, usize)>;

    closed spec fn view(&self) -> Seq<(NfaState<T>, usize)> {
        self.states@
    }
}

impl<T: Copy> Default for NfaNode<T> {
    fn default() -> (r: Self)
        ensures
            r@ == Seq::<(NfaState<T>, usize)>::empty(),
    {
        NfaNode { states: Vec::new() }
    }
}

impl<T: Copy> NfaNode<T> {
    pub fn new() -> (r: Self)
        ensures
            r@ == Seq::<(NfaState<T>, usize)>::empty(),
    {
        NfaNode { states: Vec::new() }
    }

    /// The number of transitions.
    pub fn len(&self) -> (r: usize)
        ensures
            r == self@.len(),
    {
        self.states.len()
    }

    /// The `j`-th transition.
    pub fn transition(&self, j: usize) -> (r: (NfaState<T>, usize))
        requires
            j < self@.len(),
        ensures
            r == self@[j as int],
    {
        self.states[j]
    }

    pub fn add_transition(&mut self, transition: NfaState<T>, idx: usize)
        ensures
            final(self)@ == old(self)@.push((transition, idx)),
    {
        self.states.push((transition, idx));
    }

    pub fn add_content(&mut self, content: Item, idx: usize)
        ensures
            final(self)@ == old(self)@.push((NfaState::NfaContent(content), idx)),
    {
        self.states.push((NfaState::NfaContent(content), idx));
    }

    /// Adds a terminal transition; its index slot holds 0.
    pub fn add_terminal(&mut self, terminal: T)
        ensures
            final(self)@ == old(self)@.push((NfaState::NfaTerminal(terminal), 0usize)),
    {
        self.states.push((NfaState::NfaTerminal(terminal), 0));
    }

    /// Marks this node as accepting with `terminal`.
    pub fn set_terminal(&mut self, terminal: T)
        ensures
            final(self)@ == old(self)@.push((NfaState::NfaTerminal(terminal), 0usize)),
    {
        self.add_terminal(terminal);
    }

    pub fn add_epsilon(&mut self, idx: usize)
        ensures
            final(self)@ == old(self)@.push((NfaState::<T>::Epsilon, idx)),
    {
        self.states.push((NfaState::Epsilon, idx));
    }

    pub fn from_content(content: Item, idx: usize) -> (r: Self)
        ensures
            r@ == seq![(NfaState::<T>::NfaContent(content), idx)],
    {
        let mut node = NfaNode::new();
        node.add_content(content, idx);
        node
    }

    pub fn from_terminal(terminal: T) -> (r: Self)
        ensures
            r@ == seq![(NfaState::NfaTerminal(terminal), 0usize)],
    {
        let mut node = NfaNode::new();
        node.add_terminal(terminal);
        node
    }

    pub fn from_epsilon(idx: usize) -> (r: Self)
        ensures
            r@ == seq![(NfaState::<T>::Epsilon, idx)],
    {
        let mut node = NfaNode::new();
        node.add_epsilon(idx);
        node
    }

    /// Adds `inc` to every non-terminal target.
    pub fn increment_all_index(&mut self, inc: usize)
        requires
            targets_below(old(self)@, usize::MAX + 1 - inc),
        ensures
            final(self)@ == shift_node(old(self)@, inc as int),
    {
        let mut i: usize = 0;
        while i < self.states.len()
            invariant
                i <= self.states@.len(),
                self.states@.len() == old(self)@.len(),
                targets_below(old(self)@, usize::MAX + 1 - inc),
                forall|j: int| 0 <= j < i ==> #[trigger] self.states@[j] == shift_edge(old(self)@[j], inc as int),
                forall|j: int| i <= j < self.states@.len() ==> #[trigger] self.states@[j] == old(self)@[j],
            decreases self.states@.len() - i,
        {
            let (state, target) = self.states[i];
            if !state.is_terminal() {
                assert(!(old(self)@[i as int].0 is NfaTerminal));
                self.states.set(i, (state, target + inc));
            }
            i = i + 1;
        }
        proof {
            assert(self.states@ =~= shift_node(old(self)@, inc as int));
        }
    }

    /// The targets of this node's content transitions that accept `c`, in
    /// order.
    pub fn collect_char_content_idx(&self, c: char) -> (r: Vec<usize>)
        ensures
            r@ == content_targets(self@, c),
    {
        let mut res: Vec<usize> = Vec::new();
        let mut i: usize = 0;
        while i < self.states.len()
            invariant
                i <= self.states@.len(),
                res@ == content_targets(self.states@.subrange(0, i as int), c),
            decreases self.states@.len() - i,
        {
            proof {
                assert(self.states@.subrange(0, i + 1).drop_last() =~= self.states@.subrange(0, i as int));
            }
            if let NfaState::NfaContent(it) = self.states[i].0 {
                if it.matches_char(c) {
                    res.push(self.states[i].1);
                }
            }
            i = i + 1;
        }
        proof {
            assert(self.states@.subrange(0, i as int) =~= self.states@);
        }
        res
    }

    /// The markers of this node's terminal transitions, in order.
    pub fn collect_terminal(&self) -> (r: Vec<T>)
        ensures
            r@ == terminals_of(self@),
    {
        let mut res: Vec<T> = Vec::new();
        let mut i: usize = 0;
        while i < self.states.len()
            invariant
                i <= self.states@.len(),
                res@ == terminals_of(self.states@.subrange(0, i as int)),
            decreases self.states@.len() - i,
        {
            proof {
                assert(self.states@.subrange(0, i + 1).drop_last() =~= self.states@.subrange(0, i as int));
            }
            if let NfaState::NfaTerminal(t) = self.states[i].0 {
                res.push(t);
            }
            i = i + 1;
        }
        proof {
            assert(self.states@.subrange(0, i as int) =~= self.states@);
        }
        res
    }
}

/// The targets of the content transitions in `n` whose item accepts `c`, in
/// order.
pub open spec fn content_targets<T>(n: Seq<(NfaState<T>, usize)>, c: char) -> Seq<usize>
    decreases n.len(),
{
    if n.len() == 0 {
        Seq::empty()
    } else {
        let rest = content_targets(n.drop_last(), c);
        match n.last().0 {
            NfaState::NfaContent(it) => if item_matches(it, c) {
                rest.push(n.last().1)
            } else {
                rest
            },
            _ => rest,
        }
    }
}

/// The markers of the terminal transitions in `n`, in order.
pub open spec fn terminals_of<T>(n: Seq<(NfaState<T>, usize)>) -> Seq<T>
    decreases n.len(),
{
    if n.len() == 0 {
        Seq::empty()
    } else {
        let rest = terminals_of(n.drop_last());
        match n.last().0 {
            NfaState::NfaTerminal(t) => rest.push(t),
            _ => rest,
        }
    }
}

/// An ordered, 0-indexed sequence of nodes; node 0 is the start node and
/// transitions name their targets by position.
#[derive(Debug, Clone, PartialEq, Eq)]
pub struct Automaton<T> {
    nodes: Vec<NfaNode<T>>,
}

impl<T> View for Automaton<T> {
    type V = Seq<Seq<(NfaState<T>, usize)>>;

    closed spec fn view(&self) -> Seq<Seq<(NfaState<T>, usize)>> {
        self.nodes@.map_values(|n: NfaNode<T>| n@)
    }
}

impl<T: Copy> Default for Automaton<T> {
    fn default() -> (r: Self)
        ensures
            r@ == Seq::<Seq<(NfaState<T>, usize)>>::empty(),
    {
        Automaton::new()
    }
}

impl<T: Copy> Automaton<T> {
    pub fn new() -> (r: Self)
        ensures
            r@ == Seq::<Seq<(NfaState<T>, usize)>>::empty(),
    {
        let r = Automaton { nodes: Vec::new() };
        proof {
            assert(r@ =~= Seq::<Seq<(NfaState<T>, usize)>>::empty());
        }
        r
    }

    /// Appends a node.
    pub fn push(&mut self, node: NfaNode<T>)
        ensures
            final(self)@ == old(self)@.push(node@),
    {
        self.nodes.push(node);
        proof {
            assert(final(self)@ =~= old(self)@.push(node@));
        }
    }

    /// The two-node automaton that goes from node 0 to node 1 on `content`.
    pub fn from_content(content: Item) -> (r: Self)
        ensures
            r@ == seq![seq![(NfaState::<T>::NfaContent(content), 1usize)], Seq::empty()],
    {
        let node = NfaNode::from_content(content, 1);
        let mut automaton = Self::new();
        automaton.push(node);
        automaton.push(NfaNode::new());
        proof {
            assert(automaton@ =~= seq![seq![(NfaState::<T>::NfaContent(content), 1usize)], Seq::empty()]);
        }
        automaton
    }

    /// The one-node automaton whose start node is accepting with `terminal`.
    pub fn from_terminal(terminal: T) -> (r: Self)
        ensures
            r@ == seq![seq![(NfaState::NfaTerminal(terminal), 0usize)]],
    {
        let node = NfaNode::from_terminal(terminal);
        let mut automaton = Self::new();
        automaton.push(node);
        proof {
            assert(automaton@ =~= seq![seq![(NfaState::NfaTerminal(terminal), 0usize)]]);
        }
        automaton
    }

    /// The number of nodes.
    pub fn len(&self) -> (r: usize)
        ensures
            r == self@.len(),
    {
        self.nodes.len()
    }

    /// Node `idx`.
    pub fn node(&self, idx: usize) -> (r: &NfaNode<T>)
        requires
            idx < self@.len(),
        ensures
            r@ == self@[idx as int],
    {
        &self.nodes[idx]
    }

    /// Adds `inc` to every non-terminal target index of every node.
    pub fn increment_all_index(self, inc: usize) -> (r: Self)
        requires
            all_targets_below(self@, usize::MAX + 1 - inc),
        ensures
            r@ == shift(self@, inc as int),
    {
        let mut res = self;
        let n = res.nodes.len();
        let mut i: usize = 0;
        while i < n
            invariant
                n == res.nodes@.len(),
                n == self@.len(),
                i <= n,
                all_targets_below(self@, usize::MAX + 1 - inc),
                forall|k: int| 0 <= k < i ==> #[trigger] res.nodes@[k]@ == shift_node(self@[k], inc as int),
                forall|k: int| i <= k < n ==> #[trigger] res.nodes@[k]@ == self@[k],
            decreases n - i,
        {
            assert(targets_below(self@[i as int], usize::MAX + 1 - inc));
            res.nodes[i].increment_all_index(inc);
            i = i + 1;
        }
        proof {
            assert(res@ =~= shift(self@, inc as int));
        }
        res
    }

    /// Adds transition `(transition, direction_idx)` to node `idx`.
    pub fn add_state_idx_node(&mut self, idx: usize, transition: NfaState<T>, direction_idx: usize)
        requires
            idx < old(self)@.len(),
        ensures
            final(self)@ == add_edge(old(self)@, idx as int, (transition, direction_idx)),
    {
        self.nodes[idx].add_transition(transition, direction_idx);
        proof {
            assert(final(self)@ =~= add_edge(old(self)@, idx as int, (transition, direction_idx)));
        }
    }

    /// Makes node `idx` accepting with `terminal`.
    pub fn add_terminal_idx_node(&mut self, idx: usize, terminal: T)
        requires
            idx < old(self)@.len(),
        ensures
            final(self)@ == add_edge(old(self)@, idx as int, (NfaState::NfaTerminal(terminal), 0usize)),
    {
        self.add_state_idx_node(idx, NfaState::NfaTerminal(terminal), 0);
    }

    /// Adds a transition on `content` from node `idx` to node `direction_idx`.
    pub fn add_content_idx_node(&mut self, idx: usize, content: Item, direction_idx: usize)
        requires
            idx < old(self)@.len(),
        ensures
            final(self)@ == add_edge(old(self)@, idx as int, (NfaState::<T>::NfaContent(content), direction_idx)),
    {
        self.add_state_idx_node(idx, NfaState::NfaContent(content), direction_idx);
    }

    /// Adds an epsilon transition from node `idx` to node `direction_idx`.
    pub fn add_epsilon_idx_node(&mut self, idx: usize, direction_idx: usize)
        requires
            idx < old(self)@.len(),
        ensures
            final(self)@ == add_edge(old(self)@, idx as int, (NfaState::<T>::Epsilon, direction_idx)),
    {
        self.add_state_idx_node(idx, NfaState::Epsilon, direction_idx);
    }

    /// Moves all of `other`'s nodes, in order, onto the end of this automaton.
    pub fn append_vec(&mut self, other: Self)
        ensures
            final(self)@ == old(self)@ + other@,
    {
        let mut rest = other;
        self.nodes.append(&mut rest.nodes);
        proof {
            assert(final(self)@ =~= old(self)@ + other@);
        }
    }

    /// Makes node `idx` accepting with `terminal`.
    pub fn set_terminal_to_idx(&mut self, idx: usize, terminal: T)
        requires
            idx < old(self)@.len(),
        ensures
            final(self)@ == add_edge(old(self)@, idx as int, (NfaState::NfaTerminal(terminal), 0usize)),
    {
        self.add_terminal_idx_node(idx, terminal);
    }

    /// Makes the last node accepting with `terminal`.
    pub fn set_termial_to_last_node(&mut self, terminal: T)
        requires
            old(self)@.len() > 0,
        ensures
            final(self)@ == add_edge(old(self)@, old(self)@.len() - 1, (NfaState::NfaTerminal(terminal), 0usize)),
    {
        let last = self.len() - 1;
        self.set_terminal_to_idx(last, terminal);
    }
}

} // verus!
