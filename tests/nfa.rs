use flex::automaton::{Automaton, NfaNode};
use flex::nfa::RepConfig;
use flex::regex_tokenizer::Item;

fn chars(s: &str) -> Vec<char> {
    s.chars().collect()
}

#[test]
fn two_char() {
    let mut a = Automaton::new();
    a.push(NfaNode::from_content(Item::Char('a'), 1));
    a.push(NfaNode::from_terminal("Terminal"));
    assert_eq!(a.collect_terminal(&vec!['a'], 0), vec![("Terminal", 1)]);
}

#[test]
fn two_epsilon() {
    let mut a = Automaton::new();
    a.push(NfaNode::from_epsilon(1));
    a.push(NfaNode::from_terminal("Terminal"));
    assert_eq!(a.collect_terminal(&vec!['a'], 0), vec![("Terminal", 0)]);
}

#[test]
fn three_ep_sandwich() {
    let mut a = Automaton::new();
    a.push(NfaNode::from_epsilon(1));
    a.push(NfaNode::from_content(Item::Char('a'), 2));
    a.push(NfaNode::from_epsilon(3));
    a.push(NfaNode::from_terminal("Terminal"));
    assert_eq!(a.collect_terminal(&vec!['a'], 0), vec![("Terminal", 1)]);
}

#[test]
fn skip_connections() {
    let mut head = NfaNode::new();
    head.add_content(Item::Char('a'), 1);
    head.add_epsilon(2);
    let mut a = Automaton::new();
    a.push(head);
    a.push(NfaNode::from_epsilon(2));
    a.push(NfaNode::from_terminal("Terminal"));
    assert_eq!(
        a.collect_terminal(&vec!['a'], 0),
        vec![("Terminal", 0), ("Terminal", 1)]
    );
}

#[test]
fn multi_terminal() {
    let mut head = NfaNode::new();
    head.add_content(Item::Char('a'), 1);
    head.add_content(Item::Char('a'), 2);
    let mut a = Automaton::new();
    a.push(head);
    a.push(NfaNode::from_epsilon(3));
    a.push(NfaNode::from_epsilon(4));
    a.push(NfaNode::from_terminal("Terminal1"));
    a.push(NfaNode::from_terminal("Terminal2"));
    assert_eq!(
        a.collect_terminal(&vec!['a'], 0),
        vec![("Terminal1", 1), ("Terminal2", 1)]
    );
}

#[test]
fn concat_links_with_epsilon() {
    let mut res: Automaton<u8> = Automaton::from_content(Item::Char('a'));
    let b = Automaton::from_content(Item::Char('b'));
    res.concat(1, b);
    let mut ans = Automaton::new();
    ans.push(NfaNode::from_content(Item::Char('a'), 1));
    ans.push(NfaNode::from_epsilon(2));
    ans.push(NfaNode::from_content(Item::Char('b'), 3));
    ans.push(NfaNode::new());
    assert_eq!(res, ans);
}

#[test]
fn concat_first_node() {
    let mut res: Automaton<u8> = Automaton::new();
    res.push(NfaNode::from_content(Item::Char('a'), 1));
    res.push(NfaNode::from_epsilon(2));
    res.push(NfaNode::from_content(Item::Char('b'), 3));
    res.push(NfaNode::from_terminal(7));
    res.concat(0, Automaton::from_content(Item::Char('d')));
    let mut first = NfaNode::from_content(Item::Char('a'), 1);
    first.add_epsilon(4);
    let mut ans = Automaton::new();
    ans.push(first);
    ans.push(NfaNode::from_epsilon(2));
    ans.push(NfaNode::from_content(Item::Char('b'), 3));
    ans.push(NfaNode::from_terminal(7));
    ans.push(NfaNode::from_content(Item::Char('d'), 5));
    ans.push(NfaNode::new());
    assert_eq!(ans, res);
}

#[test]
fn concat_tail_n_times_chains_copies() {
    let mut res: Automaton<u8> = Automaton::from_content(Item::Char('a'));
    res.concat_tail(Automaton::from_content(Item::Char('b')));
    res.concat_tail_n_times(Automaton::from_content(Item::Char('c')), 2);
    let mut ans = Automaton::new();
    ans.push(NfaNode::from_content(Item::Char('a'), 1));
    ans.push(NfaNode::from_epsilon(2));
    ans.push(NfaNode::from_content(Item::Char('b'), 3));
    ans.push(NfaNode::from_epsilon(4));
    ans.push(NfaNode::from_content(Item::Char('c'), 5));
    ans.push(NfaNode::from_epsilon(6));
    ans.push(NfaNode::from_content(Item::Char('c'), 7));
    ans.push(NfaNode::new());
    assert_eq!(ans, res);
}

#[test]
fn rep_config_bounded_structure() {
    let frag: Automaton<u8> = Automaton::from_content(Item::Char('x'));
    let res = RepConfig::new(2, Some(3)).nfa(frag);
    let mut ans = Automaton::new();
    ans.push(NfaNode::from_epsilon(1));
    ans.push(NfaNode::from_content(Item::Char('x'), 2));
    ans.push(NfaNode::from_epsilon(3));
    ans.push(NfaNode::from_content(Item::Char('x'), 4));
    let mut fourth = NfaNode::from_epsilon(5);
    fourth.add_epsilon(6);
    ans.push(fourth);
    ans.push(NfaNode::from_content(Item::Char('x'), 6));
    ans.push(NfaNode::new());
    assert_eq!(ans, res);
}

#[test]
fn rep_config_star_structure() {
    let frag: Automaton<u8> = Automaton::from_content(Item::Char('x'));
    let res = RepConfig::new(0, None).nfa(frag);
    let mut start = NfaNode::from_epsilon(1);
    start.add_epsilon(2);
    let mut ans = Automaton::new();
    ans.push(start);
    ans.push(NfaNode::from_content(Item::Char('x'), 2));
    ans.push(NfaNode::from_epsilon(0));
    assert_eq!(ans, res);
}

#[test]
fn run_requires_full_consumption() {
    let mut a: Automaton<u8> = Automaton::from_content(Item::Char('a'));
    a.set_termial_to_last_node(9);
    assert_eq!(a.run("a"), vec![9]);
    assert_eq!(a.run("ab"), Vec::<u8>::new());
    assert_eq!(a.run(""), Vec::<u8>::new());
    assert_eq!(a.collect_terminal(&chars("ab"), 0), vec![(9, 1)]);
}

#[test]
fn run_on_empty_automaton_finds_nothing() {
    let a: Automaton<u8> = Automaton::new();
    assert_eq!(a.run(""), Vec::<u8>::new());
    assert_eq!(a.collect_terminal(&chars("x"), 0), Vec::<(u8, usize)>::new());
}

#[test]
fn collect_terminal_from_later_position() {
    let mut a: Automaton<u8> = Automaton::from_content(Item::Char('b'));
    a.set_termial_to_last_node(4);
    assert_eq!(a.collect_terminal(&chars("ab"), 1), vec![(4, 2)]);
    assert_eq!(a.collect_terminal(&chars("ab"), 0), Vec::<(u8, usize)>::new());
}

#[test]
fn alternation_by_shared_start() {
    let mut a: Automaton<&str> = Automaton::new();
    a.push(NfaNode::new());
    let mut left = Automaton::from_content(Item::Char('a'));
    left.set_termial_to_last_node("A");
    let mut right = Automaton::from_content(Item::Char('b'));
    right.set_termial_to_last_node("B");
    a.concat(0, left);
    a.concat(0, right);
    assert_eq!(a.run("a"), vec!["A"]);
    assert_eq!(a.run("b"), vec!["B"]);
    assert_eq!(a.run("c"), Vec::<&str>::new());
    assert_eq!(a.run(""), Vec::<&str>::new());
}

#[test]
fn epsilon_cycle_terminates() {
    let mut a: Automaton<u8> = Automaton::new();
    let mut n0 = NfaNode::from_epsilon(1);
    n0.add_content(Item::Char('z'), 0);
    a.push(n0);
    let mut n1 = NfaNode::from_epsilon(0);
    n1.set_terminal(5);
    a.push(n1);
    assert_eq!(a.run(""), vec![5]);
    assert_eq!(a.run("zz"), vec![5]);
}

#[test]
fn duplicate_is_equal() {
    let mut a: Automaton<u8> = Automaton::from_content(Item::Any);
    a.set_termial_to_last_node(1);
    let b = a.duplicate();
    assert_eq!(a, b);
}

#[test]
fn index_shift_keeps_targets_in_range() {
    let mut seed: u64 = 12345;
    for _ in 0..200 {
        let mut a: Automaton<u8> = Automaton::from_content(Item::Char('a'));
        for _ in 0..6 {
            seed = seed.wrapping_mul(6364136223846793005).wrapping_add(1442695040888963407);
            let src = (seed >> 33) as usize % a.len();
            let frag = match (seed >> 20) % 3 {
                0 => Automaton::from_content(Item::Char('b')),
                1 => RepConfig::new(0, None).nfa(Automaton::from_content(Item::Char('c'))),
                _ => RepConfig::new(1, Some(3)).nfa(Automaton::from_content(Item::Any)),
            };
            let before = a.len();
            let flen = frag.len();
            a.concat(src, frag);
            assert_eq!(a.len(), before + flen);
            for i in 0..a.len() {
                let node = a.node(i);
                for j in 0..node.len() {
                    let (state, target) = node.transition(j);
                    if !state.is_terminal() {
                        assert!(target < a.len());
                    }
                }
            }
        }
    }
}
