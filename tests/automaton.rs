use flex::automaton::{Automaton, NfaNode, NfaState};
use flex::regex_tokenizer::Item;

#[derive(Debug, Clone, Copy, PartialEq)]
struct TestTerminal;

type TestState = NfaState<TestTerminal>;
type NFA = Automaton<TestTerminal>;

#[test]
fn from_content() {
    let mut ans = NFA::default();
    let content = TestState::from_content(Item::Char('a'));
    let mut node = NfaNode::default();
    node.add_transition(content, 1);
    ans.push(node);
    ans.push(NfaNode::default());
    let res = NFA::from_content(Item::Char('a'));
    assert_eq!(ans, res);
}

#[test]
fn increment_all_index() {
    let mut ans = NFA::default();
    let mut node1 = NfaNode::from_content(Item::Char('a'), 1);
    node1.add_epsilon(2);
    node1.add_terminal(TestTerminal);
    let mut res = NFA::default();
    res.push(node1.clone());
    let res = res.increment_all_index(2);
    node1.increment_all_index(2);
    ans.push(node1);
    assert_eq!(ans, res);
}

#[test]
fn add_state_idx() {
    let mut res = NFA::default();
    let mut node = NfaNode::default();
    node.add_content(Item::Char('a'), 1);
    node.add_terminal(TestTerminal);
    node.add_epsilon(2);
    res.push(node.clone());
    res.add_state_idx_node(0, TestState::from_content(Item::Char('b')), 3);
    node.add_content(Item::Char('b'), 3);
    let mut ans = NFA::default();
    ans.push(node);
    assert_eq!(ans, res);
}

#[test]
fn add_terminal_idx_node() {
    let mut res = NFA::default();
    let mut node = NfaNode::default();
    node.add_content(Item::Char('a'), 1);
    node.add_terminal(TestTerminal);
    node.add_epsilon(2);
    res.push(node.clone());
    res.add_terminal_idx_node(0, TestTerminal);
    node.add_terminal(TestTerminal);
    let mut ans = NFA::default();
    ans.push(node);
    assert_eq!(ans, res);
}

#[test]
fn add_content_idx_node() {
    let mut res = NFA::default();
    let mut node = NfaNode::default();
    node.add_content(Item::Char('a'), 1);
    node.add_terminal(TestTerminal);
    node.add_epsilon(2);
    res.push(node.clone());
    res.add_content_idx_node(0, Item::Char('a'), 3);
    node.add_content(Item::Char('a'), 3);
    let mut ans = NFA::default();
    ans.push(node);
    assert_eq!(ans, res);
}

#[test]
fn set_terminal_idx() {
    let mut res = NFA::default();
    let mut node = NfaNode::default();
    node.add_content(Item::Char('a'), 1);
    node.add_terminal(TestTerminal);
    node.add_epsilon(2);
    res.push(node.clone());
    res.set_terminal_to_idx(0, TestTerminal);
    node.add_terminal(TestTerminal);
    let mut ans = NFA::default();
    ans.push(node);
    assert_eq!(ans, res);
}

#[test]
fn set_terminal_to_last_node() {
    let mut res = NFA::default();
    let mut node1 = NfaNode::default();
    node1.add_content(Item::Char('q'), 1);
    let mut node2 = NfaNode::default();
    res.push(node1.clone());
    res.push(node2.clone());
    res.set_termial_to_last_node(TestTerminal);
    node2.add_terminal(TestTerminal);
    let mut ans = NFA::default();
    ans.push(node1);
    ans.push(node2);
    assert_eq!(ans, res);
}

#[test]
fn from_terminal_is_one_accepting_node() {
    let res = NFA::from_terminal(TestTerminal);
    let mut ans = NFA::new();
    ans.push(NfaNode::from_terminal(TestTerminal));
    assert_eq!(ans, res);
    assert_eq!(res.len(), 1);
}

#[test]
fn append_vec_keeps_order() {
    let mut res = NFA::from_content(Item::Char('a'));
    let other = NFA::from_terminal(TestTerminal);
    res.append_vec(other);
    assert_eq!(res.len(), 3);
    assert_eq!(res.node(2).collect_terminal(), vec![TestTerminal]);
    assert_eq!(res.node(0).transition(0), (TestState::from_content(Item::Char('a')), 1));
}

#[test]
fn node_increment_skips_terminals() {
    let mut node: NfaNode<TestTerminal> = NfaNode::new();
    node.add_transition(TestState::from_epsilon(), 1);
    node.add_transition(TestState::from_content(Item::Char('a')), 2);
    node.add_transition(TestState::from_terminal(TestTerminal), 0);
    node.increment_all_index(2);
    assert_eq!(node.transition(0), (TestState::Epsilon, 3));
    assert_eq!(node.transition(1), (TestState::NfaContent(Item::Char('a')), 4));
    assert_eq!(node.transition(2), (TestState::NfaTerminal(TestTerminal), 0));
}

#[test]
fn node_collect_terminal_in_order() {
    let mut node: NfaNode<u8> = NfaNode::new();
    node.add_terminal(1);
    node.add_content(Item::Char('a'), 0);
    node.add_epsilon(0);
    node.set_terminal(2);
    assert_eq!(node.collect_terminal(), vec![1, 2]);
    let empty: NfaNode<u8> = NfaNode::from_epsilon(0);
    assert_eq!(empty.collect_terminal(), Vec::<u8>::new());
}

#[test]
fn node_collect_char_content_idx() {
    let mut node: NfaNode<u8> = NfaNode::new();
    node.add_content(Item::Char('a'), 4);
    node.add_content(Item::Char('b'), 5);
    node.add_epsilon(6);
    node.add_content(Item::Any, 7);
    node.add_terminal(1);
    assert_eq!(node.collect_char_content_idx('a'), vec![4, 7]);
    assert_eq!(node.collect_char_content_idx('c'), vec![7]);
    let plain: NfaNode<u8> = NfaNode::from_content(Item::Char('a'), 1);
    assert_eq!(plain.collect_char_content_idx('z'), Vec::<usize>::new());
}
