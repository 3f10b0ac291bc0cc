use automata::dfa::{DFANodeType, DFA};
use automata::export::edge_label;
use automata::nfa::NFA;
use automata::token::Token;

fn test_base_nfa_2() -> NFA {
    let mut nfa = NFA::new(0, 6);
    nfa.push(0, (Token::Epsilon, 5));
    nfa.push(5, (Token::Epsilon, 1));
    nfa.push(5, (Token::Character('a'), 5));
    nfa.push(5, (Token::Character('b'), 5));
    nfa.push(1, (Token::Character('a'), 3));
    nfa.push(1, (Token::Character('b'), 4));
    nfa.push(3, (Token::Character('a'), 2));
    nfa.push(4, (Token::Character('b'), 2));
    nfa.push(2, (Token::Epsilon, 6));
    nfa.push(6, (Token::Character('a'), 6));
    nfa.push(6, (Token::Character('b'), 6));
    nfa.push(6, (Token::Epsilon, 7));
    nfa
}

fn test_base_nfa_1() -> NFA {
    let mut nfa = NFA::new(0, 9);
    nfa.push(0, (Token::Character('a'), 1));
    nfa.push(1, (Token::Epsilon, 2));
    nfa.push(2, (Token::Epsilon, 3));
    nfa.push(2, (Token::Epsilon, 9));
    nfa.push(3, (Token::Epsilon, 4));
    nfa.push(3, (Token::Epsilon, 6));
    nfa.push(4, (Token::Character('b'), 5));
    nfa.push(5, (Token::Epsilon, 8));
    nfa.push(6, (Token::Character('c'), 7));
    nfa.push(7, (Token::Epsilon, 8));
    nfa.push(8, (Token::Epsilon, 3));
    nfa.push(8, (Token::Epsilon, 9));
    nfa.push(9, (Token::Epsilon, 9));
    nfa
}

fn print(dfa: &DFA) {
    println!("start is {}", dfa.get_start());
    for key in dfa.nodes() {
        println!(
            "node{} is {:?}, type is {:?}",
            key,
            dfa.get_point(key).unwrap(),
            dfa.node_type(key).unwrap()
        );
    }
}

fn symbols(text: &str) -> Vec<Token> {
    text.chars().map(Token::Character).collect()
}

fn sorted(mut ids: Vec<u64>) -> Vec<u64> {
    ids.sort();
    ids
}

#[test]
fn test_nfa_to_dfa() {
    let nfa = test_base_nfa_1();
    let dfa = DFA::from_nfa(&nfa);
    print(&dfa);
}

#[test]
fn test_nfa_to_dfa_2() {
    let nfa = test_base_nfa_2();
    let dfa = DFA::from_nfa(&nfa);
    print(&dfa);
}

#[test]
fn subset_construction_numbers_the_points_as_they_are_found() {
    let dfa = DFA::from_nfa(&test_base_nfa_1());
    assert_eq!(dfa.get_start(), 0);
    assert_eq!(sorted(dfa.nodes()), vec![0, 1, 2, 3]);
    assert_eq!(dfa.get_point(0), Some(vec![0]));
    assert_eq!(dfa.get_point(1), Some(vec![1, 2, 3, 4, 6, 9]));
    assert_eq!(dfa.get_point(2), Some(vec![3, 4, 5, 6, 8, 9]));
    assert_eq!(dfa.get_point(3), Some(vec![3, 4, 6, 7, 8, 9]));
    assert_eq!(dfa.get_point(4), None);
    assert_eq!(dfa.follow(0, Token::Character('a')), Some(1));
    assert_eq!(dfa.follow(0, Token::Character('b')), None);
    assert_eq!(dfa.follow(1, Token::Character('b')), Some(2));
    assert_eq!(dfa.follow(1, Token::Character('c')), Some(3));
    assert_eq!(dfa.follow(2, Token::Character('b')), Some(2));
    assert_eq!(dfa.follow(2, Token::Character('c')), Some(3));
    assert_eq!(dfa.follow(3, Token::Character('b')), Some(2));
    assert_eq!(dfa.follow(3, Token::Character('c')), Some(3));
    assert_eq!(dfa.follow(9, Token::Character('a')), None);
    let mut edges = dfa.edges();
    edges.sort();
    assert_eq!(
        edges,
        vec![
            (0, 1, Token::Character('a')),
            (1, 2, Token::Character('b')),
            (1, 3, Token::Character('c')),
            (2, 2, Token::Character('b')),
            (2, 3, Token::Character('c')),
            (3, 2, Token::Character('b')),
            (3, 3, Token::Character('c')),
        ]
    );
}

#[test]
fn subset_construction_is_deterministic() {
    for nfa in [test_base_nfa_1(), test_base_nfa_2()] {
        let dfa = DFA::from_nfa(&nfa);
        let edges = dfa.edges();
        for (i, a) in edges.iter().enumerate() {
            assert_ne!(a.2, Token::Epsilon);
            for b in edges.iter().skip(i + 1) {
                assert!(a.0 != b.0 || a.2 != b.2);
            }
        }
    }
}

#[test]
fn node_accepts_exactly_if_its_point_holds_the_accepting_id() {
    for nfa in [test_base_nfa_1(), test_base_nfa_2()] {
        let dfa = DFA::from_nfa(&nfa);
        for id in dfa.nodes() {
            let point = dfa.get_point(id).unwrap();
            let expected = if point.contains(&nfa.get_terminal()) {
                DFANodeType::Terminal
            } else {
                DFANodeType::NonTerminal
            };
            assert_eq!(dfa.node_type(id), Some(expected));
        }
        assert_eq!(dfa.node_type(1000), None);
    }
}

#[test]
fn subset_construction_stays_below_the_power_set() {
    let nfa = test_base_nfa_2();
    let dfa = DFA::from_nfa(&nfa);
    assert_eq!(nfa.nodes().len(), 8);
    assert!(dfa.nodes().len() <= 256);
    let small = NFA::new(0, 0);
    let one = DFA::from_nfa(&small);
    assert_eq!(one.nodes(), vec![0]);
    assert_eq!(one.node_type(0), Some(DFANodeType::Terminal));
}

#[test]
fn minimizing_merges_the_states_that_nothing_tells_apart() {
    let mut dfa = DFA::from_nfa(&test_base_nfa_1());
    dfa.simplifier();
    assert_eq!(sorted(dfa.nodes()), vec![0, 1]);
    assert_eq!(dfa.get_start(), 1);
    assert_eq!(dfa.node_type(0), Some(DFANodeType::Terminal));
    assert_eq!(dfa.node_type(1), Some(DFANodeType::NonTerminal));
    assert_eq!(dfa.get_point(0), Some(vec![1, 2, 3]));
    assert_eq!(dfa.get_point(1), Some(vec![0]));
    assert_eq!(dfa.follow(1, Token::Character('a')), Some(0));
    assert_eq!(dfa.follow(0, Token::Character('b')), Some(0));
    assert_eq!(dfa.follow(0, Token::Character('c')), Some(0));
    assert_eq!(dfa.follow(0, Token::Character('a')), None);
}

#[test]
fn minimizing_keeps_the_language() {
    let words = [
        "", "a", "b", "aa", "ab", "ba", "bb", "aba", "abb", "baa", "bab", "abab", "abba", "baba",
        "ababab", "abaab", "c", "aac",
    ];
    let before = DFA::from_nfa(&test_base_nfa_2());
    let mut after = DFA::from_nfa(&test_base_nfa_2());
    after.simplifier();
    for word in words {
        let expected = word.contains("aa") || word.contains("bb");
        let expected = expected && !word.contains('c');
        assert_eq!(before.accepts(&symbols(word)), expected, "{}", word);
        assert_eq!(after.accepts(&symbols(word)), expected, "{}", word);
    }
}

#[test]
fn minimizing_twice_changes_nothing_more() {
    let mut dfa = DFA::from_nfa(&test_base_nfa_2());
    dfa.simplifier();
    assert_eq!(dfa.nodes().len(), 4);
    dfa.simplifier();
    assert_eq!(dfa.nodes().len(), 4);
    let mut other = DFA::from_nfa(&test_base_nfa_1());
    other.simplifier();
    other.simplifier();
    assert_eq!(other.nodes().len(), 2);
}

#[test]
fn minimizing_a_graph_without_accepting_nodes_leaves_group_zero_out() {
    let mut nfa = NFA::new(0, 9);
    nfa.push(0, (Token::Character('a'), 1));
    nfa.push(1, (Token::Character('a'), 0));
    let mut dfa = DFA::from_nfa(&nfa);
    assert_eq!(sorted(dfa.nodes()), vec![0, 1]);
    dfa.simplifier();
    assert_eq!(dfa.nodes(), vec![1]);
    assert_eq!(dfa.get_start(), 1);
    assert_eq!(dfa.get_point(1), Some(vec![0, 1]));
    assert_eq!(dfa.follow(1, Token::Character('a')), Some(1));
    assert_eq!(dfa.scanner("aaa"), "");
}

#[test]
fn scanner_returns_the_longest_run() {
    let mut dfa = DFA::from_nfa(&test_base_nfa_1());
    dfa.simplifier();
    assert_eq!(dfa.scanner("abcbc"), "abcbc");
    assert_eq!(dfa.scanner("xabx"), "ab");
    assert_eq!(dfa.scanner("abxabc"), "abc");
    assert_eq!(dfa.scanner("abcxab"), "abc");
    assert_eq!(dfa.scanner("abxac"), "ab");
    assert_eq!(dfa.scanner("xyz"), "");
    assert_eq!(dfa.scanner(""), "");
    assert_eq!(dfa.scanner("a"), "a");
    assert_eq!(dfa.scanner("aa"), "a");
}

#[test]
fn scanner_counts_symbols_not_bytes() {
    let mut nfa = NFA::new(0, 1);
    nfa.push(0, (Token::Character('é'), 1));
    nfa.push(0, (Token::Character('a'), 2));
    nfa.push(2, (Token::Character('a'), 1));
    let dfa = DFA::from_nfa(&nfa);
    assert_eq!(dfa.scanner("éxaa"), "aa");
    assert_eq!(dfa.scanner("aaxé"), "aa");
}

#[test]
fn labels_name_the_symbol() {
    assert_eq!(edge_label(&Token::Epsilon), "Epsilon");
    assert_eq!(edge_label(&Token::Character('a')), "a");
    assert_eq!(edge_label(&Token::Character('é')), "é");
}

fn edges_of(dfa: &DFA, id: u64) -> Vec<(Token, u64)> {
    dfa.edges().into_iter().filter(|edge| edge.0 == id).map(|edge| (edge.2, edge.1)).collect()
}

#[test]
fn subset_construction_walks_the_edges_in_order() {
    let dfa = DFA::from_nfa(&test_base_nfa_2());
    assert_eq!(sorted(dfa.nodes()), vec![0, 1, 2, 3, 4, 5, 6]);
    assert_eq!(dfa.get_point(0), Some(vec![0, 1, 5]));
    assert_eq!(dfa.get_point(1), Some(vec![1, 3, 5]));
    assert_eq!(dfa.get_point(2), Some(vec![1, 4, 5]));
    assert_eq!(dfa.get_point(3), Some(vec![1, 2, 3, 5, 6, 7]));
    assert_eq!(dfa.get_point(4), Some(vec![1, 2, 4, 5, 6, 7]));
    assert_eq!(dfa.get_point(5), Some(vec![1, 4, 5, 6, 7]));
    assert_eq!(dfa.get_point(6), Some(vec![1, 3, 5, 6, 7]));
    let a = Token::Character('a');
    let b = Token::Character('b');
    assert_eq!(edges_of(&dfa, 0), vec![(a, 1), (b, 2)]);
    assert_eq!(edges_of(&dfa, 1), vec![(a, 3), (b, 2)]);
    assert_eq!(edges_of(&dfa, 2), vec![(a, 1), (b, 4)]);
    assert_eq!(edges_of(&dfa, 3), vec![(a, 3), (b, 5)]);
    assert_eq!(edges_of(&dfa, 4), vec![(a, 6), (b, 4)]);
    assert_eq!(edges_of(&dfa, 5), vec![(a, 6), (b, 4)]);
    assert_eq!(edges_of(&dfa, 6), vec![(a, 3), (b, 5)]);
    for id in 0..3 {
        assert_eq!(dfa.node_type(id), Some(DFANodeType::NonTerminal));
    }
    for id in 3..7 {
        assert_eq!(dfa.node_type(id), Some(DFANodeType::Terminal));
    }
}

#[test]
fn splitting_numbers_the_new_groups_as_their_signatures_are_met() {
    let mut dfa = DFA::from_nfa(&test_base_nfa_2());
    dfa.simplifier();
    assert_eq!(sorted(dfa.nodes()), vec![0, 1, 2, 3]);
    assert_eq!(dfa.get_start(), 1);
    assert_eq!(dfa.get_point(0), Some(vec![3, 4, 5, 6]));
    assert_eq!(dfa.get_point(1), Some(vec![0]));
    assert_eq!(dfa.get_point(2), Some(vec![1]));
    assert_eq!(dfa.get_point(3), Some(vec![2]));
    let a = Token::Character('a');
    let b = Token::Character('b');
    assert_eq!(edges_of(&dfa, 0), vec![(a, 0), (b, 0)]);
    assert_eq!(edges_of(&dfa, 1), vec![(a, 2), (b, 3)]);
    assert_eq!(edges_of(&dfa, 2), vec![(a, 0), (b, 3)]);
    assert_eq!(edges_of(&dfa, 3), vec![(a, 2), (b, 0)]);
    assert_eq!(dfa.node_type(0), Some(DFANodeType::Terminal));
    for id in 1..4 {
        assert_eq!(dfa.node_type(id), Some(DFANodeType::NonTerminal));
    }
}

#[test]
fn minimizing_a_graph_of_accepting_nodes_leaves_group_one_out() {
    let mut nfa = NFA::new(0, 0);
    nfa.push(0, (Token::Character('a'), 1));
    nfa.push(1, (Token::Epsilon, 0));
    let mut dfa = DFA::from_nfa(&nfa);
    assert_eq!(sorted(dfa.nodes()), vec![0, 1]);
    dfa.simplifier();
    assert_eq!(dfa.nodes(), vec![0]);
    assert_eq!(dfa.get_start(), 0);
    assert_eq!(dfa.get_point(0), Some(vec![0, 1]));
    assert_eq!(dfa.node_type(0), Some(DFANodeType::Terminal));
    assert_eq!(dfa.scanner("aaxa"), "aa");
}
