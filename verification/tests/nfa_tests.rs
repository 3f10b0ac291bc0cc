use automata::error::AutomataError;
use automata::nfa::NFA;
use automata::token::Token;

fn base_nfa_1() -> NFA {
    let mut nfa = NFA::new(0, 9);
    nfa.push(0, (Token::Character('a'), 1));
    nfa.push(1, (Token::Epsilon, 2));
    nfa.push(2, (Token::Epsilon, 3));
    nfa.push(2, (Token::Epsilon, 9));
    nfa.push(3, (Token::Epsilon, 4));
    nfa.push(3, (Token::Epsilon, 6));
    nfa.push(4, (Token::Character('b'), 5));
    nfa.push(5, (Token::Epsilon, 8));
    nfa.push(6, (Token::Character('c'), 7));
    nfa.push(7, (Token::Epsilon, 8));
    nfa.push(8, (Token::Epsilon, 3));
    nfa.push(8, (Token::Epsilon, 9));
    nfa.push(9, (Token::Epsilon, 9));
    nfa
}

fn sorted(mut ids: Vec<u64>) -> Vec<u64> {
    ids.sort();
    ids
}

#[test]
fn test_get_spsilion_closure_node() {
    let mut nfa = NFA::new(0, 9);
    nfa.push(0, (Token::Character('a'), 1));
    nfa.push(1, (Token::Epsilon, 2));
    nfa.push(2, (Token::Epsilon, 3));
    nfa.push(2, (Token::Epsilon, 9));
    nfa.push(3, (Token::Epsilon, 4));
    nfa.push(3, (Token::Epsilon, 6));
    nfa.push(4, (Token::Character('b'), 5));
    nfa.push(5, (Token::Epsilon, 8));
    nfa.push(6, (Token::Character('c'), 7));
    nfa.push(7, (Token::Epsilon, 8));
    nfa.push(8, (Token::Epsilon, 3));
    nfa.push(8, (Token::Epsilon, 9));
    nfa.push(9, (Token::Epsilon, 9));
    println!("0 test result : {:?}", nfa.get_epsilon_closure_node(0));
    println!("1 test result : {:?}", nfa.get_epsilon_closure_node(1));
    println!("2 test result : {:?}", nfa.get_epsilon_closure_node(2));
    println!("3 test result : {:?}", nfa.get_epsilon_closure_node(3));
    println!("4 test result : {:?}", nfa.get_epsilon_closure_node(4));
    println!("5 test result : {:?}", nfa.get_epsilon_closure_node(5));
    println!("6 test result : {:?}", nfa.get_epsilon_closure_node(6));
    println!("7 test result : {:?}", nfa.get_epsilon_closure_node(7));
    println!("8 test result : {:?}", nfa.get_epsilon_closure_node(8));
    println!("9 test result : {:?}", nfa.get_epsilon_closure_node(9));
}

#[test]
fn closure_is_found_breadth_first() {
    let nfa = base_nfa_1();
    assert_eq!(nfa.get_epsilon_closure_node(0), Ok(vec![0]));
    assert_eq!(nfa.get_epsilon_closure_node(1), Ok(vec![1, 2, 3, 9, 4, 6]));
    assert_eq!(nfa.get_epsilon_closure_node(2), Ok(vec![2, 3, 9, 4, 6]));
    assert_eq!(nfa.get_epsilon_closure_node(3), Ok(vec![3, 4, 6]));
    assert_eq!(nfa.get_epsilon_closure_node(4), Ok(vec![4]));
    assert_eq!(nfa.get_epsilon_closure_node(5), Ok(vec![5, 8, 3, 9, 4, 6]));
    assert_eq!(nfa.get_epsilon_closure_node(7), Ok(vec![7, 8, 3, 9, 4, 6]));
    assert_eq!(nfa.get_epsilon_closure_node(8), Ok(vec![8, 3, 9, 4, 6]));
    assert_eq!(nfa.get_epsilon_closure_node(9), Ok(vec![9]));
}

#[test]
fn closure_of_a_missing_node_is_refused() {
    let nfa = base_nfa_1();
    assert_eq!(nfa.get_epsilon_closure_node(42), Err(AutomataError::UnknownNode));
    let empty = NFA::new(3, 4);
    assert_eq!(empty.get_epsilon_closure_node(4), Err(AutomataError::UnknownNode));
    assert_eq!(empty.get_epsilon_closure_node(3), Ok(vec![3]));
}

#[test]
fn closure_holds_its_node_and_the_closures_behind_epsilon_edges() {
    let nfa = base_nfa_1();
    for n in nfa.nodes() {
        let closure = nfa.get_epsilon_closure_node(n).unwrap();
        assert!(closure.contains(&n));
        let node = nfa.get_node(n).unwrap();
        for (token, m) in node.get_edges() {
            if *token == Token::Epsilon {
                for id in nfa.get_epsilon_closure_node(*m).unwrap() {
                    assert!(closure.contains(&id));
                }
            }
        }
    }
}

#[test]
fn new_graph_has_only_its_start_node() {
    let nfa = NFA::new(7, 2);
    assert_eq!(nfa.get_start(), 7);
    assert_eq!(nfa.get_terminal(), 2);
    assert_eq!(nfa.nodes(), vec![7]);
    assert!(nfa.get_node(7).unwrap().get_edges().is_empty());
    assert!(nfa.get_node(2).is_none());
}

#[test]
fn push_creates_missing_nodes_and_keeps_edge_order() {
    let mut nfa = NFA::new(0, 1);
    nfa.push(5, (Token::Character('x'), 6));
    nfa.push(5, (Token::Epsilon, 0));
    nfa.push(5, (Token::Character('x'), 6));
    assert_eq!(sorted(nfa.nodes()), vec![0, 5, 6]);
    assert_eq!(
        nfa.get_node(5).unwrap().get_edges(),
        &vec![(Token::Character('x'), 6), (Token::Epsilon, 0), (Token::Character('x'), 6)]
    );
    assert!(nfa.get_node(6).unwrap().get_edges().is_empty());
    assert!(nfa.get_node(0).unwrap().get_edges().is_empty());
}

#[test]
fn edges_are_listed_with_source_target_and_label() {
    let mut nfa = NFA::new(0, 1);
    nfa.push(0, (Token::Character('a'), 1));
    nfa.push(0, (Token::Epsilon, 0));
    let mut edges = nfa.edges();
    edges.sort();
    assert_eq!(edges, vec![(0, 0, Token::Epsilon), (0, 1, Token::Character('a'))]);
}
