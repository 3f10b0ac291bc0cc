use automata::dfa::DFA;
use automata::error::AutomataError;
use automata::formal::{production_symbols, FormalLanguage};
use automata::nfa::NFA;
use automata::token::Token;

fn rule(head: char, bodies: &[&str]) -> (Token, Vec<String>) {
    (Token::Identifier(head), bodies.iter().map(|body| body.to_string()).collect())
}

fn symbols(text: &str) -> Vec<Token> {
    text.chars().map(Token::Character).collect()
}

fn sorted(mut ids: Vec<u64>) -> Vec<u64> {
    ids.sort();
    ids
}

fn edges_of(nfa: &NFA, id: u64) -> Vec<(Token, u64)> {
    nfa.get_node(id).unwrap().get_edges().clone()
}

#[test]
fn productions_are_read_symbol_by_symbol() {
    assert_eq!(production_symbols("aA"), vec![Token::Character('a'), Token::Identifier('A')]);
    assert_eq!(production_symbols("b"), vec![Token::Character('b')]);
    assert_eq!(production_symbols("ε"), vec![Token::Epsilon]);
    assert_eq!(production_symbols("εA"), vec![Token::Character('ε'), Token::Identifier('A')]);
    assert_eq!(production_symbols(""), vec![]);
    assert_eq!(
        production_symbols("abc"),
        vec![Token::Character('a'), Token::Identifier('b'), Token::Character('c')]
    );
}

#[test]
fn grammar_states_are_numbered_breadth_first() {
    let language =
        FormalLanguage::new(Token::Identifier('S'), vec![rule('S', &["aA"]), rule('A', &["b"])]);
    let nfa = language.get_nfa().unwrap();
    assert_eq!(nfa.get_start(), 1);
    assert_eq!(nfa.get_terminal(), 0);
    assert_eq!(sorted(nfa.nodes()), vec![0, 1, 2]);
    assert_eq!(edges_of(&nfa, 1), vec![(Token::Character('a'), 2)]);
    assert_eq!(edges_of(&nfa, 2), vec![(Token::Character('b'), 0)]);
    assert_eq!(edges_of(&nfa, 0), vec![]);
}

#[test]
fn grammar_walk_takes_the_symbols_in_the_order_of_discovery() {
    let language = FormalLanguage::new(
        Token::Identifier('S'),
        vec![
            rule('C', &["c"]),
            rule('B', &["bC", "bS"]),
            rule('A', &["aC", "ε"]),
            rule('S', &["xB", "yA", "zB"]),
        ],
    );
    let mut iterator = language.iter();
    let mut triples = Vec::new();
    while let Some(item) = iterator.next() {
        triples.push(item.unwrap());
    }
    assert_eq!(
        triples,
        vec![
            (1, 2, Token::Character('x')),
            (1, 3, Token::Character('y')),
            (1, 2, Token::Character('z')),
            (2, 4, Token::Character('b')),
            (2, 1, Token::Character('b')),
            (3, 4, Token::Character('a')),
            (3, 0, Token::Epsilon),
            (4, 0, Token::Character('c')),
        ]
    );
    assert_eq!(iterator.next(), None);
    let nfa = language.get_nfa().unwrap();
    assert_eq!(sorted(nfa.nodes()), vec![0, 1, 2, 3, 4]);
    assert_eq!(edges_of(&nfa, 3), vec![(Token::Character('a'), 4), (Token::Epsilon, 0)]);
}

#[test]
fn grammar_without_single_symbol_production_has_no_accepting_state() {
    let language = FormalLanguage::new(Token::Identifier('S'), vec![rule('S', &["aS"])]);
    let nfa = language.get_nfa().unwrap();
    assert_eq!(nfa.nodes(), vec![1]);
    assert_eq!(edges_of(&nfa, 1), vec![(Token::Character('a'), 1)]);
}

#[test]
fn nonterminal_without_rule_has_no_productions() {
    let language = FormalLanguage::new(Token::Identifier('S'), vec![rule('S', &["aA", "b"])]);
    let nfa = language.get_nfa().unwrap();
    assert_eq!(sorted(nfa.nodes()), vec![0, 1, 2]);
    assert_eq!(edges_of(&nfa, 2), vec![]);
    let empty = FormalLanguage::new(Token::Identifier('S'), vec![]);
    assert_eq!(empty.get_nfa().unwrap().nodes(), vec![1]);
}

#[test]
fn first_rule_of_a_head_counts() {
    let language = FormalLanguage::new(
        Token::Identifier('S'),
        vec![rule('S', &["a"]), rule('S', &["b", "abc"])],
    );
    let nfa = language.get_nfa().unwrap();
    assert_eq!(edges_of(&nfa, 1), vec![(Token::Character('a'), 0)]);
}

#[test]
fn malformed_production_is_refused() {
    let long = FormalLanguage::new(Token::Identifier('S'), vec![rule('S', &["a", "abc"])]);
    assert!(matches!(long.get_nfa(), Err(AutomataError::MalformedGrammar)));
    let empty = FormalLanguage::new(Token::Identifier('S'), vec![rule('S', &[""])]);
    assert!(matches!(empty.get_nfa(), Err(AutomataError::MalformedGrammar)));
    let later = FormalLanguage::new(
        Token::Identifier('S'),
        vec![rule('S', &["aA"]), rule('A', &["bcd"])],
    );
    assert!(matches!(later.get_nfa(), Err(AutomataError::MalformedGrammar)));
    let mut iterator = later.iter();
    assert_eq!(iterator.next(), Some(Ok((1, 2, Token::Character('a')))));
    assert_eq!(iterator.next(), Some(Err(AutomataError::MalformedGrammar)));
    assert_eq!(iterator.next(), Some(Err(AutomataError::MalformedGrammar)));
}

#[test]
fn malformed_production_out_of_reach_is_not_met() {
    let language = FormalLanguage::new(
        Token::Identifier('S'),
        vec![rule('S', &["b"]), rule('Z', &["bcd"])],
    );
    assert!(language.get_nfa().is_ok());
}

#[test]
fn grammar_compiled_determinized_and_minimized_scans_the_longest_run() {
    let language = FormalLanguage::new(Token::Identifier('S'), vec![rule('S', &["aS", "b"])]);
    let nfa = language.get_nfa().unwrap();
    let mut dfa = DFA::from_nfa(&nfa);
    dfa.simplifier();
    assert_eq!(dfa.scanner("aaab"), "aaab");
    assert_eq!(dfa.scanner("xaaabx"), "aaab");
    assert_eq!(dfa.scanner(""), "");
    for word in ["b", "ab", "aab", "aaab", "aaaaaaab"] {
        assert!(dfa.accepts(&symbols(word)), "{}", word);
    }
    for word in ["", "a", "aa", "ba", "abb", "bb", "aba", "x", "abx"] {
        assert!(!dfa.accepts(&symbols(word)), "{}", word);
    }
    assert_eq!(dfa.nodes().len(), 2);
}

#[test]
fn epsilon_production_accepts_the_empty_word() {
    let language = FormalLanguage::new(Token::Identifier('S'), vec![rule('S', &["aS", "ε"])]);
    let nfa = language.get_nfa().unwrap();
    assert_eq!(edges_of(&nfa, 1), vec![(Token::Character('a'), 1), (Token::Epsilon, 0)]);
    let dfa = DFA::from_nfa(&nfa);
    assert!(dfa.accepts(&symbols("")));
    assert!(dfa.accepts(&symbols("aaa")));
    assert!(!dfa.accepts(&symbols("ab")));
    assert_eq!(dfa.scanner("baab"), "aa");
}

#[test]
fn compiled_automaton_has_no_nonterminal_on_an_edge() {
    let language = FormalLanguage::new(
        Token::Identifier('S'),
        vec![rule('S', &["AB", "ε", "S"]), rule('B', &["BS", "b"])],
    );
    let nfa = language.get_nfa().unwrap();
    for (_, _, label) in nfa.edges() {
        assert!(!matches!(label, Token::Identifier(_)));
    }
    assert_eq!(
        edges_of(&nfa, 1),
        vec![(Token::Character('A'), 2), (Token::Epsilon, 0), (Token::Character('S'), 0)]
    );
    assert_eq!(edges_of(&nfa, 2), vec![(Token::Character('B'), 1), (Token::Character('b'), 0)]);
}
