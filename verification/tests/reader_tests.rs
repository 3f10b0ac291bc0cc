use automata::formal::FormalLanguage;
use automata::reader::{add_production, rule_line};
use automata::token::Token;

fn rule(line: &str) -> Option<(Token, String)> {
    rule_line(line)
}

fn some(head: char, body: &str) -> Option<(Token, String)> {
    Some((Token::Identifier(head), body.to_string()))
}

#[test]
fn line_is_split_at_the_separator() {
    assert_eq!(rule("S -> aA"), some('S', "aA"));
    assert_eq!(rule("S->b"), some('S', "b"));
    assert_eq!(rule("  S  ->   b  \n"), some('S', "b"));
    assert_eq!(rule("AB -> c"), some('A', "c"));
    assert_eq!(rule("S -> a b"), some('S', "a b"));
    assert_eq!(rule("S -> ε"), some('S', "ε"));
}

#[test]
fn line_may_have_an_empty_production() {
    assert_eq!(rule("S ->"), some('S', ""));
    assert_eq!(rule("S ->   "), some('S', ""));
}

#[test]
fn line_without_exactly_one_separator_is_no_rule() {
    assert_eq!(rule(""), None);
    assert_eq!(rule("   "), None);
    assert_eq!(rule("S"), None);
    assert_eq!(rule("S - > a"), None);
    assert_eq!(rule("S -> a -> b"), None);
    assert_eq!(rule("S ->-> a"), None);
    assert_eq!(rule("-"), None);
    assert_eq!(rule(">"), None);
}

#[test]
fn line_without_a_head_is_no_rule() {
    assert_eq!(rule("-> a"), None);
    assert_eq!(rule("   -> a"), None);
    assert_eq!(rule("->"), None);
}

#[test]
fn separator_is_found_at_its_first_place() {
    assert_eq!(rule("S --> a"), some('S', "a"));
    assert_eq!(rule("S ->> a"), some('S', "> a"));
    assert_eq!(rule("S -> a-"), some('S', "a-"));
    assert_eq!(rule("S -> a>"), some('S', "a>"));
}

#[test]
fn white_space_of_any_kind_is_dropped() {
    assert_eq!(rule("\u{2003}S\t->\u{a0}a\u{3000}\r\n"), some('S', "a"));
    assert_eq!(rule("\u{200b}S -> a"), some('\u{200b}', "a"));
}

#[test]
fn production_is_added_to_the_rule_of_its_head() {
    let mut rules: Vec<(Token, Vec<String>)> = Vec::new();
    add_production(&mut rules, Token::Identifier('S'), "aA".to_string());
    add_production(&mut rules, Token::Identifier('A'), "b".to_string());
    add_production(&mut rules, Token::Identifier('S'), "c".to_string());
    assert_eq!(
        rules,
        vec![
            (Token::Identifier('S'), vec!["aA".to_string(), "c".to_string()]),
            (Token::Identifier('A'), vec!["b".to_string()]),
        ]
    );
}

#[test]
fn lines_are_gathered_rule_by_rule() {
    let lines: Vec<String> =
        ["S -> aS\n", "A -> c\n", "S -> b\n"].iter().map(|line| line.to_string()).collect();
    assert_eq!(
        FormalLanguage::get_grammer(&lines),
        Some(vec![
            (Token::Identifier('S'), vec!["aS".to_string(), "b".to_string()]),
            (Token::Identifier('A'), vec!["c".to_string()]),
        ])
    );
    assert_eq!(FormalLanguage::get_grammer(&Vec::new()), Some(vec![]));
    let broken: Vec<String> = ["S -> a", "", "A -> b"].iter().map(|line| line.to_string()).collect();
    assert_eq!(FormalLanguage::get_grammer(&broken), None);
}

#[test]
fn grammar_text_is_compiled() {
    let lines: Vec<String> = ["S -> aS", "S -> b"].iter().map(|line| line.to_string()).collect();
    let rules = FormalLanguage::get_grammer(&lines).unwrap();
    let language = FormalLanguage::new(Token::Identifier('S'), rules);
    let nfa = language.get_nfa().unwrap();
    assert_eq!(
        nfa.get_node(1).unwrap().get_edges(),
        &vec![(Token::Character('a'), 1), (Token::Character('b'), 0)]
    );
}
