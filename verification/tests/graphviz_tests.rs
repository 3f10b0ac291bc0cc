use automata::graphviz::{edge_text, graph_id, node_id, node_name};
use automata::token::Token;

fn shown(token: Token) -> String {
    match edge_text(&token) {
        dot::LabelText::LabelStr(text) => text.into_owned(),
        _ => panic!("the label is not shown as it is"),
    }
}

#[test]
fn node_is_named_by_its_number() {
    assert_eq!(node_name(0), "node0");
    assert_eq!(node_name(7), "node7");
    assert_eq!(node_name(10), "node10");
    assert_eq!(node_name(1205), "node1205");
    assert_eq!(node_name(u64::MAX), "node18446744073709551615");
}

#[test]
fn node_name_is_taken_as_identifier() {
    assert_eq!(node_id(0).as_slice(), "node0");
    assert_eq!(node_id(42).as_slice(), "node42");
    assert_eq!(node_id(u64::MAX).as_slice(), "node18446744073709551615");
}

#[test]
fn graph_has_one_name() {
    assert_eq!(graph_id().as_slice(), "NFA");
}

#[test]
fn edge_is_drawn_with_its_label() {
    assert_eq!(shown(Token::Epsilon), "Epsilon");
    assert_eq!(shown(Token::Character('a')), "a");
    assert_eq!(shown(Token::Character('>')), ">");
}
