use automata::token::Token;

fn samples() -> Vec<Token> {
    vec![
        Token::Epsilon,
        Token::Character('\0'),
        Token::Character('a'),
        Token::Character('b'),
        Token::Character('ε'),
        Token::Character(char::MAX),
        Token::Identifier('\0'),
        Token::Identifier('A'),
        Token::Identifier('a'),
        Token::Identifier(char::MAX),
    ]
}

#[test]
fn order_key_ranks_the_variant_first_and_the_payload_second() {
    assert_eq!(Token::Epsilon.order_key(), 0);
    assert_eq!(Token::Character('a').order_key(), 0x1_0000_0061);
    assert_eq!(Token::Identifier('a').order_key(), 0x2_0000_0061);
    assert_eq!(Token::Character(char::MAX).order_key(), 0x1_0010_ffff);
}

#[test]
fn order_key_agrees_with_the_order_of_tokens() {
    let tokens = samples();
    for a in &tokens {
        for b in &tokens {
            assert_eq!(a < b, a.order_key() < b.order_key());
            assert_eq!(a == b, a.order_key() == b.order_key());
            assert_eq!(a.cmp(b), a.order_key().cmp(&b.order_key()));
        }
    }
}

#[test]
fn tokens_sort_by_variant_and_payload() {
    let mut tokens = vec![
        Token::Identifier('A'),
        Token::Character('b'),
        Token::Epsilon,
        Token::Character('a'),
        Token::Identifier('0'),
    ];
    tokens.sort();
    assert_eq!(
        tokens,
        vec![
            Token::Epsilon,
            Token::Character('a'),
            Token::Character('b'),
            Token::Identifier('0'),
            Token::Identifier('A'),
        ]
    );
}
