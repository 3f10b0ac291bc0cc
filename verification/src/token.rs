//! The symbols of grammars and automata.

use vstd::prelude::*;

verus! {

/// A label on an automaton edge, or a reference to a grammar production head.
#[derive(Clone, Copy, Debug, PartialEq, Eq, Structural, PartialOrd, Ord, Hash)]
pub enum Token {
    /// A transition that consumes no input.
    Epsilon,
    /// A transition that consumes exactly this input symbol.
    Character(char),
    /// The head of a grammar production.
    Identifier(char),
}

impl Token {
    /// Position of the variant in the total order on tokens.
    pub open spec fn rank(self) -> int {
        match self {
            Token::Epsilon => 0,
            Token::Character(_) => 1,
            Token::Identifier(_) => 2,
        }
    }

    /// Code point carried by the variant, zero for `Epsilon`.
    pub open spec fn payload(self) -> int {
        match self {
            Token::Epsilon => 0,
            Token::Character(c) => c as int,
            Token::Identifier(c) => c as int,
        }
    }

    /// Order key: tokens compare by variant rank first, then by payload.
    pub open spec fn key(self) -> int {
        self.rank() * 0x1_0000_0000 + self.payload()
    }

    /// Computes the order key of the token.
    pub fn order_key(&self) -> (k: u64)
        ensures
            k == self.key(),
            k < 0x3_0000_0000,
    {
        match *self {
            Token::Epsilon => 0,
            Token::Character(c) => 0x1_0000_0000u64 + (c as u32) as u64,
            Token::Identifier(c) => 0x2_0000_0000u64 + (c as u32) as u64,
        }
    }
}

/// Distinct tokens have distinct order keys.
pub proof fn lemma_key_injective(a: Token, b: Token)
    requires
        a.key() == b.key(),
    ensures
        a == b,
{
}

} // verus!
