//! Strings as lists of characters.

use vstd::prelude::*;

verus! {

/// The symbols of `string`, one by one.
pub fn chars_of(string: &str) -> (symbols: Vec<char>)
    ensures
        symbols@ == string@,
{
    let mut symbols: Vec<char> = Vec::new();
    let ghost all: Seq<char> = string@;
    proof {
        vstd::string::axiom_spec_iter(string);
    }
    for ch in it: string.chars()
        invariant
            it.seq() == all,
            symbols@ == all.take(it.index() as int),
        ensures
            symbols@ == all,
    {
        symbols.push(ch);
        assert(symbols@ =~= all.take(it.index() + 1));
    }
    symbols
}

/// `String::push` of std appends the one character `ch` to the string.
pub assume_specification[ String::push ](s: &mut String, ch: char)
    ensures
        final(s)@ == old(s)@.push(ch),
;

/// The string made of `symbols`.
pub fn string_of(symbols: &Vec<char>) -> (string: String)
    ensures
        string@ == symbols@,
{
    let mut string = String::new();
    let mut i: usize = 0;
    while i < symbols.len()
        invariant
            i <= symbols.len(),
            string@ == symbols@.take(i as int),
        decreases symbols.len() - i,
    {
        string.push(symbols[i]);
        assert(symbols@.take(i + 1) =~= symbols@.take(i as int).push(symbols@[i as int]));
        i += 1;
    }
    assert(symbols@.take(i as int) =~= symbols@);
    string
}


/// The symbol at position `i` of `symbols`.
pub fn char_at(symbols: &Vec<char>, i: usize) -> (symbol: char)
    requires
        i < symbols@.len(),
    ensures
        symbol == symbols@[i as int],
{
    symbols[i]
}

} // verus!
