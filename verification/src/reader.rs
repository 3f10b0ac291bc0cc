//! Reading the lines of a grammar text as rules.

use crate::text::{char_at, chars_of, string_of};
use crate::token::Token;
use vstd::prelude::*;

verus! {

/// Whether `c` is white space in the sense of `char::is_whitespace` of
/// std, that is, has the Unicode property `White_Space`.
pub uninterp spec fn whitespace(c: char) -> bool;

/// `char::is_whitespace` of std: tells whether `c` is white space. The
/// answer depends on `c` alone.
#[verifier::external_body]
fn is_space(c: char) -> (space: bool)
    ensures
        space == whitespace(c),
{
    c.is_whitespace()
}

/// The first position from `lo` on, below `hi`, that holds no white
/// space; `hi` if there is none.
pub open spec fn skip_space(text: Seq<char>, lo: int, hi: int) -> int
    decreases hi - lo,
{
    if lo >= hi {
        hi
    } else if whitespace(text[lo]) {
        skip_space(text, lo + 1, hi)
    } else {
        lo
    }
}

/// The end of the text between `lo` and `hi` once the white space at its
/// end is dropped.
pub open spec fn drop_space(text: Seq<char>, lo: int, hi: int) -> int
    decreases hi - lo,
{
    if hi <= lo {
        lo
    } else if whitespace(text[hi - 1]) {
        drop_space(text, lo, hi - 1)
    } else {
        hi
    }
}

/// The separator `->` stands at position `i`.
pub open spec fn arrow_at(text: Seq<char>, i: int) -> bool {
    text[i] == '-' && text[i + 1] == '>'
}

/// The first position from `lo` on at which the separator stands wholly
/// below `hi`; `hi` if there is none.
pub open spec fn first_arrow(text: Seq<char>, lo: int, hi: int) -> int
    decreases hi - lo,
{
    if lo + 1 >= hi {
        hi
    } else if arrow_at(text, lo) {
        lo
    } else {
        first_arrow(text, lo + 1, hi)
    }
}

/// The rule that one line of a grammar text stands for: the line, without
/// the white space around it, must hold the separator `->` exactly once;
/// the first character of what stands before it, white space apart, is
/// the head, and what stands after it, without the white space around it,
/// is the production. `None` for a line of any other form.
pub open spec fn rule_of_line(text: Seq<char>) -> Option<(char, Seq<char>)> {
    let lo = skip_space(text, 0, text.len() as int);
    let hi = drop_space(text, lo, text.len() as int);
    let at = first_arrow(text, lo, hi);
    if at >= hi || first_arrow(text, at + 2, hi) < hi {
        None
    } else {
        let head = skip_space(text, lo, at);
        if head >= at {
            None
        } else {
            let from = skip_space(text, at + 2, hi);
            let to = drop_space(text, from, hi);
            Some((text[head], text.subrange(from, to)))
        }
    }
}

/// The first position from `lo` on, below `hi`, that holds no white space.
fn skip_spaces(text: &Vec<char>, lo: usize, hi: usize) -> (at: usize)
    requires
        lo <= hi <= text@.len(),
    ensures
        at == skip_space(text@, lo as int, hi as int),
        lo <= at <= hi,
{
    let mut at = lo;
    while at < hi && is_space(char_at(text, at))
        invariant
            lo <= at <= hi <= text@.len(),
            skip_space(text@, lo as int, hi as int) == skip_space(text@, at as int, hi as int),
        decreases hi - at,
    {
        at += 1;
    }
    at
}

/// The end of the text between `lo` and `hi` without the white space at
/// its end.
fn drop_spaces(text: &Vec<char>, lo: usize, hi: usize) -> (at: usize)
    requires
        lo <= hi <= text@.len(),
    ensures
        at == drop_space(text@, lo as int, hi as int),
        lo <= at <= hi,
{
    let mut at = hi;
    while at > lo && is_space(char_at(text, at - 1))
        invariant
            lo <= at <= hi <= text@.len(),
            drop_space(text@, lo as int, hi as int) == drop_space(text@, lo as int, at as int),
        decreases at - lo,
    {
        at -= 1;
    }
    at
}

/// The first position from `lo` on at which the separator stands wholly
/// below `hi`.
fn find_arrow(text: &Vec<char>, lo: usize, hi: usize) -> (at: usize)
    requires
        lo <= hi <= text@.len(),
    ensures
        at == first_arrow(text@, lo as int, hi as int),
        lo <= at <= hi,
        at < hi ==> at + 2 <= hi,
{
    let mut at = lo;
    while hi - at > 1
        invariant
            lo <= at <= hi <= text@.len(),
            first_arrow(text@, lo as int, hi as int) == first_arrow(text@, at as int, hi as int),
        decreases hi - at,
    {
        if char_at(text, at) == '-' && char_at(text, at + 1) == '>' {
            return at;
        }
        at += 1;
    }
    hi
}

/// Reads one line of a grammar text as a rule: the head, as a
/// nonterminal, and the text of the production.
pub fn rule_line(line: &str) -> (rule: Option<(Token, String)>)
    ensures
        match rule {
            Some((head, body)) => rule_of_line(line@) is Some && head == Token::Identifier(
                rule_of_line(line@).unwrap().0,
            ) && body@ == rule_of_line(line@).unwrap().1,
            None => rule_of_line(line@) is None,
        },
{
    let text = chars_of(line);
    let lo = skip_spaces(&text, 0, text.len());
    let hi = drop_spaces(&text, lo, text.len());
    let at = find_arrow(&text, lo, hi);
    if at >= hi {
        return None;
    }
    if find_arrow(&text, at + 2, hi) < hi {
        return None;
    }
    let head = skip_spaces(&text, lo, at);
    if head >= at {
        return None;
    }
    let from = skip_spaces(&text, at + 2, hi);
    let to = drop_spaces(&text, from, hi);
    let mut body: Vec<char> = Vec::new();
    let mut i = from;
    while i < to
        invariant
            from <= i <= to <= text@.len(),
            body@ == text@.subrange(from as int, i as int),
        decreases to - i,
    {
        body.push(char_at(&text, i));
        assert(text@.subrange(from as int, i + 1) =~= text@.subrange(from as int, i as int).push(
            text@[i as int],
        ));
        i += 1;
    }
    Some((Token::Identifier(char_at(&text, head)), string_of(&body)))
}

/// The texts of the productions of each rule.
pub open spec fn rule_texts(grammer: Seq<(Token, Vec<String>)>) -> Seq<(Token, Seq<Seq<char>>)> {
    Seq::new(
        grammer.len(),
        |k: int| (grammer[k].0, Seq::new(grammer[k].1@.len(), |j: int| grammer[k].1@[j]@)),
    )
}

/// `r` is the first rule whose head is `head`.
pub open spec fn first_with_head(rules: Seq<(Token, Seq<Seq<char>>)>, head: Token, r: int) -> bool {
    &&& 0 <= r < rules.len()
    &&& rules[r].0 == head
    &&& forall|earlier: int| 0 <= earlier < r ==> (#[trigger] rules[earlier]).0 != head
}

/// The rules with the production `body` added for `head`: at the end of
/// the productions of the first rule for `head`, or, if there is no such
/// rule, as a new rule at the end.
pub open spec fn with_production(
    rules: Seq<(Token, Seq<Seq<char>>)>,
    head: Token,
    body: Seq<char>,
) -> Seq<(Token, Seq<Seq<char>>)> {
    if exists|r: int| first_with_head(rules, head, r) {
        let r = choose|r: int| first_with_head(rules, head, r);
        rules.update(r, (head, rules[r].1.push(body)))
    } else {
        rules.push((head, seq![body]))
    }
}

/// Adds the production `body` to the rule for `head`, which is created
/// at the end if there is none.
pub fn add_production(grammer: &mut Vec<(Token, Vec<String>)>, head: Token, body: String)
    ensures
        rule_texts(final(grammer)@) == with_production(rule_texts(old(grammer)@), head, body@),
{
    let ghost before = rule_texts(grammer@);
    let mut r: usize = 0;
    while r < grammer.len()
        invariant
            r <= grammer.len(),
            rule_texts(grammer@) == before,
            before == rule_texts(old(grammer)@),
            forall|earlier: int| 0 <= earlier < r ==> (#[trigger] before[earlier]).0 != head,
        decreases grammer.len() - r,
    {
        if grammer[r].0 == head {
            proof {
                assert(before[r as int].0 == head);
                assert(first_with_head(before, head, r as int));
                let r2 = choose|r2: int| first_with_head(before, head, r2);
                if r2 < r {
                    assert(before[r2].0 != head);
                } else if r < r2 {
                    assert(before[r as int].0 != head);
                }
            }
            let ghost old_grammer = grammer@;
            grammer[r].1.push(body);
            proof {
                assert(grammer@[r as int].0 == old_grammer[r as int].0);
                assert(grammer@[r as int].1@ == old_grammer[r as int].1@.push(body));
                assert forall|k: int| 0 <= k < grammer@.len() && k != r implies grammer@[k]
                    == old_grammer[k] by {}
                assert(rule_texts(grammer@)[r as int].1 =~= before[r as int].1.push(body@));
                assert(rule_texts(grammer@) =~= before.update(
                    r as int,
                    (head, before[r as int].1.push(body@)),
                ));
            }
            return ;
        }
        r += 1;
    }
    proof {
        assert(!exists|r2: int| first_with_head(before, head, r2)) by {
            if exists|r2: int| first_with_head(before, head, r2) {
                let r2 = choose|r2: int| first_with_head(before, head, r2);
                assert(before[r2].0 != head);
            }
        }
    }
    let mut bodies: Vec<String> = Vec::new();
    bodies.push(body);
    grammer.push((head, bodies));
    proof {
        let after = rule_texts(grammer@);
        assert(after[before.len() as int].1 =~= seq![body@]);
        assert(after =~= before.push((head, seq![body@])));
    }
}

/// The rules that the lines of a grammar text stand for, each line
/// adding one production; `None` if a line is not of the form of a rule.
pub open spec fn rules_of_lines(lines: Seq<Seq<char>>) -> Option<Seq<(Token, Seq<Seq<char>>)>>
    decreases lines.len(),
{
    if lines.len() == 0 {
        Some(Seq::empty())
    } else {
        match (rules_of_lines(lines.drop_last()), rule_of_line(lines.last())) {
            (Some(rules), Some((head, body))) => Some(
                with_production(rules, Token::Identifier(head), body),
            ),
            _ => None,
        }
    }
}

/// The lines of a text as sequences of characters.
pub open spec fn line_texts(lines: Seq<String>) -> Seq<Seq<char>> {
    Seq::new(lines.len(), |k: int| lines[k]@)
}

/// Lines that begin with lines that are no rules are no rules.
pub proof fn lemma_rules_prefix(lines: Seq<Seq<char>>, k: int)
    requires
        0 <= k <= lines.len(),
        rules_of_lines(lines.take(k)) is None,
    ensures
        rules_of_lines(lines) is None,
    decreases lines.len() - k,
{
    if k < lines.len() {
        assert(lines.take(k + 1).drop_last() =~= lines.take(k));
        lemma_rules_prefix(lines, k + 1);
    } else {
        assert(lines.take(k) =~= lines);
    }
}

} // verus!
