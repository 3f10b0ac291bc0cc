//! Right-linear grammars and their compilation into nondeterministic
//! automata.

use crate::compile::{
    compiled, compiled_to, discovery, ends, lemma_compile_step, lemma_discovery_bounded,
    lemma_finished, lemma_productions, lemma_settled, lemma_step_one, lemma_step_two,
    lemma_walk_next, lexical, malformed, next_position, reads_as, shaped, stepped, symbol_at, targets,
    walk_seen, CompilerView, GrammarView, EPSILON_MARK,
};
use crate::error::AutomataError;
use crate::nfa::NFA;
use crate::reader::{
    add_production, lemma_rules_prefix, line_texts, rule_line, rule_texts, rules_of_lines,
};
use crate::text::{char_at, chars_of};
use crate::token::Token;
use std::collections::VecDeque;
use vstd::prelude::*;

verus! {

/// The production that `sentence` stands for, one symbol for each
/// character.
pub fn production_symbols(sentence: &str) -> (symbols: Vec<Token>)
    ensures
        reads_as(sentence@, symbols@),
{
    let chars = chars_of(sentence);
    let lone_mark = chars.len() == 1 && char_at(&chars, 0) == EPSILON_MARK;
    let mut symbols: Vec<Token> = Vec::new();
    let mut i: usize = 0;
    while i < chars.len()
        invariant
            chars@ == sentence@,
            lone_mark == (chars@.len() == 1 && chars@[0] == EPSILON_MARK),
            i <= chars.len(),
            symbols@.len() == i,
            forall|k: int| 0 <= k < i ==> #[trigger] symbols@[k] == symbol_at(chars@, k),
        decreases chars.len() - i,
    {
        let ch = char_at(&chars, i);
        let symbol = if i == 1 {
            Token::Identifier(ch)
        } else if i == 0 && lone_mark {
            Token::Epsilon
        } else {
            Token::Character(ch)
        };
        symbols.push(symbol);
        i += 1;
    }
    symbols
}

/// A right-linear grammar: a start symbol and, for each nonterminal, its
/// productions in order.
pub struct FormalLanguage {
    start: Token,
    grammer: Vec<(Token, Vec<Vec<Token>>)>,
}

/// The rules as sequences.
spec fn rule_views(grammer: Seq<(Token, Vec<Vec<Token>>)>) -> Seq<(Token, Seq<Seq<Token>>)> {
    Seq::new(
        grammer.len(),
        |k: int| (grammer[k].0, Seq::new(grammer[k].1@.len(), |j: int| grammer[k].1@[j]@)),
    )
}

impl View for FormalLanguage {
    type V = GrammarView;

    closed spec fn view(&self) -> GrammarView {
        GrammarView { start: self.start, rules: rule_views(self.grammer@) }
    }
}

/// The productions of `t` in the rules `grammer`; none if no rule has the
/// head `t`.
fn find_productions<'a>(grammer: &'a Vec<(Token, Vec<Vec<Token>>)>, t: Token) -> (found: Option<
    &'a Vec<Vec<Token>>,
>)
    ensures
        match found {
            Some(productions) => exists|r: int|
                0 <= r < grammer@.len() && productions == (#[trigger] grammer@[r]).1
                    && GrammarView { start: t, rules: rule_views(grammer@) }.first_rule(t, r),
            None => forall|r: int| 0 <= r < grammer@.len() ==> (#[trigger] grammer@[r]).0 != t,
        },
{
    let ghost g = GrammarView { start: t, rules: rule_views(grammer@) };
    let mut r: usize = 0;
    while r < grammer.len()
        invariant
            r <= grammer.len(),
            g.rules == rule_views(grammer@),
            forall|earlier: int| 0 <= earlier < r ==> (#[trigger] grammer@[earlier]).0 != t,
        decreases grammer.len() - r,
    {
        if grammer[r].0 == t {
            proof {
                assert forall|earlier: int| 0 <= earlier < r implies (#[trigger] g.rules[earlier]).0
                    != t by {
                    assert(grammer@[earlier].0 != t);
                }
                assert(g.first_rule(t, r as int));
            }
            return Some(&grammer[r].1);
        }
        r += 1;
    }
    None
}

impl FormalLanguage {
    /// The grammar with the start symbol `start` and the rules `grammer`,
    /// each production given as text and read symbol by symbol. Of two
    /// rules with the same head the first counts.
    pub fn new(start: Token, grammer: Vec<(Token, Vec<String>)>) -> (language: Self)
        ensures
            language@.start == start,
            language@.rules.len() == grammer@.len(),
            forall|k: int|
                0 <= k < grammer@.len() ==> (#[trigger] language@.rules[k]).0 == grammer@[k].0
                    && language@.rules[k].1.len() == grammer@[k].1@.len(),
            forall|k: int, j: int|
                0 <= k < grammer@.len() && 0 <= j < grammer@[k].1@.len() ==> reads_as(
                    grammer@[k].1@[j]@,
                    #[trigger] language@.rules[k].1[j],
                ),
            lexical(language@),
    {
        let mut rules: Vec<(Token, Vec<Vec<Token>>)> = Vec::new();
        let mut k: usize = 0;
        while k < grammer.len()
            invariant
                k <= grammer.len(),
                rules@.len() == k,
                forall|k2: int|
                    0 <= k2 < k ==> (#[trigger] rules@[k2]).0 == grammer@[k2].0
                        && rules@[k2].1@.len() == grammer@[k2].1@.len(),
                forall|k2: int, j: int|
                    0 <= k2 < k && 0 <= j < grammer@[k2].1@.len() ==> reads_as(
                        grammer@[k2].1@[j]@,
                        (#[trigger] rules@[k2].1@[j])@,
                    ),
            decreases grammer.len() - k,
        {
            let mut productions: Vec<Vec<Token>> = Vec::new();
            let mut j: usize = 0;
            while j < grammer[k].1.len()
                invariant
                    k < grammer.len(),
                    j <= grammer@[k as int].1@.len(),
                    productions@.len() == j,
                    forall|j2: int|
                        0 <= j2 < j ==> reads_as(
                            grammer@[k as int].1@[j2]@,
                            (#[trigger] productions@[j2])@,
                        ),
                decreases grammer@[k as int].1@.len() - j,
            {
                productions.push(production_symbols(grammer[k].1[j].as_str()));
                j += 1;
            }
            rules.push((grammer[k].0, productions));
            k += 1;
        }
        FormalLanguage { start, grammer: rules }
    }
}

/// A pass over the productions of a grammar that yields, one at a time,
/// the edges of the automaton that the grammar stands for.
pub struct FormalLanguageIterator<'a> {
    tmp: Token,
    grammer: &'a Vec<(Token, Vec<Vec<Token>>)>,
    pos: Option<usize>,
    token_map: Vec<Token>,
    queue: VecDeque<Token>,
    num: u64,
    end: u64,
}

impl<'a> View for FormalLanguageIterator<'a> {
    type V = CompilerView;

    closed spec fn view(&self) -> CompilerView {
        CompilerView {
            grammar: GrammarView { start: self.token_map@[0], rules: rule_views(self.grammer@) },
            order: self.token_map@,
            current: self.token_map@.len() - self.queue@.len() - 1,
            pos: match self.pos {
                Some(p) => p as int,
                None => 0,
            },
        }
    }
}

/// The state of `t` in the id table `ids`: one more than its index.
fn id_of(ids: &Vec<Token>, t: Token) -> (id: Option<u64>)
    ensures
        match id {
            Some(i) => 1 <= i <= ids@.len() && ids@[i - 1] == t,
            None => !ids@.contains(t),
        },
{
    let mut i: usize = 0;
    while i < ids.len()
        invariant
            i <= ids.len(),
            forall|k: int| 0 <= k < i ==> ids@[k] != t,
        decreases ids.len() - i,
    {
        if ids[i] == t {
            return Some((i + 1) as u64);
        }
        i += 1;
    }
    None
}

impl<'a> FormalLanguageIterator<'a> {
    /// The invariant of the type: the symbols met so far are the start of
    /// a breadth-first discovery, the queue holds those whose productions
    /// have not been reached, and every production walked so far has one
    /// or two symbols and names only symbols met.
    pub closed spec fn wf(&self) -> bool {
        let v = self@;
        &&& self.token_map@.len() >= 1
        &&& self.num == self.token_map@.len()
        &&& self.end == 0
        &&& -1 <= v.current < v.order.len()
        &&& self.queue@ == self.token_map@.skip(v.current + 1)
        &&& (self.pos is None <==> v.current == -1)
        &&& self.pos is Some ==> self.tmp == v.order[v.current] && v.pos <= v.grammar.productions(
            self.tmp,
        ).len()
        &&& discovery(v.grammar, v.order)
        &&& walk_seen(v.grammar, v.order, v.order.len() as int, v.current, v.pos)
        &&& shaped(v.grammar, v.order, v.current, v.pos)
    }

    /// A pass that has met the start symbol alone and walked no production.
    fn new(grammer: &'a Vec<(Token, Vec<Vec<Token>>)>, start: Token) -> (iterator: Self)
        ensures
            iterator.wf(),
            iterator@ == (CompilerView {
                grammar: GrammarView { start, rules: rule_views(grammer@) },
                order: seq![start],
                current: -1,
                pos: 0,
            }),
    {
        let mut token_map: Vec<Token> = Vec::new();
        let mut queue: VecDeque<Token> = VecDeque::new();
        let num: u64 = 1;
        let end: u64 = 0;
        token_map.push(start);
        queue.push_back(start);
        let iterator = FormalLanguageIterator {
            tmp: start,
            grammer,
            token_map,
            pos: None,
            queue,
            num,
            end,
        };
        proof {
            assert(iterator.token_map@ =~= seq![start]);
            assert(iterator.queue@ =~= iterator.token_map@.skip(0));
        }
        iterator
    }

    /// Moves on to the next symbol that has a production left, taking
    /// symbols from the queue while the current one has none. Tells
    /// whether there is such a symbol.
    fn settle(&mut self) -> (ready: bool)
        requires
            old(self).wf(),
        ensures
            final(self).wf(),
            final(self)@.grammar == old(self)@.grammar,
            final(self)@.order == old(self)@.order,
            final(self).grammer == old(self).grammer,
            ready ==> next_position(
                old(self)@.grammar,
                old(self)@.order,
                old(self)@.current,
                old(self)@.pos,
            ) == Some((final(self)@.current, final(self)@.pos)),
            ready ==> final(self).pos is Some && 0 <= final(self)@.current && final(self)@.pos
                < final(self)@.grammar.productions(final(self).tmp).len(),
            !ready ==> next_position(
                old(self)@.grammar,
                old(self)@.order,
                old(self)@.current,
                old(self)@.pos,
            ) is None && final(self)@.current == final(self)@.order.len() - 1,
    {
        let ghost v0 = self@;
        let ghost g = v0.grammar;
        let grammer: &'a Vec<(Token, Vec<Vec<Token>>)> = self.grammer;
        loop
            invariant
                self.wf(),
                self.grammer == grammer,
                grammer == old(self).grammer,
                v0 == old(self)@,
                g == v0.grammar,
                self@.grammar == g,
                self@.order == v0.order,
                next_position(g, v0.order, v0.current, v0.pos) == next_position(
                    g,
                    v0.order,
                    self@.current,
                    self@.pos,
                ),
            decreases self.queue@.len(),
        {
            let exhausted = match self.pos {
                None => true,
                Some(p) => match find_productions(grammer, self.tmp) {
                    None => true,
                    Some(productions) => p >= productions.len(),
                },
            };
            proof {
                lemma_productions(g, self.tmp);
            }
            if !exhausted {
                return true;
            }
            if self.queue.len() > 0 {
                let ghost before = self@;
                self.tmp = self.queue.pop_front().unwrap();
                self.pos = Some(0);
                proof {
                    let v = self@;
                    assert(v.current == before.current + 1);
                    assert(self.queue@ =~= self.token_map@.skip(v.current + 1));
                    assert(self.tmp == v.order[v.current]);
                    lemma_walk_next(g, v.order, before.current, before.pos);
                }
            } else {
                proof {
                    assert(self@.current == v0.order.len() - 1);
                }
                return false;
            }
        }
    }

    /// The next edge of the automaton, as source state, target state and
    /// label: the edge for the next production at or after the current
    /// position. A symbol named for the first time gets the next state,
    /// and its productions are walked after those of the symbols met
    /// before. `None` when no production is left; `MalformedGrammar`,
    /// with the position unchanged, when the next production has neither
    /// one nor two symbols.
    pub fn next(&mut self) -> (item: Option<Result<(u64, u64, Token), AutomataError>>)
        requires
            old(self).wf(),
        ensures
            final(self).wf(),
            final(self)@.grammar == old(self)@.grammar,
            stepped(old(self)@, final(self)@, item),
    {
        let ghost v0 = self@;
        let ghost g = v0.grammar;
        if !self.settle() {
            return None;
        }
        let grammer: &'a Vec<(Token, Vec<Vec<Token>>)> = self.grammer;
        let p = self.pos.unwrap();
        proof {
            lemma_productions(g, self.tmp);
        }
        let productions = find_productions(grammer, self.tmp).unwrap();
        let total = productions.len();
        let sentence = &productions[p];
        let ghost c = self@.current;
        let ghost prod = g.productions(self.tmp)[p as int];
        assert(sentence@ == prod);
        assert(self.token_map@.contains(self.tmp));
        let tmpid = id_of(&self.token_map, self.tmp).unwrap();
        assert(tmpid == c + 1);
        if sentence.len() == 2 {
            let token = sentence[1];
            let label = sentence[0];
            let to = match id_of(&self.token_map, token) {
                Some(id) => id,
                None => {
                    self.token_map.push(token);
                    self.queue.push_back(token);
                    let count = self.token_map.len();
                    self.num += 1;
                    self.num
                },
            };
            self.pos = Some(p + 1);
            proof {
                let v = self@;
                assert(v.current == c);
                assert(self.queue@ =~= self.token_map@.skip(v.current + 1));
                lemma_step_two(g, v0.order, v.order, c, p as int);
            }
            Some(Ok((tmpid, to, label)))
        } else if sentence.len() == 1 {
            let label = sentence[0];
            self.pos = Some(p + 1);
            proof {
                lemma_step_one(g, v0.order, c, p as int);
            }
            Some(Ok((tmpid, self.end, label)))
        } else {
            Some(Err(AutomataError::MalformedGrammar))
        }
    }
}

impl FormalLanguage {
    /// A pass over the productions that starts at the start symbol.
    pub fn iter(&self) -> (iterator: FormalLanguageIterator<'_>)
        ensures
            iterator.wf(),
            iterator@ == (CompilerView {
                grammar: self@,
                order: seq![self@.start],
                current: -1,
                pos: 0,
            }),
    {
        FormalLanguageIterator::new(&self.grammer, self.start)
    }

    /// The automaton that the grammar stands for. State 1 is the start
    /// symbol and state 0 accepts; the other nonterminals get the states
    /// from 2 on in the order in which a breadth-first walk from the start
    /// symbol first meets them. A production of one symbol gives an edge
    /// into state 0, a production of two symbols an edge into the state of
    /// its second symbol. A production of any other length, met on the
    /// walk, is refused with `MalformedGrammar`.
    #[verifier::rlimit(50)]
    pub fn get_nfa(&self) -> (result: Result<NFA, AutomataError>)
        ensures
            match result {
                Ok(nfa) => nfa.wf() && exists|order: Seq<Token>| compiled(self@, order, nfa@),
                Err(e) => e == AutomataError::MalformedGrammar && malformed(self@),
            },
    {
        let ghost g = self@;
        let ghost bound = targets(g.rules).len() + 1;
        let mut nfa = NFA::new(1, 0);
        let mut iterator = self.iter();
        proof {
            let order = iterator@.order;
            assert(!ends(g, order, -1, 0));
            assert(compiled_to(g, order, -1, 0, nfa@));
        }
        loop
            invariant_except_break
                iterator.wf(),
                iterator@.grammar == g,
                bound == targets(g.rules).len() + 1,
                compiled_to(g, iterator@.order, iterator@.current, iterator@.pos, nfa@),
            invariant
                g == self@,
                nfa.wf(),
            ensures
                compiled(g, iterator@.order, nfa@),
            decreases
                bound - iterator@.current,
                if iterator@.current >= 0 {
                    g.productions(iterator@.order[iterator@.current]).len() - iterator@.pos
                } else {
                    0
                },
        {
            let ghost before = iterator@;
            let ghost nfa_before = nfa@;
            proof {
                lemma_discovery_bounded(g, before.order);
                if next_position(g, before.order, before.current, before.pos) is Some {
                    lemma_settled(g, before.order, before.current, before.pos, nfa_before);
                }
            }
            match iterator.next() {
                None => {
                    proof {
                        lemma_finished(g, before.order, before.current, before.pos, nfa_before);
                    }
                    break ;
                },
                Some(Ok(tuple)) => {
                    nfa.push(tuple.0, (tuple.2, tuple.1));
                    proof {
                        let (c, p) = next_position(
                            g,
                            before.order,
                            before.current,
                            before.pos,
                        ).unwrap();
                        lemma_discovery_bounded(g, iterator@.order);
                        lemma_compile_step(
                            g,
                            before.order,
                            iterator@.order,
                            c,
                            p,
                            nfa_before,
                            nfa@,
                            (tuple.2, tuple.1),
                        );
                    }
                },
                Some(Err(e)) => {
                    proof {
                        let (c, p) = next_position(
                            g,
                            before.order,
                            before.current,
                            before.pos,
                        ).unwrap();
                        assert(!(1 <= g.productions(before.order[c])[p].len() <= 2));
                    }
                    return Err(e);
                },
            }
        }
        proof {
            let order = iterator@.order;
            assert(compiled(self@, order, nfa@));
            assert(exists|order: Seq<Token>| compiled(self@, order, nfa@));
        }
        Ok(nfa)
    }
}

impl FormalLanguage {
    /// The rules that the lines of a grammar text stand for, in the order
    /// in which their heads are first met, each with its productions in
    /// the order of the lines; `None` if a line is not of the form of a
    /// rule.
    pub fn get_grammer(lines: &Vec<String>) -> (grammer: Option<Vec<(Token, Vec<String>)>>)
        ensures
            match grammer {
                Some(rules) => rules_of_lines(line_texts(lines@)) == Some(rule_texts(rules@)),
                None => rules_of_lines(line_texts(lines@)) is None,
            },
    {
        let mut map: Vec<(Token, Vec<String>)> = Vec::new();
        let ghost all = line_texts(lines@);
        let mut k: usize = 0;
        proof {
            assert(all.take(0) =~= Seq::<Seq<char>>::empty());
            assert(rule_texts(map@) =~= Seq::<(Token, Seq<Seq<char>>)>::empty());
        }
        while k < lines.len()
            invariant
                k <= lines.len(),
                all == line_texts(lines@),
                rules_of_lines(all.take(k as int)) == Some(rule_texts(map@)),
            decreases lines.len() - k,
        {
            proof {
                assert(all.take(k + 1).drop_last() =~= all.take(k as int));
                assert(all.take(k + 1).last() == lines@[k as int]@);
            }
            match rule_line(lines[k].as_str()) {
                Some((head, body)) => {
                    add_production(&mut map, head, body);
                },
                None => {
                    proof {
                        lemma_rules_prefix(all, k + 1);
                    }
                    return None;
                },
            }
            k += 1;
        }
        proof {
            assert(all.take(k as int) =~= all);
        }
        Some(map)
    }
}

} // verus!
