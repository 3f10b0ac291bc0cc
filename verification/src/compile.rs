//! What it means to compile a right-linear grammar into an automaton, and
//! the steps of the proof that the compiler does so.

use crate::error::AutomataError;
use crate::nfa::{pushed, NfaView};
use crate::token::Token;
use vstd::prelude::*;

verus! {

/// The character that, alone in a production, stands for the empty word.
pub const EPSILON_MARK: char = '\u{3b5}';

/// The symbol that the character at position `i` of the production text
/// `text` stands for: the second character names a nonterminal, a lone
/// epsilon mark is `Epsilon`, and every other character is a terminal.
pub open spec fn symbol_at(text: Seq<char>, i: int) -> Token {
    if i == 1 {
        Token::Identifier(text[i])
    } else if i == 0 && text.len() == 1 && text[0] == EPSILON_MARK {
        Token::Epsilon
    } else {
        Token::Character(text[i])
    }
}

/// `symbols` is the production that the text `text` stands for.
pub open spec fn reads_as(text: Seq<char>, symbols: Seq<Token>) -> bool {
    &&& symbols.len() == text.len()
    &&& forall|i: int| 0 <= i < text.len() ==> #[trigger] symbols[i] == symbol_at(text, i)
}

/// The mathematical content of a grammar: the start symbol and the rules
/// in their order, each a head with its productions.
pub struct GrammarView {
    pub start: Token,
    pub rules: Seq<(Token, Seq<Seq<Token>>)>,
}

impl GrammarView {
    /// `r` is the first rule whose head is `t`.
    pub open spec fn first_rule(self, t: Token, r: int) -> bool {
        &&& 0 <= r < self.rules.len()
        &&& self.rules[r].0 == t
        &&& forall|earlier: int| 0 <= earlier < r ==> (#[trigger] self.rules[earlier]).0 != t
    }

    /// The productions of `t`: those of the first rule whose head is `t`,
    /// none if there is no such rule.
    pub open spec fn productions(self, t: Token) -> Seq<Seq<Token>> {
        if exists|r: int| self.first_rule(t, r) {
            self.rules[choose|r: int| self.first_rule(t, r)].1
        } else {
            Seq::empty()
        }
    }
}

/// The position `(p2, j2)` comes before `(p, j)` when the productions of
/// a list of symbols are walked symbol by symbol.
pub open spec fn before(p: int, j: int, p2: int, j2: int) -> bool {
    p2 < p || (p2 == p && j2 < j)
}

/// `t` is one of the first `k` symbols of `order`.
pub open spec fn seen(order: Seq<Token>, k: int, t: Token) -> bool {
    exists|i: int| 0 <= i < k && i < order.len() && #[trigger] order[i] == t
}

/// Production `j` of `order[p]` has two symbols, the second being `t`.
pub open spec fn refers(g: GrammarView, order: Seq<Token>, p: int, j: int, t: Token) -> bool {
    &&& 0 <= p < order.len()
    &&& 0 <= j < g.productions(order[p]).len()
    &&& g.productions(order[p])[j].len() == 2
    &&& g.productions(order[p])[j][1] == t
}

/// Every production walked before position `(p, j)` that has two symbols
/// names one of the first `k` symbols of `order`.
pub open spec fn walk_seen(g: GrammarView, order: Seq<Token>, k: int, p: int, j: int) -> bool {
    forall|p2: int, j2: int|
        0 <= p2 < order.len() && before(p, j, p2, j2) && 0 <= j2 < g.productions(order[p2]).len()
            && (#[trigger] g.productions(order[p2])[j2]).len() == 2 ==> seen(
            order,
            k,
            g.productions(order[p2])[j2][1],
        )
}

/// `order[k]` is first named at position `(p, j)`, by an earlier symbol
/// of `order`.
pub open spec fn first_at(g: GrammarView, order: Seq<Token>, k: int, p: int, j: int) -> bool {
    &&& p < k
    &&& refers(g, order, p, j, order[k])
    &&& walk_seen(g, order, k, p, j)
}

/// `order[k]` is first named by an earlier symbol of `order`, at a
/// position before which only symbols before `order[k]` are named.
pub open spec fn found_first(g: GrammarView, order: Seq<Token>, k: int) -> bool {
    exists|p: int, j: int| #[trigger] first_at(g, order, k, p, j)
}

/// `order` lists symbols in the order in which a breadth-first walk from
/// the start symbol first meets them: it begins with the start symbol,
/// holds no symbol twice, and each later symbol is the first new symbol
/// that the productions of the symbols before it name.
pub open spec fn discovery(g: GrammarView, order: Seq<Token>) -> bool {
    &&& order.len() >= 1
    &&& order[0] == g.start
    &&& order.no_duplicates()
    &&& forall|k: int| 1 <= k < order.len() ==> #[trigger] found_first(g, order, k)
}

/// The edge `e` is the one that the production `prod` calls for: it has
/// the production's first symbol as its label and leads to the state of
/// the production's second symbol, or to the accepting state 0 if there
/// is no second symbol. The state of `order[i]` is `i + 1`.
pub open spec fn edge_for(order: Seq<Token>, prod: Seq<Token>, e: (Token, u64)) -> bool {
    &&& e.0 == prod[0]
    &&& if prod.len() == 2 {
        1 <= e.1 <= order.len() && order[e.1 - 1] == prod[1]
    } else {
        e.1 == 0
    }
}

/// The productions of the first `c` symbols of `order`, and the first
/// `p` productions of `order[c]`, have one or two symbols each.
pub open spec fn shaped(g: GrammarView, order: Seq<Token>, c: int, p: int) -> bool {
    forall|p2: int, j2: int|
        0 <= p2 < order.len() && before(c, p, p2, j2) && 0 <= j2 < g.productions(order[p2]).len()
            ==> 1 <= (#[trigger] g.productions(order[p2])[j2]).len() <= 2
}

/// Some production walked before position `(c, p)` has a single symbol.
pub open spec fn ends(g: GrammarView, order: Seq<Token>, c: int, p: int) -> bool {
    exists|p2: int, j2: int|
        0 <= p2 < order.len() && before(c, p, p2, j2) && 0 <= j2 < g.productions(order[p2]).len()
            && (#[trigger] g.productions(order[p2])[j2]).len() == 1
}

/// The state of the graph `nfa` once the productions before position
/// `(c, p)` have been compiled: state 1 is the start and state 0 accepts;
/// the state of each symbol walked has one edge for each of its
/// productions, in their order; the state of `order[c]` has its first `p`
/// edges; the states of the symbols not yet reached have none; and state 0
/// exists, without edges, if a production with a single symbol was met.
pub open spec fn compiled_to(
    g: GrammarView,
    order: Seq<Token>,
    c: int,
    p: int,
    nfa: NfaView,
) -> bool {
    &&& nfa.start == 1
    &&& nfa.terminal == 0
    &&& forall|id: u64|
        #[trigger] nfa.nodes.contains_key(id) <==> (1 <= id <= order.len()) || (id == 0 && ends(
            g,
            order,
            c,
            p,
        ))
    &&& nfa.nodes.contains_key(0) ==> nfa.nodes[0].len() == 0
    &&& forall|k: int|
        0 <= k < order.len() ==> (#[trigger] nfa.nodes[(k + 1) as u64]).len() == if k < c {
            g.productions(order[k]).len() as int
        } else if k == c {
            p
        } else {
            0
        }
    &&& forall|k: int, j: int|
        0 <= k < order.len() && 0 <= j < nfa.nodes[(k + 1) as u64].len() ==> edge_for(
            order,
            g.productions(order[k])[j],
            #[trigger] nfa.nodes[(k + 1) as u64][j],
        )
}

/// `nfa` is the grammar compiled: `order` lists the symbols that can be
/// reached from the start symbol in the order of a breadth-first walk,
/// every production of these symbols has one or two symbols, and the
/// state of each listed symbol has exactly the edges that its productions
/// call for.
pub open spec fn compiled(g: GrammarView, order: Seq<Token>, nfa: NfaView) -> bool {
    &&& discovery(g, order)
    &&& walk_seen(g, order, order.len() as int, order.len() as int, 0)
    &&& shaped(g, order, order.len() as int, 0)
    &&& compiled_to(g, order, order.len() as int, 0, nfa)
}

/// Some symbol that a breadth-first walk from the start symbol meets has
/// a production that has neither one nor two symbols.
pub open spec fn malformed(g: GrammarView) -> bool {
    exists|order: Seq<Token>, k: int, j: int|
        discovery(g, order) && 0 <= k < order.len() && 0 <= j < g.productions(order[k]).len() && !(1
            <= (#[trigger] g.productions(order[k])[j]).len() <= 2)
}

/// The first position at or after `(c, p)` at which a symbol of `order`
/// has a production; `None` if there is none.
pub open spec fn next_position(g: GrammarView, order: Seq<Token>, c: int, p: int) -> Option<
    (int, int),
>
    decreases order.len() - c,
{
    if 0 <= c < order.len() && 0 <= p < g.productions(order[c]).len() {
        Some((c, p))
    } else if -1 <= c && c + 1 < order.len() {
        next_position(g, order, c + 1, 0)
    } else {
        None
    }
}

/// The mathematical content of a compiler pass in progress: the grammar,
/// the symbols met so far in the order in which they were met, and the
/// position of the next production: production `pos` of
/// `order[current]`. Before the first step `current` is -1.
pub struct CompilerView {
    pub grammar: GrammarView,
    pub order: Seq<Token>,
    pub current: int,
    pub pos: int,
}

/// How one call of `next` changes the state `before` into `after` and
/// what it yields.
pub open spec fn stepped(
    before: CompilerView,
    after: CompilerView,
    item: Option<Result<(u64, u64, Token), AutomataError>>,
) -> bool {
    let g = before.grammar;
    match next_position(g, before.order, before.current, before.pos) {
        None => {
            &&& item is None
            &&& after.order == before.order
            &&& after.current == before.order.len() - 1
        },
        Some((c, p)) => {
            let prod = g.productions(before.order[c])[p];
            &&& item is Some
            &&& after.current == c
            &&& match item.unwrap() {
                Ok((from, to, label)) => {
                    &&& 1 <= prod.len() <= 2
                    &&& from == c + 1
                    &&& edge_for(after.order, prod, (label, to))
                    &&& after.pos == p + 1
                    &&& after.order == if prod.len() == 2 && !before.order.contains(prod[1]) {
                        before.order.push(prod[1])
                    } else {
                        before.order
                    }
                },
                Err(e) => {
                    &&& e == AutomataError::MalformedGrammar
                    &&& !(1 <= prod.len() <= 2)
                    &&& after.pos == p
                    &&& after.order == before.order
                },
            }
        },
    }
}

/// What `find_productions` finds is what `productions` names.
pub proof fn lemma_productions(g: GrammarView, t: Token)
    ensures
        forall|r: int| g.first_rule(t, r) ==> g.productions(t) == (#[trigger] g.rules[r]).1,
        (forall|r: int| 0 <= r < g.rules.len() ==> (#[trigger] g.rules[r]).0 != t)
            ==> g.productions(t).len() == 0,
{
    assert forall|r: int| g.first_rule(t, r) implies g.productions(t) == (#[trigger] g.rules[r]).1 by {
        let r2 = choose|r2: int| g.first_rule(t, r2);
        if r2 < r {
            assert(g.rules[r2].0 != t);
        } else if r < r2 {
            assert(g.rules[r].0 != t);
        }
    }
}

/// When every production of `order[c]` has been walked, the walk stands
/// at the first production of the next symbol.
pub proof fn lemma_walk_next(g: GrammarView, order: Seq<Token>, c: int, p: int)
    requires
        -1 <= c,
        c + 1 < order.len(),
        c >= 0 ==> p >= g.productions(order[c]).len(),
        walk_seen(g, order, order.len() as int, c, p),
        shaped(g, order, c, p),
    ensures
        walk_seen(g, order, order.len() as int, c + 1, 0),
        shaped(g, order, c + 1, 0),
{
}

/// A step over a production with two symbols keeps the walk in order.
pub proof fn lemma_step_two(g: GrammarView, order: Seq<Token>, order2: Seq<Token>, c: int, p: int)
    requires
        0 <= c < order.len(),
        0 <= p < g.productions(order[c]).len(),
        g.productions(order[c])[p].len() == 2,
        discovery(g, order),
        walk_seen(g, order, order.len() as int, c, p),
        shaped(g, order, c, p),
        order2 == if order.contains(g.productions(order[c])[p][1]) {
            order
        } else {
            order.push(g.productions(order[c])[p][1])
        },
    ensures
        discovery(g, order2),
        walk_seen(g, order2, order2.len() as int, c, p + 1),
        shaped(g, order2, c, p + 1),
{
    let t = g.productions(order[c])[p][1];
    let n = order.len() as int;
    assert forall|i: int| 0 <= i < n implies order2[i] == order[i] by {}
    assert forall|k: int, t2: Token| seen(order, k, t2) implies seen(order2, k, t2) by {
        let i = choose|i: int| 0 <= i < k && i < order.len() && #[trigger] order[i] == t2;
        assert(order2[i] == t2);
    }
    assert forall|k: int, p1: int, j1: int| k <= n && walk_seen(g, order, k, p1, j1) && p1
        <= n implies walk_seen(g, order2, k, p1, j1) by {
        assert forall|p2: int, j2: int|
            0 <= p2 < order2.len() && before(p1, j1, p2, j2) && 0 <= j2 < g.productions(
                order2[p2],
            ).len() && (#[trigger] g.productions(order2[p2])[j2]).len() == 2 implies seen(
            order2,
            k,
            g.productions(order2[p2])[j2][1],
        ) by {
            assert(order2[p2] == order[p2]);
            assert(seen(order, k, g.productions(order[p2])[j2][1]));
        }
    }
    assert forall|k: int| 1 <= k < order2.len() implies #[trigger] found_first(g, order2, k) by {
        if k < n {
            assert(found_first(g, order, k));
            let (p1, j1) = choose|p1: int, j1: int| #[trigger] first_at(g, order, k, p1, j1);
            assert(order2[p1] == order[p1]);
            assert(walk_seen(g, order2, k, p1, j1));
            assert(first_at(g, order2, k, p1, j1));
        } else {
            assert(order2[c] == order[c]);
            assert forall|p2: int, j2: int|
                0 <= p2 < order2.len() && before(c, p, p2, j2) && 0 <= j2 < g.productions(
                    order2[p2],
                ).len() && (#[trigger] g.productions(order2[p2])[j2]).len() == 2 implies seen(
                order2,
                k,
                g.productions(order2[p2])[j2][1],
            ) by {
                assert(order2[p2] == order[p2]);
                assert(seen(order, n, g.productions(order[p2])[j2][1]));
            }
            assert(first_at(g, order2, k, c, p));
        }
    }
    assert forall|a: int, b: int|
        0 <= a < order2.len() && 0 <= b < order2.len() && a != b implies order2[a] != order2[b] by {
        if a < n && b < n {
        } else if a < n {
            assert(order.contains(order[a]));
        } else {
            assert(order.contains(order[b]));
        }
    }
    assert forall|p2: int, j2: int|
        0 <= p2 < order2.len() && before(c, p + 1, p2, j2) && 0 <= j2 < g.productions(
            order2[p2],
        ).len() && (#[trigger] g.productions(order2[p2])[j2]).len() == 2 implies seen(
        order2,
        order2.len() as int,
        g.productions(order2[p2])[j2][1],
    ) by {
        assert(order2[p2] == order[p2]);
        if p2 == c && j2 == p {
            if order.contains(t) {
                let i = choose|i: int| 0 <= i < order.len() && order[i] == t;
                assert(order2[i] == t);
            } else {
                assert(order2[n] == t);
            }
        } else {
            assert(seen(order, n, g.productions(order[p2])[j2][1]));
        }
    }
    assert forall|p2: int, j2: int|
        0 <= p2 < order2.len() && before(c, p + 1, p2, j2) && 0 <= j2 < g.productions(
            order2[p2],
        ).len() implies 1 <= (#[trigger] g.productions(order2[p2])[j2]).len() <= 2 by {
        assert(order2[p2] == order[p2]);
    }
}

/// A step over a production with one symbol keeps the walk in order.
pub proof fn lemma_step_one(g: GrammarView, order: Seq<Token>, c: int, p: int)
    requires
        0 <= c < order.len(),
        0 <= p < g.productions(order[c]).len(),
        g.productions(order[c])[p].len() == 1,
        walk_seen(g, order, order.len() as int, c, p),
        shaped(g, order, c, p),
    ensures
        walk_seen(g, order, order.len() as int, c, p + 1),
        shaped(g, order, c, p + 1),
{
}

/// The second symbols of the productions that have two symbols.
pub open spec fn seconds(prods: Seq<Seq<Token>>) -> Seq<Token>
    decreases prods.len(),
{
    if prods.len() == 0 {
        Seq::empty()
    } else if prods.last().len() == 2 {
        seconds(prods.drop_last()).push(prods.last()[1])
    } else {
        seconds(prods.drop_last())
    }
}

/// The symbols that the productions of the rules name, rule by rule.
pub open spec fn targets(rules: Seq<(Token, Seq<Seq<Token>>)>) -> Seq<Token>
    decreases rules.len(),
{
    if rules.len() == 0 {
        Seq::empty()
    } else {
        targets(rules.drop_last()) + seconds(rules.last().1)
    }
}

/// `seconds` holds the second symbol of each production of two symbols.
pub proof fn lemma_seconds_contains(prods: Seq<Seq<Token>>, j: int)
    requires
        0 <= j < prods.len(),
        prods[j].len() == 2,
    ensures
        seconds(prods).contains(prods[j][1]),
    decreases prods.len(),
{
    let rest = prods.drop_last();
    if j == prods.len() - 1 {
        let s = seconds(prods);
        assert(s[s.len() - 1] == prods[j][1]);
    } else {
        lemma_seconds_contains(rest, j);
        assert(rest[j] == prods[j]);
        let k = choose|k: int| 0 <= k < seconds(rest).len() && seconds(rest)[k] == prods[j][1];
        if prods.last().len() == 2 {
            assert(seconds(prods)[k] == prods[j][1]);
        }
    }
}

/// `targets` holds every symbol that a production of a rule names.
pub proof fn lemma_targets_contains(rules: Seq<(Token, Seq<Seq<Token>>)>, r: int, j: int)
    requires
        0 <= r < rules.len(),
        0 <= j < rules[r].1.len(),
        rules[r].1[j].len() == 2,
    ensures
        targets(rules).contains(rules[r].1[j][1]),
    decreases rules.len(),
{
    let rest = rules.drop_last();
    let t = rules[r].1[j][1];
    let first = targets(rest);
    let second = seconds(rules.last().1);
    if r == rules.len() - 1 {
        lemma_seconds_contains(rules[r].1, j);
        let k = choose|k: int| 0 <= k < second.len() && second[k] == t;
        assert((first + second)[first.len() + k] == t);
    } else {
        assert(rest[r] == rules[r]);
        lemma_targets_contains(rest, r, j);
        let k = choose|k: int| 0 <= k < first.len() && first[k] == t;
        assert((first + second)[k] == t);
    }
}

/// A discovery lists at most one symbol more than the productions of the
/// grammar name.
pub proof fn lemma_discovery_bounded(g: GrammarView, order: Seq<Token>)
    requires
        discovery(g, order),
    ensures
        order.len() <= targets(g.rules).len() + 1,
{
    let tail = order.skip(1);
    let all = targets(g.rules);
    assert forall|a: int, b: int| 0 <= a < tail.len() && 0 <= b < tail.len() && a != b implies tail[a]
        != tail[b] by {
        assert(order[a + 1] != order[b + 1]);
    }
    tail.unique_seq_to_set();
    assert forall|t: Token| tail.to_set().contains(t) implies all.to_set().contains(t) by {
        let a = choose|a: int| 0 <= a < tail.len() && tail[a] == t;
        let k = a + 1;
        assert(found_first(g, order, k));
        let (p, j) = choose|p: int, j: int| #[trigger] first_at(g, order, k, p, j);
        lemma_productions(g, order[p]);
        let r = choose|r: int| g.first_rule(order[p], r);
        assert(g.first_rule(order[p], r));
        assert(g.productions(order[p]) == g.rules[r].1);
        lemma_targets_contains(g.rules, r, j);
    }
    vstd::seq_lib::seq_to_set_is_finite(all);
    vstd::set_lib::lemma_len_subset(tail.to_set(), all.to_set());
    all.lemma_cardinality_of_set();
}

/// Where the walk goes on from `(c0, p0)`: to a later symbol, or nowhere
/// if `(c0, p0)` is itself a position with a production. The graph
/// compiled up to `(c0, p0)` is the graph compiled up to that position.
pub proof fn lemma_settled(g: GrammarView, order: Seq<Token>, c0: int, p0: int, nfa: NfaView)
    requires
        -1 <= c0 < order.len(),
        0 <= p0,
        c0 >= 0 ==> p0 <= g.productions(order[c0]).len(),
        c0 == -1 ==> p0 == 0,
        next_position(g, order, c0, p0) is Some,
        compiled_to(g, order, c0, p0, nfa),
    ensures
        ({
            let (c, p) = next_position(g, order, c0, p0).unwrap();
            &&& 0 <= c < order.len()
            &&& 0 <= p < g.productions(order[c]).len()
            &&& c > c0 || (c == c0 && p == p0)
            &&& compiled_to(g, order, c, p, nfa)
        }),
    decreases order.len() - c0,
{
    if 0 <= c0 && p0 < g.productions(order[c0]).len() {
    } else {
        assert(compiled_to(g, order, c0 + 1, 0, nfa)) by {
            if ends(g, order, c0, p0) {
                let (p2, j2) = choose|p2: int, j2: int|
                    0 <= p2 < order.len() && before(c0, p0, p2, j2) && 0 <= j2 < g.productions(
                        order[p2],
                    ).len() && (#[trigger] g.productions(order[p2])[j2]).len() == 1;
                assert(before(c0 + 1, 0, p2, j2));
            }
            if ends(g, order, c0 + 1, 0) {
                let (p2, j2) = choose|p2: int, j2: int|
                    0 <= p2 < order.len() && before(c0 + 1, 0, p2, j2) && 0 <= j2
                        < g.productions(order[p2]).len() && (#[trigger] g.productions(
                        order[p2],
                    )[j2]).len() == 1;
                assert(before(c0, p0, p2, j2));
            }
        }
        lemma_settled(g, order, c0 + 1, 0, nfa);
    }
}

/// Adding the edge for the production at position `(c, p)` to the graph
/// compiled up to that position gives the graph compiled up to the next
/// position.
pub proof fn lemma_compile_step(
    g: GrammarView,
    order: Seq<Token>,
    order2: Seq<Token>,
    c: int,
    p: int,
    nfa: NfaView,
    nfa2: NfaView,
    e: (Token, u64),
)
    requires
        order.no_duplicates(),
        order2.no_duplicates(),
        order2.len() <= u64::MAX,
        0 <= c < order.len(),
        0 <= p < g.productions(order[c]).len(),
        compiled_to(g, order, c, p, nfa),
        1 <= g.productions(order[c])[p].len() <= 2,
        edge_for(order2, g.productions(order[c])[p], e),
        order2 == if g.productions(order[c])[p].len() == 2 && !order.contains(
            g.productions(order[c])[p][1],
        ) {
            order.push(g.productions(order[c])[p][1])
        } else {
            order
        },
        nfa2.start == nfa.start,
        nfa2.terminal == nfa.terminal,
        nfa2.nodes == pushed(nfa.nodes, (c + 1) as u64, e),
    ensures
        compiled_to(g, order2, c, p + 1, nfa2),
{
    let prod = g.productions(order[c])[p];
    let n = order.len() as int;
    let from = (c + 1) as u64;
    assert forall|i: int| 0 <= i < n implies order2[i] == order[i] by {}
    assert(nfa.nodes.contains_key(from));
    if prod.len() == 2 {
        if e.1 - 1 < n {
            assert(order.contains(order[e.1 - 1]));
        } else {
            assert(order2.len() == n + 1);
        }
    }
    // which states there are
    assert forall|p2: int, j2: int| before(c, p + 1, p2, j2) <==> before(c, p, p2, j2) || (p2 == c
        && j2 == p) by {}
    assert(ends(g, order2, c, p + 1) <==> ends(g, order, c, p) || prod.len() == 1) by {
        if ends(g, order, c, p) {
            let (p2, j2) = choose|p2: int, j2: int|
                0 <= p2 < order.len() && before(c, p, p2, j2) && 0 <= j2 < g.productions(
                    order[p2],
                ).len() && (#[trigger] g.productions(order[p2])[j2]).len() == 1;
            assert(order2[p2] == order[p2]);
            assert(before(c, p + 1, p2, j2));
        }
        if prod.len() == 1 {
            assert(order2[c] == order[c]);
            assert(before(c, p + 1, c, p) && g.productions(order2[c])[p].len() == 1);
        }
        if ends(g, order2, c, p + 1) {
            let (p2, j2) = choose|p2: int, j2: int|
                0 <= p2 < order2.len() && before(c, p + 1, p2, j2) && 0 <= j2 < g.productions(
                    order2[p2],
                ).len() && (#[trigger] g.productions(order2[p2])[j2]).len() == 1;
            assert(order2[p2] == order[p2]);
            if !(p2 == c && j2 == p) {
                assert(before(c, p, p2, j2));
            }
        }
    }
    assert forall|id: u64| #[trigger] nfa2.nodes.contains_key(id) <==> (1 <= id <= order2.len())
        || (id == 0 && ends(g, order2, c, p + 1)) by {
        if nfa.nodes.contains_key(id) {
        }
    }
    // the edges of each state
    assert forall|k: int| 0 <= k < order2.len() implies (#[trigger] nfa2.nodes[(k + 1) as u64]).len()
        == if k < c {
        g.productions(order2[k]).len() as int
    } else if k == c {
        p + 1
    } else {
        0
    } by {
        if k < n {
            assert(order2[k] == order[k]);
            assert(nfa.nodes.contains_key((k + 1) as u64));
            if k != c {
                assert(nfa2.nodes[(k + 1) as u64] == nfa.nodes[(k + 1) as u64]);
            }
        } else {
            assert(!nfa.nodes.contains_key((k + 1) as u64));
        }
    }
    assert forall|k: int, j: int|
        0 <= k < order2.len() && 0 <= j < nfa2.nodes[(k + 1) as u64].len() implies edge_for(
        order2,
        g.productions(order2[k])[j],
        #[trigger] nfa2.nodes[(k + 1) as u64][j],
    ) by {
        if k < n {
            assert(order2[k] == order[k]);
            assert(nfa.nodes.contains_key((k + 1) as u64));
            if k == c && j == p {
            } else {
                let old_e = nfa.nodes[(k + 1) as u64][j];
                assert(nfa2.nodes[(k + 1) as u64][j] == old_e);
                assert(edge_for(order, g.productions(order[k])[j], old_e));
                if g.productions(order[k])[j].len() == 2 {
                    assert(order2[old_e.1 - 1] == order[old_e.1 - 1]);
                }
            }
        } else {
            assert(!nfa.nodes.contains_key((k + 1) as u64));
        }
    }
    assert(nfa2.nodes.contains_key(0) ==> nfa2.nodes[0].len() == 0) by {
        if nfa.nodes.contains_key(0) {
            assert(nfa.nodes[0].len() == 0);
        }
    }
}

/// When the walk has nowhere to go on to, the graph compiled so far is
/// the grammar compiled.
pub proof fn lemma_finished(g: GrammarView, order: Seq<Token>, c0: int, p0: int, nfa: NfaView)
    requires
        -1 <= c0 < order.len(),
        0 <= p0,
        c0 >= 0 ==> p0 <= g.productions(order[c0]).len(),
        c0 == -1 ==> p0 == 0,
        next_position(g, order, c0, p0) is None,
        discovery(g, order),
        walk_seen(g, order, order.len() as int, c0, p0),
        shaped(g, order, c0, p0),
        compiled_to(g, order, c0, p0, nfa),
    ensures
        compiled(g, order, nfa),
    decreases order.len() - c0,
{
    if c0 + 1 < order.len() {
        assert(compiled_to(g, order, c0 + 1, 0, nfa)) by {
            if ends(g, order, c0, p0) {
                let (p2, j2) = choose|p2: int, j2: int|
                    0 <= p2 < order.len() && before(c0, p0, p2, j2) && 0 <= j2 < g.productions(
                        order[p2],
                    ).len() && (#[trigger] g.productions(order[p2])[j2]).len() == 1;
                assert(before(c0 + 1, 0, p2, j2));
            }
            if ends(g, order, c0 + 1, 0) {
                let (p2, j2) = choose|p2: int, j2: int|
                    0 <= p2 < order.len() && before(c0 + 1, 0, p2, j2) && 0 <= j2
                        < g.productions(order[p2]).len() && (#[trigger] g.productions(
                        order[p2],
                    )[j2]).len() == 1;
                assert(before(c0, p0, p2, j2));
            }
        }
        lemma_finished(g, order, c0 + 1, 0, nfa);
    } else {
        let n = order.len() as int;
        assert(compiled_to(g, order, n, 0, nfa)) by {
            if ends(g, order, c0, p0) {
                let (p2, j2) = choose|p2: int, j2: int|
                    0 <= p2 < order.len() && before(c0, p0, p2, j2) && 0 <= j2 < g.productions(
                        order[p2],
                    ).len() && (#[trigger] g.productions(order[p2])[j2]).len() == 1;
                assert(before(n, 0, p2, j2));
            }
            if ends(g, order, n, 0) {
                let (p2, j2) = choose|p2: int, j2: int|
                    0 <= p2 < order.len() && before(n, 0, p2, j2) && 0 <= j2 < g.productions(
                        order[p2],
                    ).len() && (#[trigger] g.productions(order[p2])[j2]).len() == 1;
                assert(before(c0, p0, p2, j2));
            }
        }
    }
}

/// Every symbol of a discovery is listed in a compiled grammar's order.
pub proof fn lemma_discovery_listed(
    g: GrammarView,
    order: Seq<Token>,
    nfa: NfaView,
    other: Seq<Token>,
    k: int,
)
    requires
        compiled(g, order, nfa),
        discovery(g, other),
        0 <= k < other.len(),
    ensures
        order.contains(other[k]),
    decreases k,
{
    if k == 0 {
        assert(order[0] == other[0]);
    } else {
        assert(found_first(g, other, k));
        let (p, j) = choose|p: int, j: int| #[trigger] first_at(g, other, k, p, j);
        lemma_discovery_listed(g, order, nfa, other, p);
        let i = choose|i: int| 0 <= i < order.len() && order[i] == other[p];
        assert(g.productions(order[i])[j].len() == 2);
        assert(seen(order, order.len() as int, g.productions(order[i])[j][1]));
        let i2 = choose|i2: int|
            0 <= i2 < order.len() && i2 < order.len() && #[trigger] order[i2] == other[k];
        assert(order[i2] == other[k]);
    }
}

/// A grammar that compiles is not malformed: `get_nfa` returns an
/// automaton exactly for the grammars whose productions, as far as a walk
/// from the start symbol meets them, have one or two symbols each.
pub proof fn lemma_compiled_not_malformed(g: GrammarView, order: Seq<Token>, nfa: NfaView)
    requires
        compiled(g, order, nfa),
    ensures
        !malformed(g),
{
    if malformed(g) {
        let (other, k, j) = choose|other: Seq<Token>, k: int, j: int|
            discovery(g, other) && 0 <= k < other.len() && 0 <= j < g.productions(other[k]).len()
                && !(1 <= (#[trigger] g.productions(other[k])[j]).len() <= 2);
        lemma_discovery_listed(g, order, nfa, other, k);
        let i = choose|i: int| 0 <= i < order.len() && order[i] == other[k];
        assert(1 <= g.productions(order[i])[j].len() <= 2);
    }
}

/// No production begins with a nonterminal: the first symbol of each is
/// a terminal or `Epsilon`.
pub open spec fn lexical(g: GrammarView) -> bool {
    forall|r: int, j: int|
        0 <= r < g.rules.len() && 0 <= j < g.rules[r].1.len() && (#[trigger] g.rules[r].1[j]).len()
            > 0 ==> !(g.rules[r].1[j][0] is Identifier)
}

/// A nonterminal never stands on an edge of the automaton that a grammar
/// is compiled to, if no production of the grammar begins with one.
pub proof fn lemma_compiled_labels(
    g: GrammarView,
    order: Seq<Token>,
    nfa: NfaView,
    id: u64,
    j: int,
)
    requires
        lexical(g),
        compiled(g, order, nfa),
        nfa.nodes.contains_key(id),
        0 <= j < nfa.nodes[id].len(),
    ensures
        !(nfa.nodes[id][j].0 is Identifier),
{
    let k = id - 1;
    assert(1 <= id <= order.len());
    assert(nfa.nodes[(k + 1) as u64].len() == g.productions(order[k]).len());
    assert(edge_for(order, g.productions(order[k])[j], nfa.nodes[(k + 1) as u64][j]));
    lemma_productions(g, order[k]);
    let r = choose|r: int| g.first_rule(order[k], r);
    assert(g.first_rule(order[k], r));
    assert(g.productions(order[k]) == g.rules[r].1);
    assert(g.rules[r].1[j].len() > 0);
}

} // verus!
