//! Graphs as lists of nodes and edges, for tools that draw them.

use crate::token::Token;
use vstd::prelude::*;

verus! {

/// The edges that leave node `id`, each as source, target and label.
pub open spec fn node_edges(id: u64, edges: Seq<(Token, u64)>) -> Seq<(u64, u64, Token)> {
    Seq::new(edges.len(), |j: int| (id, edges[j].1, edges[j].0))
}

/// The edges of a graph, node by node in the order of `ids`.
pub open spec fn edge_list(nodes: Map<u64, Seq<(Token, u64)>>, ids: Seq<u64>) -> Seq<
    (u64, u64, Token),
>
    decreases ids.len(),
{
    if ids.len() == 0 {
        Seq::empty()
    } else {
        edge_list(nodes, ids.drop_last()) + node_edges(ids.last(), nodes[ids.last()])
    }
}

/// `list` holds every edge of the graph once, the edges of one node
/// together and in their order.
pub open spec fn lists_edges(nodes: Map<u64, Seq<(Token, u64)>>, list: Seq<(u64, u64, Token)>) -> bool {
    exists|ids: Seq<u64>|
        ids.no_duplicates() && ids.to_set() == nodes.dom() && list == #[trigger] edge_list(
            nodes,
            ids,
        )
}

/// Appends the edges that leave node `id` to `out`.
pub fn append_edges(out: &mut Vec<(u64, u64, Token)>, id: u64, edges: &Vec<(Token, u64)>)
    ensures
        final(out)@ == old(out)@ + node_edges(id, edges@),
{
    let ghost before = out@;
    let mut j: usize = 0;
    while j < edges.len()
        invariant
            j <= edges.len(),
            out@ == before + node_edges(id, edges@).take(j as int),
        decreases edges.len() - j,
    {
        let edge = edges[j];
        out.push((id, edge.1, edge.0));
        assert(out@ =~= before + node_edges(id, edges@).take(j + 1));
        j += 1;
    }
    assert(node_edges(id, edges@).take(j as int) =~= node_edges(id, edges@));
}

/// The label under which a symbol is shown: `Epsilon` for the empty
/// transition, the character itself for a terminal or a nonterminal.
pub open spec fn label_of(token: Token) -> Seq<char> {
    match token {
        Token::Epsilon => "Epsilon"@,
        Token::Character(c) => seq![c],
        Token::Identifier(c) => seq![c],
    }
}

/// The label of an edge: `Epsilon` for the empty transition, the
/// character that the symbol carries for every other symbol.
pub fn edge_label(token: &Token) -> (label: String)
    ensures
        label@ == label_of(*token),
{
    match *token {
        Token::Epsilon => "Epsilon".to_owned(),
        Token::Character(ch) => {
            let mut label = String::new();
            label.push(ch);
            label
        },
        Token::Identifier(ch) => {
            let mut label = String::new();
            label.push(ch);
            label
        },
    }
}

} // verus!
