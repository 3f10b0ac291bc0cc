//! Names and labels for drawing an automaton with the `dot` crate.

use crate::export::{edge_label, label_of};
use crate::token::Token;
use vstd::prelude::*;

verus! {

/// `dot::Id`, an identifier of the DOT language, held as it is.
#[verifier::external_type_specification]
#[verifier::external_body]
pub struct ExId<'a>(dot::Id<'a>);

/// `dot::LabelText`, the text of a label of a drawn graph, held as it is.
#[verifier::external_type_specification]
#[verifier::external_body]
pub struct ExLabelText<'a>(dot::LabelText<'a>);

/// `c` is a letter of the basic Latin alphabet or an underscore.
pub open spec fn letter_or_underscore(c: char) -> bool {
    ('a' as int <= c as int && c as int <= 'z' as int) || ('A' as int <= c as int && c as int
        <= 'Z' as int) || c == '_'
}

/// `c` may stand in an identifier: a letter, an underscore or a digit.
pub open spec fn constituent(c: char) -> bool {
    letter_or_underscore(c) || ('0' as int <= c as int && c as int <= '9' as int)
}

/// `name` is an identifier as `dot::Id::new` takes it: not empty, made of
/// letters, digits and underscores, and not beginning with a digit.
pub open spec fn is_identifier(name: Seq<char>) -> bool {
    &&& name.len() > 0
    &&& letter_or_underscore(name[0])
    &&& forall|i: int| 0 <= i < name.len() ==> constituent(#[trigger] name[i])
}

/// What `dot::Id::new` returns for the name `name`: the identifier that
/// holds `name`, or the error for a name that is no identifier.
pub uninterp spec fn id_new(name: Seq<char>) -> Result<dot::Id<'static>, ()>;

/// What `dot::LabelText::label` returns for the text `text`: the label
/// that shows `text` as it is.
pub uninterp spec fn label_new(text: Seq<char>) -> dot::LabelText<'static>;

/// `dot::Id::new`: makes an identifier of `name`. What it returns depends
/// on the characters of `name` alone. It succeeds exactly if `name` is not
/// empty, begins with a letter or an underscore, and goes on with
/// letters, digits and underscores alone.
#[verifier::external_body]
fn new_id(name: String) -> (id: Result<dot::Id<'static>, ()>)
    ensures
        id == id_new(name@),
        id is Ok <==> is_identifier(name@),
{
    dot::Id::new(name)
}

/// `dot::LabelText::label`: the label that shows `text` as it is. What
/// it returns depends on the characters of `text` alone.
#[verifier::external_body]
fn label_text(text: String) -> (label: dot::LabelText<'static>)
    ensures
        label == label_new(text@),
{
    dot::LabelText::label(text)
}

/// The character of the decimal digit `d`.
pub open spec fn digit(d: int) -> char {
    if d == 0 {
        '0'
    } else if d == 1 {
        '1'
    } else if d == 2 {
        '2'
    } else if d == 3 {
        '3'
    } else if d == 4 {
        '4'
    } else if d == 5 {
        '5'
    } else if d == 6 {
        '6'
    } else if d == 7 {
        '7'
    } else if d == 8 {
        '8'
    } else {
        '9'
    }
}

/// The decimal numeral of `n`, without leading zeros.
pub open spec fn decimal(n: nat) -> Seq<char>
    decreases n,
{
    if n < 10 {
        seq![digit(n as int)]
    } else {
        decimal(n / 10).push(digit((n % 10) as int))
    }
}

/// The name under which node `n` is drawn: `node` and the decimal
/// numeral of `n`.
pub open spec fn node_name_of(n: u64) -> Seq<char> {
    "node"@ + decimal(n as nat)
}

/// The character of the decimal digit `d`.
fn digit_char(d: u64) -> (c: char)
    requires
        d < 10,
    ensures
        c == digit(d as int),
{
    if d == 0 {
        '0'
    } else if d == 1 {
        '1'
    } else if d == 2 {
        '2'
    } else if d == 3 {
        '3'
    } else if d == 4 {
        '4'
    } else if d == 5 {
        '5'
    } else if d == 6 {
        '6'
    } else if d == 7 {
        '7'
    } else if d == 8 {
        '8'
    } else {
        '9'
    }
}

/// The name under which node `n` is drawn.
pub fn node_name(n: u64) -> (name: String)
    ensures
        name@ == node_name_of(n),
        is_identifier(name@),
{
    let mut low_first: Vec<char> = Vec::new();
    let mut rest = n;
    assert(decimal(n as nat) =~= decimal(rest as nat) + low_first@.reverse());
    while rest >= 10
        invariant
            decimal(n as nat) == decimal(rest as nat) + low_first@.reverse(),
        decreases rest,
    {
        let ghost before = low_first@;
        let ghost rest_before = rest;
        low_first.push(digit_char(rest % 10));
        rest = rest / 10;
        proof {
            assert(low_first@.reverse() =~= seq![digit((rest_before % 10) as int)]
                + before.reverse());
            assert(decimal(rest_before as nat) == decimal(rest as nat).push(
                digit((rest_before % 10) as int),
            ));
            assert(decimal(rest as nat).push(digit((rest_before % 10) as int)) + before.reverse()
                =~= decimal(rest as nat) + low_first@.reverse());
        }
    }
    let ghost before = low_first@;
    low_first.push(digit_char(rest));
    proof {
        assert(low_first@.reverse() =~= seq![digit(rest as int)] + before.reverse());
        assert(decimal(n as nat) =~= low_first@.reverse());
    }
    let mut name = "node".to_owned();
    let mut i: usize = low_first.len();
    while i > 0
        invariant
            i <= low_first.len(),
            name@ == "node"@ + low_first@.reverse().take(low_first.len() - i),
        decreases i,
    {
        i -= 1;
        name.push(low_first[i]);
        proof {
            let r = low_first@.reverse();
            let k = low_first.len() - i;
            assert(r.take(k) =~= r.take(k - 1).push(r[k - 1]));
            assert(r[k - 1] == low_first@[i as int]);
            assert(("node"@ + r.take(k - 1)).push(r[k - 1]) =~= "node"@ + r.take(k));
        }
    }
    proof {
        let r = low_first@.reverse();
        assert(r.take(low_first.len() as int) =~= r);
        lemma_node_name(n);
    }
    name
}

/// The numeral of a number holds digits alone.
proof fn lemma_decimal_digits(n: nat)
    ensures
        decimal(n).len() > 0,
        forall|i: int|
            0 <= i < decimal(n).len() ==> '0' as int <= (#[trigger] decimal(n)[i]) as int <= '9' as int,
    decreases n,
{
    if n >= 10 {
        lemma_decimal_digits(n / 10);
    }
}

/// The name of a node is an identifier.
proof fn lemma_node_name(n: u64)
    ensures
        is_identifier(node_name_of(n)),
{
    reveal_strlit("node");
    lemma_decimal_digits(n as nat);
    let name = node_name_of(n);
    assert(name[0] == 'n');
    assert forall|i: int| 0 <= i < name.len() implies constituent(#[trigger] name[i]) by {
        if i >= 4 {
            assert(name[i] == decimal(n as nat)[i - 4]);
        }
    }
}

/// The identifier under which every graph is drawn: the one that
/// `dot::Id::new` makes of the name `NFA`.
pub fn graph_id() -> (id: dot::Id<'static>)
    ensures
        id_new("NFA"@) == Ok::<dot::Id<'static>, ()>(id),
{
    let name = "NFA".to_owned();
    proof {
        reveal_strlit("NFA");
        assert(letter_or_underscore(name@[0]));
    }
    new_id(name).unwrap()
}

/// The identifier under which node `n` is drawn: the one that
/// `dot::Id::new` makes of `node` and the decimal numeral of `n`.
pub fn node_id(n: u64) -> (id: dot::Id<'static>)
    ensures
        id_new(node_name_of(n)) == Ok::<dot::Id<'static>, ()>(id),
{
    new_id(node_name(n)).unwrap()
}

/// The label with which an edge that carries `token` is drawn: the one
/// that `dot::LabelText::label` makes of the label of `token`.
pub fn edge_text(token: &Token) -> (label: dot::LabelText<'static>)
    ensures
        label == label_new(label_of(*token)),
{
    label_text(edge_label(token))
}

} // verus!
