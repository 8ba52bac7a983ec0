//! The document serializer: renders a document tree in the canonical
//! two-space indented style, mappings one key per line, lists one dash per
//! line, empty containers in flow style.

use vstd::prelude::*;

use crate::chars::{int_chars, push_int_chars, str_to_chars};
use crate::value::{
    entries_depth, entries_view, items_depth, lemma_entries_depth_index, lemma_entries_view,
    lemma_items_depth_index, lemma_list_view, lemma_view_variant, list_view, node_depth, Node,
    Value,
};

verus! {

/// `n` spaces of indentation.
pub open spec fn spaces(n: nat) -> Seq<char> {
    Seq::new(n, |i: int| ' ')
}

/// Whether a node renders on one line after its key.
pub open spec fn is_scalar(n: Node) -> bool {
    n is Null || n is Bool || n is Int || n is Str
}

/// The one-line rendering of a scalar; empty containers render in flow
/// style.
pub open spec fn scalar_chars(n: Node) -> Seq<char> {
    match n {
        Node::Null => "null"@,
        Node::Bool(b) => if b {
            "true"@
        } else {
            "false"@
        },
        Node::Int(i) => int_chars(i),
        Node::Str(s) => s,
        Node::List(_) => "[]"@,
        Node::Mapping(_) => "{}"@,
    }
}

/// The block rendering of mapping entries, each at the given indent.
pub open spec fn emit_entries(es: Seq<(Seq<char>, Node)>, indent: nat) -> Seq<char>
    decreases es, 2int,
{
    if es.len() == 0 {
        Seq::empty()
    } else {
        emit_entry(spaces(indent), es[0].0, es[0].1, indent) + emit_entries(es.skip(1), indent)
    }
}

/// One mapping entry: the lead (indentation, or a dash lead for the first
/// entry of a list item), the key, and the value either on the same line or
/// as an indented block below.
pub open spec fn emit_entry(lead: Seq<char>, k: Seq<char>, v: Node, indent: nat) -> Seq<char>
    decreases v, 0int,
{
    if is_scalar(v) {
        lead + k + ": "@ + scalar_chars(v) + seq!['\n']
    } else if v is Mapping {
        let es = v->Mapping_0;
        if es.len() == 0 {
            lead + k + ": {}"@ + seq!['\n']
        } else {
            lead + k + ":"@ + seq!['\n'] + emit_entries(es, indent + 2)
        }
    } else {
        let items = v->List_0;
        if items.len() == 0 {
            lead + k + ": []"@ + seq!['\n']
        } else {
            lead + k + ":"@ + seq!['\n'] + emit_items(items, indent + 2)
        }
    }
}

/// The block rendering of list items, each at the given indent.
pub open spec fn emit_items(items: Seq<Node>, indent: nat) -> Seq<char>
    decreases items, 2int,
{
    if items.len() == 0 {
        Seq::empty()
    } else {
        emit_item(items[0], indent) + emit_items(items.skip(1), indent)
    }
}

/// One list item: a dash, then the item inline or as a block.
pub open spec fn emit_item(v: Node, indent: nat) -> Seq<char>
    decreases v, 1int,
{
    if is_scalar(v) {
        spaces(indent) + "- "@ + scalar_chars(v) + seq!['\n']
    } else if v is Mapping {
        let es = v->Mapping_0;
        if es.len() == 0 {
            spaces(indent) + "- {}"@ + seq!['\n']
        } else {
            emit_entry(spaces(indent) + "- "@, es[0].0, es[0].1, indent + 2) + emit_entries(
                es.skip(1),
                indent + 2,
            )
        }
    } else {
        let items2 = v->List_0;
        if items2.len() == 0 {
            spaces(indent) + "- []"@ + seq!['\n']
        } else {
            spaces(indent) + "-"@ + seq!['\n'] + emit_items(items2, indent + 2)
        }
    }
}

/// Rendering entries extended by one entry appends that entry's rendering.
pub proof fn lemma_emit_entries_snoc(es: Seq<(Seq<char>, Node)>, k: Seq<char>, v: Node, indent: nat)
    ensures
        emit_entries(es.push((k, v)), indent) == emit_entries(es, indent) + emit_entry(
            spaces(indent),
            k,
            v,
            indent,
        ),
    decreases es.len(),
{
    let es2 = es.push((k, v));
    if es.len() == 0 {
        assert(es2[0] == (k, v));
        assert(es2.skip(1) =~= Seq::<(Seq<char>, Node)>::empty());
        assert(emit_entries(Seq::<(Seq<char>, Node)>::empty(), indent) == Seq::<char>::empty());
        assert(emit_entries(es2, indent) =~= emit_entries(es, indent) + emit_entry(
            spaces(indent),
            k,
            v,
            indent,
        ));
    } else {
        assert(es2[0] == es[0]);
        assert(es2.skip(1) =~= es.skip(1).push((k, v)));
        lemma_emit_entries_snoc(es.skip(1), k, v, indent);
        assert(emit_entries(es2, indent) =~= emit_entries(es, indent) + emit_entry(
            spaces(indent),
            k,
            v,
            indent,
        ));
    }
}

/// Rendering items extended by one item appends that item's rendering.
pub proof fn lemma_emit_items_snoc(items: Seq<Node>, v: Node, indent: nat)
    ensures
        emit_items(items.push(v), indent) == emit_items(items, indent) + emit_item(v, indent),
    decreases items.len(),
{
    let is2 = items.push(v);
    if items.len() == 0 {
        assert(is2[0] == v);
        assert(is2.skip(1) =~= Seq::<Node>::empty());
        assert(emit_items(Seq::<Node>::empty(), indent) == Seq::<char>::empty());
        assert(emit_items(is2, indent) =~= emit_items(items, indent) + emit_item(v, indent));
    } else {
        assert(is2[0] == items[0]);
        assert(is2.skip(1) =~= items.skip(1).push(v));
        lemma_emit_items_snoc(items.skip(1), v, indent);
        assert(emit_items(is2, indent) =~= emit_items(items, indent) + emit_item(v, indent));
    }
}

/// Appends a buffer to the output.
pub fn push_chars(out: &mut Vec<char>, s: &Vec<char>)
    ensures
        final(out)@ == old(out)@ + s@,
{
    let mut i: usize = 0;
    while i < s.len()
        invariant
            0 <= i <= s@.len(),
            out@ == old(out)@ + s@.take(i as int),
        decreases s@.len() - i,
    {
        out.push(s[i]);
        proof {
            assert(out@ =~= old(out)@ + s@.take(i + 1 as int));
        }
        i = i + 1;
    }
    proof {
        assert(out@ =~= old(out)@ + s@);
    }
}

/// Appends a literal to the output.
pub fn push_str(out: &mut Vec<char>, s: &str)
    ensures
        final(out)@ == old(out)@ + s@,
{
    let v = str_to_chars(s);
    push_chars(out, &v);
}

/// `n` spaces as a fresh buffer.
pub fn make_spaces(n: usize) -> (r: Vec<char>)
    ensures
        r@ == spaces(n as nat),
{
    let mut out: Vec<char> = Vec::new();
    let mut i: usize = 0;
    while i < n
        invariant
            0 <= i <= n,
            out@ == spaces(i as nat),
        decreases n - i,
    {
        out.push(' ');
        proof {
            assert(out@ =~= spaces((i + 1) as nat));
        }
        i = i + 1;
    }
    out
}

/// Appends the one-line rendering of a scalar.
pub(crate) fn push_scalar(v: &Value, out: &mut Vec<char>)
    requires
        is_scalar(v@),
    ensures
        final(out)@ == old(out)@ + scalar_chars(v@),
{
    match v {
        Value::Null => push_str(out, "null"),
        Value::Bool(b) => {
            if *b {
                push_str(out, "true")
            } else {
                push_str(out, "false")
            }
        },
        Value::Int(i) => push_int_chars(*i, out),
        Value::Str(s) => push_chars(out, s),
        _ => {
            proof {
                lemma_view_variant(*v);
                assert(false);
            }
        },
    }
}

/// Appends the rendering of mapping entries at the given indent.
#[verifier::loop_isolation(false)]
pub fn emit_entries_exec(es: &Vec<(Vec<char>, Value)>, indent: usize, out: &mut Vec<char>)
    requires
        indent + 2 * entries_depth(entries_view(es@)) <= 16000000,
    ensures
        final(out)@ == old(out)@ + emit_entries(entries_view(es@), indent as nat),
    decreases *es, 3int,
{
    let ghost esv = entries_view(es@);
    let mut i: usize = 0;
    while i < es.len()
        invariant
            0 <= i <= es@.len(),
            out@ == old(out)@ + emit_entries(esv.take(i as int), indent as nat),
        decreases es@.len() - i,
    {
        proof {
            lemma_entries_depth_index(esv, i as int);
            assert(decreases_to!(*es => (*es)[i as int]));
            assert(decreases_to!((*es)[i as int] => (*es)[i as int].1));
        }
        let ghost prevout = out@;
        let lead = make_spaces(indent);
        emit_entry_exec(&lead, &es[i].0, &es[i].1, indent, out);
        proof {
            lemma_emit_entries_snoc(esv.take(i as int), esv[i as int].0, esv[i as int].1,
                indent as nat);
            assert(esv.take(i + 1 as int) =~= esv.take(i as int).push(esv[i as int]));
            assert(out@ =~= old(out)@ + emit_entries(esv.take(i + 1 as int), indent as nat));
        }
        i = i + 1;
    }
    proof {
        assert(esv.take(es@.len() as int) =~= esv);
    }
}

/// Appends one mapping entry: the lead, the key, and the value inline or as
/// an indented block.
#[verifier::loop_isolation(false)]
pub fn emit_entry_exec(lead: &Vec<char>, k: &Vec<char>, v: &Value, indent: usize, out: &mut Vec<
    char,
>)
    requires
        indent + 2 * node_depth(v@) <= 16000000,
    ensures
        final(out)@ == old(out)@ + emit_entry(lead@, k@, v@, indent as nat),
    decreases *v, 2int,
{
    proof {
        lemma_view_variant(*v);
    }
    match v {
        Value::Null | Value::Bool(_) | Value::Int(_) | Value::Str(_) => {
            push_chars(out, lead);
            push_chars(out, k);
            push_str(out, ": ");
            push_scalar(v, out);
            out.push('\n');
            proof {
                assert(out@ =~= old(out)@ + emit_entry(lead@, k@, v@, indent as nat));
            }
        },
        Value::Mapping(es) => {
            proof {
                assert(*v == Value::Mapping(*es));
                lemma_entries_view(*es);
            }
            if es.len() == 0 {
                push_chars(out, lead);
                push_chars(out, k);
                push_str(out, ": {}");
                out.push('\n');
                proof {
                    assert(out@ =~= old(out)@ + emit_entry(lead@, k@, v@, indent as nat));
                }
            } else {
                push_chars(out, lead);
                push_chars(out, k);
                push_str(out, ":");
                out.push('\n');
                proof {
                    assert(decreases_to!(*v => v->Mapping_0));
                    assert(v->Mapping_0 == *es);
                }
                emit_entries_exec(es, indent + 2, out);
                proof {
                    assert(out@ =~= old(out)@ + emit_entry(lead@, k@, v@, indent as nat));
                }
            }
        },
        Value::List(items) => {
            proof {
                assert(*v == Value::List(*items));
                lemma_list_view(*items);
            }
            if items.len() == 0 {
                push_chars(out, lead);
                push_chars(out, k);
                push_str(out, ": []");
                out.push('\n');
                proof {
                    assert(out@ =~= old(out)@ + emit_entry(lead@, k@, v@, indent as nat));
                }
            } else {
                push_chars(out, lead);
                push_chars(out, k);
                push_str(out, ":");
                out.push('\n');
                proof {
                    assert(decreases_to!(*v => v->List_0));
                    assert(v->List_0 == *items);
                }
                emit_items_exec(items, indent + 2, out);
                proof {
                    assert(out@ =~= old(out)@ + emit_entry(lead@, k@, v@, indent as nat));
                }
            }
        },
    }
}

/// Appends the rendering of list items at the given indent.
#[verifier::loop_isolation(false)]
pub fn emit_items_exec(items: &Vec<Value>, indent: usize, out: &mut Vec<char>)
    requires
        indent + 2 * items_depth(list_view(items@)) <= 16000000,
    ensures
        final(out)@ == old(out)@ + emit_items(list_view(items@), indent as nat),
    decreases *items, 3int,
{
    let ghost isv = list_view(items@);
    let mut i: usize = 0;
    while i < items.len()
        invariant
            0 <= i <= items@.len(),
            out@ == old(out)@ + emit_items(isv.take(i as int), indent as nat),
        decreases items@.len() - i,
    {
        proof {
            lemma_items_depth_index(isv, i as int);
            assert(decreases_to!(*items => (*items)[i as int]));
        }
        emit_item_exec(&items[i], indent, out);
        proof {
            lemma_emit_items_snoc(isv.take(i as int), isv[i as int], indent as nat);
            assert(isv.take(i + 1 as int) =~= isv.take(i as int).push(isv[i as int]));
            assert(out@ =~= old(out)@ + emit_items(isv.take(i + 1 as int), indent as nat));
        }
        i = i + 1;
    }
    proof {
        assert(isv.take(items@.len() as int) =~= isv);
    }
}

/// Appends one list item: a dash, then the item inline or as a block.
#[verifier::loop_isolation(false)]
pub fn emit_item_exec(v: &Value, indent: usize, out: &mut Vec<char>)
    requires
        indent + 2 + 2 * node_depth(v@) <= 16000002,
    ensures
        final(out)@ == old(out)@ + emit_item(v@, indent as nat),
    decreases *v, 1int,
{
    proof {
        lemma_view_variant(*v);
    }
    match v {
        Value::Null | Value::Bool(_) | Value::Int(_) | Value::Str(_) => {
            let lead = make_spaces(indent);
            push_chars(out, &lead);
            push_str(out, "- ");
            push_scalar(v, out);
            out.push('\n');
            proof {
                assert(out@ =~= old(out)@ + emit_item(v@, indent as nat));
            }
        },
        Value::Mapping(es) => {
            proof {
                assert(*v == Value::Mapping(*es));
                lemma_entries_view(*es);
            }
            if es.len() == 0 {
                let lead = make_spaces(indent);
                push_chars(out, &lead);
                push_str(out, "- {}");
                out.push('\n');
                proof {
                    assert(out@ =~= old(out)@ + emit_item(v@, indent as nat));
                }
            } else {
                let ghost esv = entries_view(es@);
                let mut lead = make_spaces(indent);
                lead.push('-');
                lead.push(' ');
                proof {
                    assert(lead@ =~= spaces(indent as nat) + "- "@) by {
                        reveal_strlit("- ");
                    }
                    assert(decreases_to!(*v => v->Mapping_0));
                    assert(v->Mapping_0 == *es);
                    assert(decreases_to!(*es => (*es)[0int]));
                    assert(decreases_to!((*es)[0int] => (*es)[0int].1));
                    lemma_entries_depth_index(esv, 0int);
                }
                emit_entry_exec(&lead, &es[0].0, &es[0].1, indent + 2, out);
                let ghost firstout = out@;
                let mut j: usize = 1;
                while j < es.len()
                    invariant
                        1 <= j <= es@.len(),
                        out@ == firstout + emit_entries(
                            esv.skip(1).take(j - 1),
                            (indent + 2) as nat,
                        ),
                    decreases es@.len() - j,
                {
                    proof {
                        lemma_entries_depth_index(esv, j as int);
                        assert(decreases_to!(*es => (*es)[j as int]));
                        assert(decreases_to!((*es)[j as int] => (*es)[j as int].1));
                    }
                    let lead2 = make_spaces(indent + 2);
                    emit_entry_exec(&lead2, &es[j].0, &es[j].1, indent + 2, out);
                    proof {
                        lemma_emit_entries_snoc(esv.skip(1).take(j - 1), esv[j as int].0,
                            esv[j as int].1, (indent + 2) as nat);
                        assert(esv.skip(1).take(j as int) =~= esv.skip(1).take(j - 1).push(
                            esv[j as int]));
                        assert(out@ =~= firstout + emit_entries(
                            esv.skip(1).take(j as int),
                            (indent + 2) as nat,
                        ));
                    }
                    j = j + 1;
                }
                proof {
                    assert(esv.skip(1).take(es@.len() - 1) =~= esv.skip(1));
                    assert(out@ =~= old(out)@ + emit_item(v@, indent as nat));
                }
            }
        },
        Value::List(items) => {
            proof {
                assert(*v == Value::List(*items));
                lemma_list_view(*items);
            }
            if items.len() == 0 {
                let lead = make_spaces(indent);
                push_chars(out, &lead);
                push_str(out, "- []");
                out.push('\n');
                proof {
                    assert(out@ =~= old(out)@ + emit_item(v@, indent as nat));
                }
            } else {
                let lead = make_spaces(indent);
                push_chars(out, &lead);
                push_str(out, "-");
                out.push('\n');
                proof {
                    assert(decreases_to!(*v => v->List_0));
                    assert(v->List_0 == *items);
                }
                emit_items_exec(items, indent + 2, out);
                proof {
                    assert(out@ =~= old(out)@ + emit_item(v@, indent as nat));
                }
            }
        },
    }
}

} // verus!
