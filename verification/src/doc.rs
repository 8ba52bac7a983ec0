//! Interpretation of a parsed document tree as network definitions: the
//! `network` root, the global `version` and `renderer` keys, the per-kind
//! sections, and the typed checks on every known property.

use vstd::prelude::*;

use crate::chars::{chars_eq_str, str_to_chars};
use crate::netdef::{kind_of_section, spec_kind_of_section, NetdefType, NetdefV};
use crate::value::{entries_view, lemma_view_variant, list_view, Node, Value};
use crate::yaml::{push_chars, push_scalar, push_str, scalar_chars};

verus! {

/// The shapes a known property can take.
pub enum Shape {
    BoolV,
    IntV,
    StrV,
    StrListV,
    RouteListV,
    NsMapV,
    AnyMapV,
}

/// The shape a netdef property key must have, or `None` for a key this
/// model does not know (an error inside a known section).
pub open spec fn spec_netdef_key_shape(k: Seq<char>) -> Option<Shape> {
    if k == "dhcp4"@ || k == "dhcp6"@ || k == "optional"@ {
        Some(Shape::BoolV)
    } else if k == "mtu"@ || k == "table"@ || k == "id"@ {
        Some(Shape::IntV)
    } else if k == "link"@ || k == "mode"@ || k == "set-name"@ || k == "macaddress"@ || k
        == "local"@ || k == "remote"@ || k == "renderer"@ {
        Some(Shape::StrV)
    } else if k == "addresses"@ || k == "interfaces"@ {
        Some(Shape::StrListV)
    } else if k == "routes"@ {
        Some(Shape::RouteListV)
    } else if k == "nameservers"@ {
        Some(Shape::NsMapV)
    } else if k == "parameters"@ || k == "passthrough"@ || k == "access-points"@ {
        Some(Shape::AnyMapV)
    } else {
        None
    }
}

/// The shape a route property key must have.
pub open spec fn spec_route_key_shape(k: Seq<char>) -> Option<Shape> {
    if k == "on-link"@ {
        Some(Shape::BoolV)
    } else if k == "table"@ || k == "metric"@ {
        Some(Shape::IntV)
    } else if k == "to"@ || k == "via"@ || k == "from"@ || k == "scope"@ || k == "type"@ {
        Some(Shape::StrV)
    } else {
        None
    }
}

/// The shape a nameservers property key must have.
pub open spec fn spec_ns_key_shape(k: Seq<char>) -> Option<Shape> {
    if k == "addresses"@ || k == "search"@ {
        Some(Shape::StrListV)
    } else {
        None
    }
}

/// The parser-domain message for a value that is not a boolean.
pub open spec fn bool_err_msg(v: Node) -> Seq<char> {
    "Error in network definition: invalid boolean value '"@ + scalar_chars(v) + "'"@
}

/// The parser-domain message for a value that is not an integer.
pub open spec fn int_err_msg(v: Node) -> Seq<char> {
    "Error in network definition: invalid int value '"@ + scalar_chars(v) + "'"@
}

/// The parser-domain message for a key whose value has the wrong shape.
pub open spec fn value_err_msg(k: Seq<char>) -> Seq<char> {
    "Error in network definition: invalid value for '"@ + k + "'"@
}

/// The parser-domain message for an unknown key in a known section.
pub open spec fn unknown_key_msg(k: Seq<char>) -> Seq<char> {
    "Error in network definition: unknown key '"@ + k + "'"@
}

/// Whether every list element is a plain string.
pub open spec fn all_str_items(items: Seq<Node>) -> bool {
    forall|i: int| 0 <= i < items.len() ==> (#[trigger] items[i]) is Str
}

/// The first error among a route mapping's entries, if any.
pub open spec fn route_props_err(es: Seq<(Seq<char>, Node)>) -> Option<Seq<char>>
    decreases es.len(),
{
    if es.len() == 0 {
        None
    } else {
        let k = es[0].0;
        let v = es[0].1;
        let e = match spec_route_key_shape(k) {
            None => Some(unknown_key_msg(k)),
            Some(Shape::BoolV) => if v is Bool {
                None
            } else {
                Some(bool_err_msg(v))
            },
            Some(Shape::IntV) => if v is Int {
                None
            } else {
                Some(int_err_msg(v))
            },
            Some(_) => if v is Str {
                None
            } else {
                Some(value_err_msg(k))
            },
        };
        match e {
            Some(m) => Some(m),
            None => route_props_err(es.skip(1)),
        }
    }
}

/// The first error among route list items, if any.
pub open spec fn route_items_err(items: Seq<Node>) -> Option<Seq<char>>
    decreases items.len(),
{
    if items.len() == 0 {
        None
    } else {
        let e = match items[0] {
            Node::Mapping(es) => route_props_err(es),
            _ => Some(value_err_msg("routes"@)),
        };
        match e {
            Some(m) => Some(m),
            None => route_items_err(items.skip(1)),
        }
    }
}

/// The first error among the nameservers entries, if any.
pub open spec fn ns_props_err(es: Seq<(Seq<char>, Node)>) -> Option<Seq<char>>
    decreases es.len(),
{
    if es.len() == 0 {
        None
    } else {
        let k = es[0].0;
        let v = es[0].1;
        let e = match spec_ns_key_shape(k) {
            None => Some(unknown_key_msg(k)),
            Some(_) => match v {
                Node::List(items) => if all_str_items(items) {
                    None
                } else {
                    Some(value_err_msg(k))
                },
                _ => Some(value_err_msg(k)),
            },
        };
        match e {
            Some(m) => Some(m),
            None => ns_props_err(es.skip(1)),
        }
    }
}

/// The first error for one netdef property, if any.
pub open spec fn prop_err(k: Seq<char>, v: Node) -> Option<Seq<char>> {
    match spec_netdef_key_shape(k) {
        None => Some(unknown_key_msg(k)),
        Some(Shape::BoolV) => if v is Bool {
            None
        } else {
            Some(bool_err_msg(v))
        },
        Some(Shape::IntV) => if v is Int {
            None
        } else {
            Some(int_err_msg(v))
        },
        Some(Shape::StrV) => if v is Str {
            None
        } else {
            Some(value_err_msg(k))
        },
        Some(Shape::StrListV) => match v {
            Node::List(items) => if all_str_items(items) {
                None
            } else {
                Some(value_err_msg(k))
            },
            _ => Some(value_err_msg(k)),
        },
        Some(Shape::RouteListV) => match v {
            Node::List(items) => route_items_err(items),
            _ => Some(value_err_msg(k)),
        },
        Some(Shape::NsMapV) => match v {
            Node::Mapping(es) => ns_props_err(es),
            _ => Some(value_err_msg(k)),
        },
        Some(Shape::AnyMapV) => match v {
            Node::Mapping(_) => None,
            _ => Some(value_err_msg(k)),
        },
    }
}

/// The first error among a netdef's properties, if any.
pub open spec fn props_err(es: Seq<(Seq<char>, Node)>) -> Option<Seq<char>>
    decreases es.len(),
{
    if es.len() == 0 {
        None
    } else {
        match prop_err(es[0].0, es[0].1) {
            Some(m) => Some(m),
            None => props_err(es.skip(1)),
        }
    }
}

/// Checks route entries; see `route_props_err`.
#[verifier::loop_isolation(false)]
fn route_props_check(es: &Vec<(Vec<char>, Value)>) -> (r: Option<Vec<char>>)
    ensures
        match r {
            Some(m) => route_props_err(entries_view(es@)) == Some(m@),
            None => route_props_err(entries_view(es@)) is None,
        },
    decreases es@.len(),
{
    let ghost esv = entries_view(es@);
    proof {
        assert(esv.skip(0) =~= esv);
    }
    let mut i: usize = 0;
    while i < es.len()
        invariant
            0 <= i <= es@.len(),
            route_props_err(esv) == route_props_err(esv.skip(i as int)),
        decreases es@.len() - i,
    {
        proof {
            assert(esv.skip(i as int)[0] == esv[i as int]);
            assert(esv.skip(i as int).skip(1) =~= esv.skip(i + 1 as int));
        }
        let k = &es[i].0;
        let v = &es[i].1;
        proof {
            lemma_view_variant(*v);
        }
        if chars_eq_str(k, "on-link") {
            if !matches!(v, Value::Bool(_)) {
                return Some(make_bool_err(v));
            }
        } else if chars_eq_str(k, "table") || chars_eq_str(k, "metric") {
            if !matches!(v, Value::Int(_)) {
                return Some(make_int_err(v));
            }
        } else if chars_eq_str(k, "to") || chars_eq_str(k, "via") || chars_eq_str(k, "from")
            || chars_eq_str(k, "scope") || chars_eq_str(k, "type") {
            if !matches!(v, Value::Str(_)) {
                return Some(make_value_err(k));
            }
        } else {
            return Some(make_unknown_key_err(k));
        }
        i = i + 1;
    }
    proof {
        assert(esv.skip(es@.len() as int) =~= Seq::<(Seq<char>, Node)>::empty());
    }
    None
}

/// The rendered message for a non-boolean value.
fn make_bool_err(v: &Value) -> (r: Vec<char>)
    ensures
        r@ == bool_err_msg(v@),
{
    let mut out: Vec<char> = Vec::new();
    push_str(&mut out, "Error in network definition: invalid boolean value '");
    push_scalar_any(v, &mut out);
    push_str(&mut out, "'");
    proof {
        assert(out@ =~= bool_err_msg(v@));
    }
    out
}

/// The rendered message for a non-integer value.
pub(crate) fn make_int_err(v: &Value) -> (r: Vec<char>)
    ensures
        r@ == int_err_msg(v@),
{
    let mut out: Vec<char> = Vec::new();
    push_str(&mut out, "Error in network definition: invalid int value '");
    push_scalar_any(v, &mut out);
    push_str(&mut out, "'");
    proof {
        assert(out@ =~= int_err_msg(v@));
    }
    out
}

/// The rendered message for a wrongly shaped value.
pub(crate) fn make_value_err(k: &Vec<char>) -> (r: Vec<char>)
    ensures
        r@ == value_err_msg(k@),
{
    let mut out: Vec<char> = Vec::new();
    push_str(&mut out, "Error in network definition: invalid value for '");
    push_chars(&mut out, k);
    push_str(&mut out, "'");
    proof {
        assert(out@ =~= value_err_msg(k@));
    }
    out
}

/// The rendered message for an unknown key.
fn make_unknown_key_err(k: &Vec<char>) -> (r: Vec<char>)
    ensures
        r@ == unknown_key_msg(k@),
{
    let mut out: Vec<char> = Vec::new();
    push_str(&mut out, "Error in network definition: unknown key '");
    push_chars(&mut out, k);
    push_str(&mut out, "'");
    proof {
        assert(out@ =~= unknown_key_msg(k@));
    }
    out
}

/// Appends the one-line rendering of any value, containers in flow style.
fn push_scalar_any(v: &Value, out: &mut Vec<char>)
    ensures
        final(out)@ == old(out)@ + scalar_chars(v@),
{
    proof {
        lemma_view_variant(*v);
    }
    match v {
        Value::List(_) => push_str(out, "[]"),
        Value::Mapping(_) => push_str(out, "{}"),
        _ => push_scalar(v, out),
    }
}

/// Checks that every list element is a plain string.
#[verifier::loop_isolation(false)]
fn all_str_check(items: &Vec<Value>) -> (r: bool)
    ensures
        r == all_str_items(list_view(items@)),
{
    let ghost isv = list_view(items@);
    let mut i: usize = 0;
    while i < items.len()
        invariant
            0 <= i <= items@.len(),
            forall|j: int| 0 <= j < i ==> (#[trigger] isv[j]) is Str,
        decreases items@.len() - i,
    {
        proof {
            lemma_view_variant(items@[i as int]);
            assert(isv[i as int] == items@[i as int]@);
        }
        if !matches!(&items[i], Value::Str(_)) {
            proof {
                assert(!(isv[i as int] is Str));
            }
            return false;
        }
        i = i + 1;
    }
    true
}

/// Checks route list items; see `route_items_err`.
#[verifier::loop_isolation(false)]
fn route_items_check(items: &Vec<Value>) -> (r: Option<Vec<char>>)
    ensures
        match r {
            Some(m) => route_items_err(list_view(items@)) == Some(m@),
            None => route_items_err(list_view(items@)) is None,
        },
{
    let ghost isv = list_view(items@);
    proof {
        assert(isv.skip(0) =~= isv);
    }
    let mut i: usize = 0;
    while i < items.len()
        invariant
            0 <= i <= items@.len(),
            route_items_err(isv) == route_items_err(isv.skip(i as int)),
        decreases items@.len() - i,
    {
        proof {
            assert(isv.skip(i as int)[0] == isv[i as int]);
            assert(isv.skip(i as int).skip(1) =~= isv.skip(i + 1 as int));
            lemma_view_variant(items@[i as int]);
            assert(isv[i as int] == items@[i as int]@);
        }
        match &items[i] {
            Value::Mapping(es) => {
                proof {
                    crate::value::lemma_entries_view(*es);
                }
                match route_props_check(es) {
                    Some(m) => {
                        return Some(m);
                    },
                    None => {},
                }
            },
            _ => {
                let rk = str_to_chars("routes");
                return Some(make_value_err(&rk));
            },
        }
        i = i + 1;
    }
    proof {
        assert(isv.skip(items@.len() as int) =~= Seq::<Node>::empty());
    }
    None
}

/// Checks nameservers entries; see `ns_props_err`.
#[verifier::loop_isolation(false)]
fn ns_props_check(es: &Vec<(Vec<char>, Value)>) -> (r: Option<Vec<char>>)
    ensures
        match r {
            Some(m) => ns_props_err(entries_view(es@)) == Some(m@),
            None => ns_props_err(entries_view(es@)) is None,
        },
{
    let ghost esv = entries_view(es@);
    proof {
        assert(esv.skip(0) =~= esv);
    }
    let mut i: usize = 0;
    while i < es.len()
        invariant
            0 <= i <= es@.len(),
            ns_props_err(esv) == ns_props_err(esv.skip(i as int)),
        decreases es@.len() - i,
    {
        proof {
            assert(esv.skip(i as int)[0] == esv[i as int]);
            assert(esv.skip(i as int).skip(1) =~= esv.skip(i + 1 as int));
        }
        let k = &es[i].0;
        let v = &es[i].1;
        proof {
            lemma_view_variant(*v);
        }
        if chars_eq_str(k, "addresses") || chars_eq_str(k, "search") {
            match v {
                Value::List(items) => {
                    proof {
                        crate::value::lemma_list_view(*items);
                    }
                    if !all_str_check(items) {
                        return Some(make_value_err(k));
                    }
                },
                _ => {
                    return Some(make_value_err(k));
                },
            }
        } else {
            return Some(make_unknown_key_err(k));
        }
        i = i + 1;
    }
    proof {
        assert(esv.skip(es@.len() as int) =~= Seq::<(Seq<char>, Node)>::empty());
    }
    None
}

/// Checks one netdef property; see `prop_err`.
fn prop_check(k: &Vec<char>, v: &Value) -> (r: Option<Vec<char>>)
    ensures
        match r {
            Some(m) => prop_err(k@, v@) == Some(m@),
            None => prop_err(k@, v@) is None,
        },
{
    proof {
        lemma_view_variant(*v);
    }
    if chars_eq_str(k, "dhcp4") || chars_eq_str(k, "dhcp6") || chars_eq_str(k, "optional") {
        if matches!(v, Value::Bool(_)) {
            None
        } else {
            Some(make_bool_err(v))
        }
    } else if chars_eq_str(k, "mtu") || chars_eq_str(k, "table") || chars_eq_str(k, "id") {
        if matches!(v, Value::Int(_)) {
            None
        } else {
            Some(make_int_err(v))
        }
    } else if chars_eq_str(k, "link") || chars_eq_str(k, "mode") || chars_eq_str(k, "set-name")
        || chars_eq_str(k, "macaddress") || chars_eq_str(k, "local") || chars_eq_str(k, "remote")
        || chars_eq_str(k, "renderer") {
        if matches!(v, Value::Str(_)) {
            None
        } else {
            Some(make_value_err(k))
        }
    } else if chars_eq_str(k, "addresses") || chars_eq_str(k, "interfaces") {
        match v {
            Value::List(items) => {
                proof {
                    crate::value::lemma_list_view(*items);
                }
                if all_str_check(items) {
                    None
                } else {
                    Some(make_value_err(k))
                }
            },
            _ => Some(make_value_err(k)),
        }
    } else if chars_eq_str(k, "routes") {
        match v {
            Value::List(items) => {
                proof {
                    crate::value::lemma_list_view(*items);
                }
                route_items_check(items)
            },
            _ => Some(make_value_err(k)),
        }
    } else if chars_eq_str(k, "nameservers") {
        match v {
            Value::Mapping(es) => {
                proof {
                    crate::value::lemma_entries_view(*es);
                }
                ns_props_check(es)
            },
            _ => Some(make_value_err(k)),
        }
    } else if chars_eq_str(k, "parameters") || chars_eq_str(k, "passthrough") || chars_eq_str(
        k,
        "access-points",
    ) {
        if matches!(v, Value::Mapping(_)) {
            None
        } else {
            Some(make_value_err(k))
        }
    } else {
        Some(make_unknown_key_err(k))
    }
}

/// Checks a netdef's properties; see `props_err`.
#[verifier::loop_isolation(false)]
pub fn props_check(es: &Vec<(Vec<char>, Value)>) -> (r: Option<Vec<char>>)
    ensures
        match r {
            Some(m) => props_err(entries_view(es@)) == Some(m@),
            None => props_err(entries_view(es@)) is None,
        },
{
    let ghost esv = entries_view(es@);
    proof {
        assert(esv.skip(0) =~= esv);
    }
    let mut i: usize = 0;
    while i < es.len()
        invariant
            0 <= i <= es@.len(),
            props_err(esv) == props_err(esv.skip(i as int)),
        decreases es@.len() - i,
    {
        proof {
            assert(esv.skip(i as int)[0] == esv[i as int]);
            assert(esv.skip(i as int).skip(1) =~= esv.skip(i + 1 as int));
        }
        match prop_check(&es[i].0, &es[i].1) {
            Some(m) => {
                return Some(m);
            },
            None => {},
        }
        i = i + 1;
    }
    proof {
        assert(esv.skip(es@.len() as int) =~= Seq::<(Seq<char>, Node)>::empty());
    }
    None
}

} // verus!
