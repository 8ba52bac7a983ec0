//! The laws of the merge and patch engines, stated and proved over the
//! mathematical model: what merging does to every key, what a point
//! deletion leaves untouched, and why merged ids stay unique.

use vstd::prelude::*;

use crate::netdef::{kind_has_section, spec_kind_of_section, spec_section_of_kind, NetdefType, NetdefV};
use crate::parser::{defs_wf, ParserV};
use crate::doc::props_err;
use crate::parser::{conv_body, conv_section, DocModel};
use crate::state::{
    def_index, has_def, import_outcome, lemma_def_index, lemma_merge_defs_wf, merge_defs,
    section_entries, sections_doc, unique_ids, StateV,
};
use crate::chars::{dec_digits, int_chars, lemma_dec_digits_inverse};
use crate::parse::{digits_val, int_literal_val, is_int_literal, scalar_of};
use crate::value::{
    key_index, lemma_key_index, map_get, map_has_key, merge_entries, merge_node, merge_one,
    remove_key, Node,
};
use crate::yaml::scalar_chars;

verus! {

/// No two entries share a key.
pub open spec fn distinct_keys(es: Seq<(Seq<char>, Node)>) -> bool {
    forall|i: int, j: int|
        0 <= i < j < es.len() ==> (#[trigger] es[i]).0 != (#[trigger] es[j]).0
}

/// Merging one entry changes exactly that key: the key set gains `k`, every
/// other key keeps its value, and `k`'s value is the entry's value, merged
/// over the old one when the key already existed.
pub proof fn lemma_merge_one_get(ea: Seq<(Seq<char>, Node)>, k: Seq<char>, v: Node)
    ensures
        forall|q: Seq<char>|
            #[trigger] map_has_key(merge_one(ea, k, v), q) == (map_has_key(ea, q) || q == k),
        forall|q: Seq<char>|
            q != k && map_has_key(ea, q) ==> #[trigger] map_get(merge_one(ea, k, v), q)
                == map_get(ea, q),
        map_get(merge_one(ea, k, v), k) == (if map_has_key(ea, k) {
            merge_node(map_get(ea, k), v)
        } else {
            v
        }),
    decreases ea.len(),
{
    lemma_key_index(ea, k);
    if map_has_key(ea, k) {
        let i = key_index(ea, k);
        let es2 = ea.update(i, (k, merge_node(map_get(ea, k), v)));
        assert(ea[i].0 == k);
        assert forall|q: Seq<char>| true implies #[trigger] key_index(es2, q) == key_index(
            ea,
            q,
        ) by {
            lemma_key_index_pointwise(ea, es2, q);
        }
        assert forall|q: Seq<char>|
            q != k && map_has_key(ea, q) implies #[trigger] map_get(merge_one(ea, k, v), q)
            == map_get(ea, q) by {
            lemma_key_index(ea, q);
            assert(key_index(ea, q) != i) by {
                assert(ea[key_index(ea, q)].0 == q);
            }
        }
    } else {
        let es2 = ea.push((k, v));
        assert forall|q: Seq<char>| true implies #[trigger] map_has_key(es2, q) == (map_has_key(
            ea,
            q,
        ) || q == k) by {
            lemma_key_index_push(ea, k, v, q);
        }
        assert forall|q: Seq<char>|
            q != k && map_has_key(ea, q) implies #[trigger] map_get(es2, q) == map_get(
            ea,
            q,
        ) by {
            lemma_key_index_push(ea, k, v, q);
            lemma_key_index(ea, q);
        }
        lemma_key_index_push(ea, k, v, k);
    }
}

/// Two entry lists with the same keys in the same places index every key at
/// the same position.
pub proof fn lemma_key_index_pointwise(
    a: Seq<(Seq<char>, Node)>,
    b: Seq<(Seq<char>, Node)>,
    q: Seq<char>,
)
    requires
        a.len() == b.len(),
        forall|j: int| 0 <= j < a.len() ==> (#[trigger] a[j]).0 == b[j].0,
    ensures
        key_index(a, q) == key_index(b, q),
    decreases a.len(),
{
    if a.len() > 0 && a[0].0 != q {
        assert forall|j: int| 0 <= j < a.skip(1).len() implies (#[trigger] a.skip(1)[j]).0
            == b.skip(1)[j].0 by {
            assert(a.skip(1)[j] == a[j + 1]);
            assert(b.skip(1)[j] == b[j + 1]);
        }
        lemma_key_index_pointwise(a.skip(1), b.skip(1), q);
    }
}

/// Appending an entry leaves every present key where it was; an absent key
/// equal to the new entry's key lands at the end.
pub proof fn lemma_key_index_push(ea: Seq<(Seq<char>, Node)>, k: Seq<char>, v: Node, q: Seq<char>)
    ensures
        map_has_key(ea, q) ==> key_index(ea.push((k, v)), q) == key_index(ea, q),
        !map_has_key(ea, q) && q == k ==> key_index(ea.push((k, v)), q) == ea.len(),
        !map_has_key(ea, q) && q != k ==> !map_has_key(ea.push((k, v)), q),
    decreases ea.len(),
{
    lemma_key_index(ea, q);
    let es2 = ea.push((k, v));
    lemma_key_index(es2, q);
    if ea.len() == 0 {
        assert(es2[0] == (k, v));
        if q == k {
        } else {
            assert(es2.skip(1) =~= Seq::<(Seq<char>, Node)>::empty());
            assert(key_index(Seq::<(Seq<char>, Node)>::empty(), q) == 0);
        }
    } else {
        assert(es2[0] == ea[0]);
        assert(es2.skip(1) =~= ea.skip(1).push((k, v)));
        lemma_key_index_push(ea.skip(1), k, v, q);
        lemma_key_index(ea.skip(1), q);
        if es2[0].0 != q {
            assert(key_index(es2, q) == 1 + key_index(ea.skip(1).push((k, v)), q));
            if map_has_key(ea, q) {
                assert(map_has_key(ea.skip(1), q));
                assert(key_index(ea, q) == 1 + key_index(ea.skip(1), q));
                assert(es2[key_index(es2, q)] == ea.skip(1).push((k, v))[key_index(
                    ea.skip(1).push((k, v)),
                    q,
                )]);
            }
        }
    }
}

/// The merge of two mappings, key by key: the merged key set is the union;
/// a key only one side holds keeps that side's value; a key both sides hold
/// gets the later value merged over the earlier one (so a scalar from the
/// later side simply wins). The later mapping's keys must be distinct, as
/// parsed mappings' are.
pub proof fn lemma_merge_entries_get(ea: Seq<(Seq<char>, Node)>, eb: Seq<(Seq<char>, Node)>)
    requires
        distinct_keys(eb),
    ensures
        forall|q: Seq<char>|
            #[trigger] map_has_key(merge_entries(ea, eb), q) == (map_has_key(ea, q)
                || map_has_key(eb, q)),
        forall|q: Seq<char>|
            map_has_key(ea, q) && !map_has_key(eb, q) ==> #[trigger] map_get(
                merge_entries(ea, eb),
                q,
            ) == map_get(ea, q),
        forall|q: Seq<char>|
            !map_has_key(ea, q) && map_has_key(eb, q) ==> #[trigger] map_get(
                merge_entries(ea, eb),
                q,
            ) == map_get(eb, q),
        forall|q: Seq<char>|
            map_has_key(ea, q) && map_has_key(eb, q) ==> #[trigger] map_get(
                merge_entries(ea, eb),
                q,
            ) == merge_node(map_get(ea, q), map_get(eb, q)),
    decreases eb.len(),
{
    if eb.len() == 0 {
        assert forall|q: Seq<char>| true implies !(#[trigger] map_has_key(eb, q)) by {
            lemma_key_index(eb, q);
        }
    } else {
        let k0 = eb[0].0;
        let v0 = eb[0].1;
        let ea2 = merge_one(ea, k0, v0);
        lemma_merge_one_get(ea, k0, v0);
        assert(distinct_keys(eb.skip(1))) by {
            assert forall|i: int, j: int|
                0 <= i < j < eb.skip(1).len() implies (#[trigger] eb.skip(1)[i]).0 != (
            #[trigger] eb.skip(1)[j]).0 by {
                assert(eb.skip(1)[i] == eb[i + 1]);
                assert(eb.skip(1)[j] == eb[j + 1]);
            }
        }
        lemma_merge_entries_get(ea2, eb.skip(1));
        assert(!map_has_key(eb.skip(1), k0)) by {
            lemma_key_index(eb.skip(1), k0);
            if map_has_key(eb.skip(1), k0) {
                let i = key_index(eb.skip(1), k0);
                assert(eb.skip(1)[i] == eb[i + 1]);
            }
        }
        assert forall|q: Seq<char>| true implies #[trigger] map_has_key(eb, q) == (q == k0
            || map_has_key(eb.skip(1), q)) by {
            lemma_key_index(eb, q);
            lemma_key_index(eb.skip(1), q);
            if map_has_key(eb.skip(1), q) {
                let i = key_index(eb.skip(1), q);
                assert(eb.skip(1)[i] == eb[i + 1]);
                lemma_key_index(eb, q);
            }
        }
        assert forall|q: Seq<char>|
            map_has_key(eb, q) && q != k0 implies #[trigger] map_get(eb, q) == map_get(
            eb.skip(1),
            q,
        ) by {
            lemma_key_index(eb, q);
        }
        assert(map_get(eb, k0) == v0) by {
            lemma_key_index(eb, k0);
        }
    }
}

/// A point deletion removes exactly the addressed key: it is gone, every
/// other key keeps its value. The mapping's keys must be distinct, as
/// parsed mappings' are.
pub proof fn lemma_remove_key_exact(es: Seq<(Seq<char>, Node)>, k: Seq<char>)
    requires
        distinct_keys(es),
    ensures
        !map_has_key(remove_key(es, k), k),
        forall|q: Seq<char>|
            q != k ==> #[trigger] map_has_key(remove_key(es, k), q) == map_has_key(es, q),
        forall|q: Seq<char>|
            q != k && map_has_key(es, q) ==> #[trigger] map_get(remove_key(es, k), q) == map_get(
                es,
                q,
            ),
    decreases es.len(),
{
    lemma_key_index(es, k);
    if !map_has_key(es, k) {
    } else {
        let i = key_index(es, k);
        let es2 = es.remove(i);
        if i == 0 {
            assert(es2 =~= es.skip(1));
            assert(distinct_keys(es.skip(1))) by {
                assert forall|p: int, q2: int|
                    0 <= p < q2 < es.skip(1).len() implies (#[trigger] es.skip(1)[p]).0 != (
                #[trigger] es.skip(1)[q2]).0 by {
                    assert(es.skip(1)[p] == es[p + 1]);
                    assert(es.skip(1)[q2] == es[q2 + 1]);
                }
            }
            assert(!map_has_key(es.skip(1), k)) by {
                lemma_key_index(es.skip(1), k);
                if map_has_key(es.skip(1), k) {
                    let j = key_index(es.skip(1), k);
                    assert(es.skip(1)[j] == es[j + 1]);
                }
            }
            assert forall|q: Seq<char>|
                q != k implies #[trigger] map_has_key(es2, q) == map_has_key(es, q) by {
                lemma_key_index(es, q);
            }
            assert forall|q: Seq<char>|
                q != k && map_has_key(es, q) implies #[trigger] map_get(es2, q) == map_get(
                es,
                q,
            ) by {
                lemma_key_index(es, q);
            }
        } else {
            assert(es[0].0 != k);
            assert(es2[0] == es[0]);
            assert(es2.skip(1) =~= es.skip(1).remove(i - 1));
            assert(distinct_keys(es.skip(1))) by {
                assert forall|p: int, q2: int|
                    0 <= p < q2 < es.skip(1).len() implies (#[trigger] es.skip(1)[p]).0 != (
                #[trigger] es.skip(1)[q2]).0 by {
                    assert(es.skip(1)[p] == es[p + 1]);
                    assert(es.skip(1)[q2] == es[q2 + 1]);
                }
            }
            assert(key_index(es.skip(1), k) == i - 1) by {
                assert(es.skip(1)[i - 1] == es[i]);
                assert forall|j: int| 0 <= j < i - 1 implies es.skip(1)[j].0 != k by {
                    assert(es.skip(1)[j] == es[j + 1]);
                }
                crate::value::lemma_key_index_found(es.skip(1), k, i - 1);
            }
            assert(remove_key(es.skip(1), k) == es.skip(1).remove(i - 1));
            lemma_remove_key_exact(es.skip(1), k);
            assert forall|q: Seq<char>|
                q != k implies #[trigger] map_has_key(es2, q) == map_has_key(es, q) by {
                lemma_key_index(es, q);
                lemma_key_index(es2, q);
                if q != es[0].0 {
                    assert(map_has_key(es2, q) == map_has_key(es2.skip(1), q));
                    assert(map_has_key(es, q) == map_has_key(es.skip(1), q));
                }
            }
            assert(!map_has_key(es2, k)) by {
                lemma_key_index(es2, k);
            }
            assert forall|q: Seq<char>|
                q != k && map_has_key(es, q) implies #[trigger] map_get(es2, q) == map_get(
                es,
                q,
            ) by {
                lemma_key_index(es, q);
                lemma_key_index(es2, q);
                lemma_key_index(es.skip(1), q);
                lemma_key_index(es2.skip(1), q);
                if q != es[0].0 {
                    assert(map_has_key(es.skip(1), q));
                    assert(key_index(es, q) == 1 + key_index(es.skip(1), q));
                    assert(es[key_index(es, q)] == es.skip(1)[key_index(es.skip(1), q)]);
                    assert(map_get(es, q) == map_get(es.skip(1), q));
                    assert(es2.skip(1) == remove_key(es.skip(1), k));
                    assert(map_has_key(es2.skip(1), q));
                    assert(map_get(es2.skip(1), q) == map_get(es.skip(1), q));
                    assert(key_index(es2, q) == 1 + key_index(es2.skip(1), q));
                    assert(es2[key_index(es2, q)] == es2.skip(1)[key_index(es2.skip(1), q)]);
                }
            }
        }
    }
}

/// Ids are unique in any state an import yields: folding fragments merges
/// same-id definitions in place and appends new ids only when absent, so a
/// duplicate-id success state does not exist.
pub proof fn theorem_import_ids_unique(sv: StateV, pv: ParserV)
    requires
        unique_ids(sv.defs),
        defs_wf(sv.defs, 2400000),
        defs_wf(pv.defs + pv.overrides, 2400000),
        import_outcome(sv, pv) is Ok,
    ensures
        unique_ids(import_outcome(sv, pv)->Ok_0.defs),
{
    lemma_merge_defs_wf(sv.defs, pv.defs + pv.overrides, 2400000);
}

/// A scalar the serializer renders without ambiguity: null, the booleans,
/// machine-range integers, empty containers, and strings that do not read
/// back as any other scalar.
pub open spec fn canonical_scalar(n: Node) -> bool {
    match n {
        Node::Null => true,
        Node::Bool(_) => true,
        Node::Int(i) => -0x7fff_ffff_ffff_ffff <= i <= 0x7fff_ffff_ffff_ffff,
        Node::Str(s) => scalar_of(s) == Node::Str(s),
        Node::List(items) => items.len() == 0,
        Node::Mapping(es) => es.len() == 0,
    }
}

/// Reading back a rendered canonical scalar yields the same scalar: the
/// scalar layer of the dump-and-reload round trip.
pub proof fn lemma_scalar_round_trip(n: Node)
    requires
        canonical_scalar(n),
    ensures
        scalar_of(scalar_chars(n)) == n,
{
    reveal_strlit("null");
    reveal_strlit("~");
    reveal_strlit("true");
    reveal_strlit("false");
    reveal_strlit("{}");
    reveal_strlit("[]");
    match n {
        Node::Null => {
        },
        Node::Bool(b) => {
            if b {
                assert("true"@ != "null"@) by {
                    assert("true"@[0] == 't' && "null"@[0] == 'n');
                }
                assert("true"@ != "~"@) by {
                    assert("true"@.len() == 4 && "~"@.len() == 1);
                }
            } else {
                assert("false"@ != "null"@) by {
                    assert("false"@.len() == 5 && "null"@.len() == 4);
                }
                assert("false"@ != "true"@) by {
                    assert("false"@[0] == 'f' && "true"@[0] == 't');
                }
                assert("false"@ != "~"@) by {
                    assert("false"@.len() == 5 && "~"@.len() == 1);
                }
            }
        },
        Node::Int(i) => {
            let mag: nat = if i >= 0 {
                i as nat
            } else {
                (-i) as nat
            };
            lemma_dec_digits_inverse(mag);
            let s = scalar_chars(n);
            let body = if i >= 0 {
                s
            } else {
                s.skip(1)
            };
            if i < 0 {
                assert(s =~= seq!['-'] + dec_digits(mag));
                assert(s[0] == '-');
                assert(body =~= dec_digits(mag));
            } else {
                assert(s =~= dec_digits(mag));
            }
            assert(s.len() >= 1);
            assert(s[0] == '-' || ('0' <= s[0] && s[0] <= '9'));
            assert(s != "null"@) by {
                assert("null"@[0] == 'n');
            }
            assert(s != "~"@) by {
                assert("~"@[0] == '~');
            }
            assert(s != "true"@) by {
                assert("true"@[0] == 't');
            }
            assert(s != "false"@) by {
                assert("false"@[0] == 'f');
            }
            assert(s != "{}"@) by {
                assert("{}"@[0] == '{');
            }
            assert(s != "[]"@) by {
                assert("[]"@[0] == '[');
            }
            assert(crate::parse::all_digits(body));
            assert(body.len() == 1 || body[0] != '0') by {
                if body.len() > 1 {
                    assert(mag >= 10) by {
                        if mag < 10 {
                            assert(dec_digits(mag) =~= seq![crate::chars::digit_char(mag % 10)]);
                        }
                    }
                }
            }
            assert(digits_val(body) == mag);
            assert(is_int_literal(s));
            assert(int_literal_val(s) == i);
        },
        Node::Str(_) => {
        },
        Node::List(items) => {
            assert("[]"@ != "null"@) by {
                assert("[]"@.len() == 2 && "null"@.len() == 4);
            }
            assert("[]"@ != "~"@) by {
                assert("[]"@.len() == 2 && "~"@.len() == 1);
            }
            assert("[]"@ != "true"@) by {
                assert("[]"@.len() == 2 && "true"@.len() == 4);
            }
            assert("[]"@ != "false"@) by {
                assert("[]"@.len() == 2 && "false"@.len() == 5);
            }
            assert("[]"@ != "{}"@) by {
                assert("[]"@[0] == '[' && "{}"@[0] == '{');
            }
            assert(!is_int_literal("[]"@)) by {
                assert(!crate::parse::is_digit("[]"@[0]) && "[]"@[0] != '-');
            }
            assert(items =~= Seq::<Node>::empty());
        },
        Node::Mapping(es) => {
            assert("{}"@ != "null"@) by {
                assert("{}"@.len() == 2 && "null"@.len() == 4);
            }
            assert("{}"@ != "~"@) by {
                assert("{}"@.len() == 2 && "~"@.len() == 1);
            }
            assert("{}"@ != "true"@) by {
                assert("{}"@.len() == 2 && "true"@.len() == 4);
            }
            assert("{}"@ != "false"@) by {
                assert("{}"@.len() == 2 && "false"@.len() == 5);
            }
            assert(!is_int_literal("{}"@)) by {
                assert(!crate::parse::is_digit("{}"@[0]) && "{}"@[0] != '-');
            }
            assert(es =~= Seq::<(Seq<char>, Node)>::empty());
        },
    }
}

/// A kind's section name names that kind back, and is no global key.
pub proof fn lemma_section_name_facts(kind: NetdefType)
    requires
        kind_has_section(kind),
    ensures
        spec_kind_of_section(spec_section_of_kind(kind)) == Some(kind),
        spec_section_of_kind(kind) != "version"@,
        spec_section_of_kind(kind) != "renderer"@,
{
    reveal_strlit("ethernets");
    reveal_strlit("wifis");
    reveal_strlit("modems");
    reveal_strlit("bridges");
    reveal_strlit("bonds");
    reveal_strlit("vlans");
    reveal_strlit("tunnels");
    reveal_strlit("vrfs");
    reveal_strlit("nm-devices");
    reveal_strlit("dummy-devices");
    reveal_strlit("virtual-ethernets");
    reveal_strlit("version");
    reveal_strlit("renderer");
    assert("ethernets"@.len() == 9);
    assert("wifis"@.len() == 5 && "wifis"@[0] == 'w');
    assert("modems"@.len() == 6);
    assert("bridges"@.len() == 7 && "bridges"@[0] == 'b');
    assert("bonds"@.len() == 5 && "bonds"@[0] == 'b');
    assert("vlans"@.len() == 5 && "vlans"@[0] == 'v');
    assert("tunnels"@.len() == 7 && "tunnels"@[0] == 't');
    assert("vrfs"@.len() == 4);
    assert("nm-devices"@.len() == 10);
    assert("dummy-devices"@.len() == 13);
    assert("virtual-ethernets"@.len() == 17);
    assert("version"@.len() == 7 && "version"@[0] == 'v');
    assert("renderer"@.len() == 8);
    match kind {
        NetdefType::Ethernet => {},
        NetdefType::Wifi => {},
        NetdefType::Modem => {},
        NetdefType::Bridge => {},
        NetdefType::Bond => {},
        NetdefType::Vlan => {},
        NetdefType::Tunnel => {},
        NetdefType::Vrf => {},
        NetdefType::Nm => {},
        NetdefType::Dummy => {},
        NetdefType::Veth => {},
        NetdefType::Port => {},
        NetdefType::Unknown => {},
    }
}

/// Whether every definition's properties form a mapping whose keys pass the
/// known-property checks, as every parsed definition's do.
pub open spec fn props_ok_defs(defs: Seq<NetdefV>) -> bool {
    forall|i: int|
        0 <= i < defs.len() ==> (#[trigger] defs[i]).props is Mapping && props_err(
            defs[i].props->Mapping_0,
        ) is None
}

/// The definitions of one kind, in order.
pub open spec fn defs_of_kind(defs: Seq<NetdefV>, kind: NetdefType) -> Seq<NetdefV>
    decreases defs.len(),
{
    if defs.len() == 0 {
        Seq::empty()
    } else {
        let head: Seq<NetdefV> = if defs[0].kind == kind {
            seq![defs[0]]
        } else {
            Seq::empty()
        };
        head + defs_of_kind(defs.skip(1), kind)
    }
}

/// The suffix of a definition list keeps the well-formedness predicates.
pub proof fn lemma_defs_skip(defs: Seq<NetdefV>)
    requires
        defs.len() > 0,
    ensures
        props_ok_defs(defs) ==> props_ok_defs(defs.skip(1)),
        unique_ids(defs) ==> unique_ids(defs.skip(1)),
{
    if props_ok_defs(defs) {
        assert forall|i: int| 0 <= i < defs.skip(1).len() implies (#[trigger] defs.skip(1)[i]).props
            is Mapping && props_err(defs.skip(1)[i].props->Mapping_0) is None by {
            assert(defs.skip(1)[i] == defs[i + 1]);
        }
    }
    if unique_ids(defs) {
        assert forall|i: int, j: int|
            0 <= i < j < defs.skip(1).len() implies (#[trigger] defs.skip(1)[i]).id != (
        #[trigger] defs.skip(1)[j]).id by {
            assert(defs.skip(1)[i] == defs[i + 1]);
            assert(defs.skip(1)[j] == defs[j + 1]);
        }
    }
}

/// Reading a dumped section back yields exactly the definitions of its
/// kind: one direction of the dump-and-reload round trip, at the section
/// level.
pub proof fn lemma_conv_section_inverse(defs: Seq<NetdefV>, kind: NetdefType)
    requires
        props_ok_defs(defs),
    ensures
        conv_section(kind, section_entries(defs, kind)) == Ok::<Seq<NetdefV>, Seq<char>>(
            defs_of_kind(defs, kind),
        ),
        section_entries(defs, kind).len() == defs_of_kind(defs, kind).len(),
    decreases defs.len(),
{
    if defs.len() == 0 {
        assert(section_entries(defs, kind) =~= Seq::<(Seq<char>, Node)>::empty());
        assert(defs_of_kind(defs, kind) =~= Seq::<NetdefV>::empty());
    } else {
        lemma_defs_skip(defs);
        lemma_conv_section_inverse(defs.skip(1), kind);
        let se = section_entries(defs, kind);
        let dk = defs_of_kind(defs, kind);
        let se1 = section_entries(defs.skip(1), kind);
        let dk1 = defs_of_kind(defs.skip(1), kind);
        if defs[0].kind == kind {
            assert(se =~= seq![(defs[0].id, defs[0].props)] + se1);
            assert(dk =~= seq![defs[0]] + dk1);
            assert(se[0] == (defs[0].id, defs[0].props));
            assert(se.skip(1) =~= se1);
            let pes = defs[0].props->Mapping_0;
            assert(defs[0].props is Mapping && props_err(pes) is None);
            assert(conv_section(kind, se) == Ok::<Seq<NetdefV>, Seq<char>>(
                seq![NetdefV { id: defs[0].id, kind, props: defs[0].props }] + dk1,
            ));
            assert(NetdefV { id: defs[0].id, kind, props: defs[0].props } == defs[0]);
            assert(seq![NetdefV { id: defs[0].id, kind, props: defs[0].props }] + dk1 =~= dk);
        } else {
            assert(se =~= se1);
            assert(dk =~= dk1);
        }
    }
}

/// The definitions of each listed kind, concatenated in kind order.
pub open spec fn grouped_defs(defs: Seq<NetdefV>, kinds: Seq<NetdefType>) -> Seq<NetdefV>
    decreases kinds.len(),
{
    if kinds.len() == 0 {
        Seq::empty()
    } else {
        defs_of_kind(defs, kinds[0]) + grouped_defs(defs, kinds.skip(1))
    }
}

/// Reading the dumped sections back yields the definitions grouped by kind.
pub proof fn lemma_conv_sections_inverse(defs: Seq<NetdefV>, kinds: Seq<NetdefType>)
    requires
        props_ok_defs(defs),
        forall|i: int| 0 <= i < kinds.len() ==> kind_has_section(#[trigger] kinds[i]),
    ensures
        conv_body(sections_doc(defs, kinds)) == Ok::<DocModel, Seq<char>>(
            DocModel { version: None, renderer: None, defs: grouped_defs(defs, kinds) },
        ),
    decreases kinds.len(),
{
    if kinds.len() == 0 {
        assert(sections_doc(defs, kinds) =~= Seq::<(Seq<char>, Node)>::empty());
        assert(grouped_defs(defs, kinds) =~= Seq::<NetdefV>::empty());
    } else {
        assert forall|i: int| 0 <= i < kinds.skip(1).len() implies kind_has_section(
            #[trigger] kinds.skip(1)[i],
        ) by {
            assert(kinds.skip(1)[i] == kinds[i + 1]);
        }
        lemma_conv_sections_inverse(defs, kinds.skip(1));
        lemma_conv_section_inverse(defs, kinds[0]);
        lemma_section_name_facts(kinds[0]);
        let sd = sections_doc(defs, kinds);
        let sd1 = sections_doc(defs, kinds.skip(1));
        let se = section_entries(defs, kinds[0]);
        let dk = defs_of_kind(defs, kinds[0]);
        let gd = grouped_defs(defs, kinds);
        let gd1 = grouped_defs(defs, kinds.skip(1));
        if se.len() > 0 {
            assert(sd =~= seq![(spec_section_of_kind(kinds[0]), Node::Mapping(se))] + sd1);
            assert(sd[0] == (spec_section_of_kind(kinds[0]), Node::Mapping(se)));
            assert(sd.skip(1) =~= sd1);
            assert(conv_body(sd) == Ok::<DocModel, Seq<char>>(
                DocModel { version: None, renderer: None, defs: dk + gd1 },
            ));
            assert(dk + gd1 =~= gd);
        } else {
            assert(dk =~= Seq::<NetdefV>::empty());
            assert(sd =~= sd1);
            assert(gd =~= dk + gd1);
            assert(gd =~= gd1);
        }
    }
}

/// Reading a canonical dump's body back yields the state's version, its
/// renderer, and its definitions grouped by kind: the document layer of the
/// dump-and-reload round trip, before the merge.
pub proof fn lemma_conv_state_body(sv: StateV)
    requires
        props_ok_defs(sv.defs),
        forall|i: int| 0 <= i < sv.defs.len() ==> kind_has_section((#[trigger] sv.defs[i]).kind),
    ensures
        conv_body(crate::state::state_body(sv)) == Ok::<DocModel, Seq<char>>(
            DocModel {
                version: Some(sv.version),
                renderer: sv.renderer,
                defs: grouped_defs(sv.defs, crate::state::kinds_order()),
            },
        ),
{
    let ko = crate::state::kinds_order();
    assert(forall|i: int| 0 <= i < ko.len() ==> kind_has_section(#[trigger] ko[i]));
    lemma_conv_sections_inverse(sv.defs, ko);
    let body = crate::state::state_body(sv);
    let sd = sections_doc(sv.defs, ko);
    reveal_strlit("version");
    reveal_strlit("renderer");
    assert("version"@.len() == 7 && "renderer"@.len() == 8);
    let gd = grouped_defs(sv.defs, ko);
    assert(Seq::<NetdefV>::empty() + gd =~= gd);
    assert(Seq::<NetdefV>::empty() + (Seq::<NetdefV>::empty() + gd) =~= gd);
    match sv.renderer {
        Some(r) => {
            assert(body =~= seq![("version"@, Node::Int(sv.version))] + (seq![
                ("renderer"@, Node::Str(r)),
            ] + sd));
            assert(body[0] == ("version"@, Node::Int(sv.version)));
            assert(body.skip(1) =~= seq![("renderer"@, Node::Str(r))] + sd);
            assert(body.skip(1)[0] == ("renderer"@, Node::Str(r)));
            assert(body.skip(1).skip(1) =~= sd);
            assert(conv_body(body.skip(1)) == Ok::<DocModel, Seq<char>>(
                DocModel { version: None, renderer: Some(r), defs: Seq::<NetdefV>::empty() + gd },
            ));
            assert(conv_body(body) == Ok::<DocModel, Seq<char>>(
                DocModel {
                    version: Some(sv.version),
                    renderer: Some(r),
                    defs: Seq::<NetdefV>::empty() + (Seq::<NetdefV>::empty() + gd),
                },
            ));
        },
        None => {
            assert(body =~= seq![("version"@, Node::Int(sv.version))] + sd);
            assert(body[0] == ("version"@, Node::Int(sv.version)));
            assert(body.skip(1) =~= sd);
            assert(conv_body(body) == Ok::<DocModel, Seq<char>>(
                DocModel {
                    version: Some(sv.version),
                    renderer: None,
                    defs: Seq::<NetdefV>::empty() + gd,
                },
            ));
        },
    }
}

/// Folding definitions with unique ids over a prefix with which they share
/// no id simply appends them: with no id seen twice, the merge changes
/// nothing.
pub proof fn lemma_merge_defs_identity(acc: Seq<NetdefV>, ds: Seq<NetdefV>)
    requires
        unique_ids(acc + ds),
    ensures
        merge_defs(acc, ds) == Ok::<Seq<NetdefV>, Seq<char>>(acc + ds),
    decreases ds.len(),
{
    if ds.len() == 0 {
        assert(acc + ds =~= acc);
    } else {
        let d = ds[0];
        assert((acc + ds)[acc.len() as int] == d);
        lemma_def_index(acc, d.id);
        assert(!has_def(acc, d.id)) by {
            if has_def(acc, d.id) {
                let i = def_index(acc, d.id);
                assert((acc + ds)[i] == acc[i]);
            }
        }
        assert(acc.push(d) + ds.skip(1) =~= acc + ds);
        lemma_merge_defs_identity(acc.push(d), ds.skip(1));
    }
}

/// Whether a definition is one of the list's elements.
pub open spec fn member_of(defs: Seq<NetdefV>, d: NetdefV) -> bool {
    exists|m: int| 0 <= m < defs.len() && defs[m] == d
}

/// Every definition of one kind's group is an element of the list and has
/// that kind.
pub proof fn lemma_defs_of_kind_elem(defs: Seq<NetdefV>, kind: NetdefType)
    ensures
        forall|p: int|
            0 <= p < defs_of_kind(defs, kind).len() ==> member_of(
                defs,
                #[trigger] defs_of_kind(defs, kind)[p],
            ) && defs_of_kind(defs, kind)[p].kind == kind,
    decreases defs.len(),
{
    if defs.len() > 0 {
        lemma_defs_of_kind_elem(defs.skip(1), kind);
        let dk = defs_of_kind(defs, kind);
        let dk1 = defs_of_kind(defs.skip(1), kind);
        assert forall|p: int|
            0 <= p < dk.len() implies member_of(defs, #[trigger] dk[p]) && dk[p].kind
            == kind by {
            let off: int = if defs[0].kind == kind {
                1
            } else {
                0
            };
            if p < off {
                assert(dk[p] == defs[0]);
                assert(defs[0] == defs[0]);
            } else {
                assert(dk[p] == dk1[p - off]);
                let m = choose|m: int| 0 <= m < defs.skip(1).len() && defs.skip(1)[m] == dk1[p
                    - off];
                assert(defs[m + 1] == dk1[p - off]);
            }
        }
    }
}

/// Selecting one kind keeps ids unique.
pub proof fn lemma_defs_of_kind_unique(defs: Seq<NetdefV>, kind: NetdefType)
    requires
        unique_ids(defs),
    ensures
        unique_ids(defs_of_kind(defs, kind)),
    decreases defs.len(),
{
    if defs.len() > 0 {
        lemma_defs_skip(defs);
        lemma_defs_of_kind_unique(defs.skip(1), kind);
        lemma_defs_of_kind_elem(defs.skip(1), kind);
        let dk = defs_of_kind(defs, kind);
        let dk1 = defs_of_kind(defs.skip(1), kind);
        assert forall|i: int, j: int|
            0 <= i < j < dk.len() implies (#[trigger] dk[i]).id != (#[trigger] dk[j]).id by {
            let off: int = if defs[0].kind == kind {
                1
            } else {
                0
            };
            if i >= off {
                assert(dk[i] == dk1[i - off]);
                assert(dk[j] == dk1[j - off]);
            } else {
                assert(dk[i] == defs[0]);
                assert(dk[j] == dk1[j - off]);
                let m = choose|m: int| 0 <= m < defs.skip(1).len() && defs.skip(1)[m] == dk1[j
                    - off];
                assert(defs[m + 1] == dk1[j - off]);
                assert(defs[0].id != defs[m + 1].id);
            }
        }
    }
}

/// Grouping by kind keeps ids unique when the listed kinds are distinct.
pub proof fn lemma_grouped_unique(defs: Seq<NetdefV>, kinds: Seq<NetdefType>)
    requires
        unique_ids(defs),
        forall|i: int, j: int|
            0 <= i < j < kinds.len() ==> (#[trigger] kinds[i]) != (#[trigger] kinds[j]),
    ensures
        unique_ids(grouped_defs(defs, kinds)),
        forall|p: int|
            0 <= p < grouped_defs(defs, kinds).len() ==> member_of(
                defs,
                #[trigger] grouped_defs(defs, kinds)[p],
            ) && kind_in(grouped_defs(defs, kinds)[p].kind, kinds),
    decreases kinds.len(),
{
    if kinds.len() == 0 {
    } else {
        assert forall|i: int, j: int|
            0 <= i < j < kinds.skip(1).len() implies (#[trigger] kinds.skip(1)[i]) != (
        #[trigger] kinds.skip(1)[j]) by {
            assert(kinds.skip(1)[i] == kinds[i + 1]);
            assert(kinds.skip(1)[j] == kinds[j + 1]);
        }
        lemma_grouped_unique(defs, kinds.skip(1));
        lemma_defs_of_kind_unique(defs, kinds[0]);
        lemma_defs_of_kind_elem(defs, kinds[0]);
        let g = grouped_defs(defs, kinds);
        let dk = defs_of_kind(defs, kinds[0]);
        let g1 = grouped_defs(defs, kinds.skip(1));
        assert forall|p: int|
            0 <= p < g.len() implies member_of(defs, #[trigger] g[p]) && kind_in(
            g[p].kind,
            kinds,
        ) by {
            if p < dk.len() {
                assert(g[p] == dk[p]);
                assert(g[p].kind == kinds[0]);
            } else {
                assert(g[p] == g1[p - dk.len()]);
                let t = choose|t: int| 0 <= t < kinds.skip(1).len() && kinds.skip(1)[t] == g1[p
                    - dk.len()].kind;
                assert(kinds[t + 1] == g1[p - dk.len()].kind);
            }
        }
        assert forall|i: int, j: int|
            0 <= i < j < g.len() implies (#[trigger] g[i]).id != (#[trigger] g[j]).id by {
            if j < dk.len() {
                assert(g[i] == dk[i] && g[j] == dk[j]);
            } else if i >= dk.len() {
                assert(g[i] == g1[i - dk.len()] && g[j] == g1[j - dk.len()]);
            } else {
                assert(g[i] == dk[i] && g[j] == g1[j - dk.len()]);
                let d1 = dk[i];
                let d2 = g1[j - dk.len()];
                assert(d1.kind == kinds[0]);
                assert(kind_in(d2.kind, kinds.skip(1)));
                let t = choose|t: int| 0 <= t < kinds.skip(1).len() && kinds.skip(1)[t]
                    == d2.kind;
                assert(kinds[t + 1] == d2.kind);
                assert(d1.kind != d2.kind);
                let m1 = choose|m: int| 0 <= m < defs.len() && defs[m] == d1;
                let m2 = choose|m: int| 0 <= m < defs.len() && defs[m] == d2;
                assert(m1 != m2);
            }
        }
    }
}

/// Whether a kind is among the listed kinds.
pub open spec fn kind_in(kind: NetdefType, kinds: Seq<NetdefType>) -> bool {
    exists|t: int| 0 <= t < kinds.len() && kinds[t] == kind
}

/// Dropping a definition whose kind is not listed leaves every group
/// unchanged.
pub proof fn lemma_grouped_drop_unlisted(defs: Seq<NetdefV>, kinds: Seq<NetdefType>)
    requires
        defs.len() > 0,
        !kind_in(defs[0].kind, kinds),
    ensures
        grouped_defs(defs, kinds) == grouped_defs(defs.skip(1), kinds),
    decreases kinds.len(),
{
    if kinds.len() > 0 {
        assert(defs[0].kind != kinds[0]);
        assert(defs_of_kind(defs, kinds[0]) =~= defs_of_kind(defs.skip(1), kinds[0]));
        assert(!kind_in(defs[0].kind, kinds.skip(1))) by {
            if kind_in(defs[0].kind, kinds.skip(1)) {
                let d0k = defs[0].kind;
                let t = choose|t: int| 0 <= t < kinds.skip(1).len() && kinds.skip(1)[t] == d0k;
                assert(kinds[t + 1] == defs[0].kind);
            }
        }
        lemma_grouped_drop_unlisted(defs, kinds.skip(1));
        assert(grouped_defs(defs, kinds) =~= grouped_defs(defs.skip(1), kinds));
    } else {
        assert(grouped_defs(defs, kinds) =~= grouped_defs(defs.skip(1), kinds));
    }
}

/// Dropping the first definition takes exactly one occurrence of it out of
/// the groups, provided its kind is listed once.
pub proof fn lemma_grouped_drop_first(defs: Seq<NetdefV>, kinds: Seq<NetdefType>)
    requires
        defs.len() > 0,
        kind_in(defs[0].kind, kinds),
        forall|i: int, j: int|
            0 <= i < j < kinds.len() ==> (#[trigger] kinds[i]) != (#[trigger] kinds[j]),
    ensures
        grouped_defs(defs, kinds).to_multiset() == grouped_defs(
            defs.skip(1),
            kinds,
        ).to_multiset().insert(defs[0]),
    decreases kinds.len(),
{
    broadcast use vstd::seq_lib::group_to_multiset_ensures;

    let d0 = defs[0];
    let g = grouped_defs(defs, kinds);
    let g1 = grouped_defs(defs.skip(1), kinds);
    let dk = defs_of_kind(defs, kinds[0]);
    let dk1 = defs_of_kind(defs.skip(1), kinds[0]);
    let rest = grouped_defs(defs, kinds.skip(1));
    let rest1 = grouped_defs(defs.skip(1), kinds.skip(1));
    assert forall|i: int, j: int|
        0 <= i < j < kinds.skip(1).len() implies (#[trigger] kinds.skip(1)[i]) != (
    #[trigger] kinds.skip(1)[j]) by {
        assert(kinds.skip(1)[i] == kinds[i + 1]);
        assert(kinds.skip(1)[j] == kinds[j + 1]);
    }
    if d0.kind == kinds[0] {
        assert(dk =~= seq![d0] + dk1);
        assert(!kind_in(d0.kind, kinds.skip(1))) by {
            if kind_in(d0.kind, kinds.skip(1)) {
                let t = choose|t: int| 0 <= t < kinds.skip(1).len() && kinds.skip(1)[t]
                    == d0.kind;
                assert(kinds[t + 1] == d0.kind);
                assert(kinds[0] != kinds[t + 1]);
            }
        }
        lemma_grouped_drop_unlisted(defs, kinds.skip(1));
        vstd::seq_lib::lemma_multiset_commutative(dk, rest);
        vstd::seq_lib::lemma_multiset_commutative(dk1, rest1);
        vstd::seq_lib::lemma_multiset_commutative(seq![d0], dk1);
        assert(seq![d0].to_multiset() =~= vstd::multiset::Multiset::<NetdefV>::empty().insert(
            d0,
        )) by {
            assert(seq![d0] =~= Seq::<NetdefV>::empty().push(d0));
            assert(Seq::<NetdefV>::empty().push(d0).to_multiset()
                =~= Seq::<NetdefV>::empty().to_multiset().insert(d0));
            assert(Seq::<NetdefV>::empty().to_multiset().len() == 0);
            assert(Seq::<NetdefV>::empty().to_multiset()
                =~= vstd::multiset::Multiset::<NetdefV>::empty());
        }
        assert(g.to_multiset() =~= g1.to_multiset().insert(d0));
    } else {
        assert(dk =~= dk1);
        assert(kind_in(d0.kind, kinds.skip(1))) by {
            let t = choose|t: int| 0 <= t < kinds.len() && kinds[t] == d0.kind;
            assert(t != 0);
            assert(kinds.skip(1)[t - 1] == d0.kind);
        }
        lemma_grouped_drop_first(defs, kinds.skip(1));
        vstd::seq_lib::lemma_multiset_commutative(dk, rest);
        vstd::seq_lib::lemma_multiset_commutative(dk1, rest1);
        assert(g.to_multiset() =~= g1.to_multiset().insert(d0));
    }
}

/// Grouping the definitions by kind permutes them: the groups hold exactly
/// the definitions, each exactly once.
pub proof fn lemma_grouped_multiset(defs: Seq<NetdefV>, kinds: Seq<NetdefType>)
    requires
        forall|i: int, j: int|
            0 <= i < j < kinds.len() ==> (#[trigger] kinds[i]) != (#[trigger] kinds[j]),
        forall|i: int| 0 <= i < defs.len() ==> kind_in((#[trigger] defs[i]).kind, kinds),
    ensures
        grouped_defs(defs, kinds).to_multiset() == defs.to_multiset(),
    decreases defs.len(),
{
    broadcast use vstd::seq_lib::group_to_multiset_ensures;

    if defs.len() == 0 {
        assert(grouped_defs(defs, kinds).to_multiset().len() == 0) by {
            lemma_grouped_empty(defs, kinds);
        }
        assert(defs.to_multiset().len() == 0);
        assert(grouped_defs(defs, kinds).to_multiset() =~= defs.to_multiset());
    } else {
        assert forall|i: int|
            0 <= i < defs.skip(1).len() implies kind_in(
            (#[trigger] defs.skip(1)[i]).kind,
            kinds,
        ) by {
            assert(defs.skip(1)[i] == defs[i + 1]);
        }
        lemma_grouped_multiset(defs.skip(1), kinds);
        lemma_grouped_drop_first(defs, kinds);
        assert(defs.remove(0) =~= defs.skip(1));
        assert(defs.remove(0).to_multiset() =~= defs.to_multiset().remove(defs[0]));
        assert(defs.to_multiset().count(defs[0]) > 0) by {
            assert(defs.contains(defs[0]));
        }
        assert(defs.skip(1).to_multiset().insert(defs[0]) =~= defs.to_multiset());
        assert(grouped_defs(defs, kinds).to_multiset() =~= defs.to_multiset());
    }
}

/// With no definitions, every group is empty.
pub proof fn lemma_grouped_empty(defs: Seq<NetdefV>, kinds: Seq<NetdefType>)
    requires
        defs.len() == 0,
    ensures
        grouped_defs(defs, kinds).len() == 0,
    decreases kinds.len(),
{
    if kinds.len() > 0 {
        lemma_grouped_empty(defs, kinds.skip(1));
        assert(defs_of_kind(defs, kinds[0]) =~= Seq::<NetdefV>::empty());
    }
}

/// Round trip at the document level: interpreting a state's canonical dump
/// back through the section reader and folding the result through the merge
/// engine yields the same schema version, the same renderer, and exactly
/// the same definitions by id, kind and properties; only their order
/// changes, to the dump's grouping by kind. Together with the serializer's
/// and parser's exact contracts and `lemma_scalar_round_trip`, this is the
/// dump-and-reload round trip above the text layer.
pub proof fn theorem_doc_round_trip(sv: StateV)
    requires
        unique_ids(sv.defs),
        props_ok_defs(sv.defs),
        forall|i: int| 0 <= i < sv.defs.len() ==> kind_has_section((#[trigger] sv.defs[i]).kind),
    ensures
        ({
            let reloaded = conv_body(crate::state::state_body(sv));
            &&& reloaded is Ok
            &&& reloaded->Ok_0.version == Some(sv.version)
            &&& reloaded->Ok_0.renderer == sv.renderer
            &&& merge_defs(Seq::empty(), reloaded->Ok_0.defs) == Ok::<Seq<NetdefV>, Seq<char>>(
                reloaded->Ok_0.defs,
            )
            &&& reloaded->Ok_0.defs.to_multiset() == sv.defs.to_multiset()
        }),
{
    lemma_conv_state_body(sv);
    let ko = crate::state::kinds_order();
    assert forall|i: int, j: int|
        0 <= i < j < ko.len() implies (#[trigger] ko[i]) != (#[trigger] ko[j]) by {
        assert(ko[0] == NetdefType::Ethernet);
        assert(ko[1] == NetdefType::Wifi);
        assert(ko[2] == NetdefType::Modem);
        assert(ko[3] == NetdefType::Bridge);
        assert(ko[4] == NetdefType::Bond);
        assert(ko[5] == NetdefType::Vlan);
        assert(ko[6] == NetdefType::Tunnel);
        assert(ko[7] == NetdefType::Vrf);
        assert(ko[8] == NetdefType::Nm);
        assert(ko[9] == NetdefType::Dummy);
        assert(ko[10] == NetdefType::Veth);
    }
    assert forall|i: int| 0 <= i < sv.defs.len() implies kind_in(
        (#[trigger] sv.defs[i]).kind,
        ko,
    ) by {
        match sv.defs[i].kind {
            NetdefType::Ethernet => {
                assert(ko[0] == sv.defs[i].kind);
            },
            NetdefType::Wifi => {
                assert(ko[1] == sv.defs[i].kind);
            },
            NetdefType::Modem => {
                assert(ko[2] == sv.defs[i].kind);
            },
            NetdefType::Bridge => {
                assert(ko[3] == sv.defs[i].kind);
            },
            NetdefType::Bond => {
                assert(ko[4] == sv.defs[i].kind);
            },
            NetdefType::Vlan => {
                assert(ko[5] == sv.defs[i].kind);
            },
            NetdefType::Tunnel => {
                assert(ko[6] == sv.defs[i].kind);
            },
            NetdefType::Vrf => {
                assert(ko[7] == sv.defs[i].kind);
            },
            NetdefType::Nm => {
                assert(ko[8] == sv.defs[i].kind);
            },
            NetdefType::Dummy => {
                assert(ko[9] == sv.defs[i].kind);
            },
            NetdefType::Veth => {
                assert(ko[10] == sv.defs[i].kind);
            },
            NetdefType::Port => {
                assert(kind_has_section(sv.defs[i].kind));
            },
            NetdefType::Unknown => {
                assert(kind_has_section(sv.defs[i].kind));
            },
        }
    }
    lemma_grouped_unique(sv.defs, ko);
    lemma_grouped_multiset(sv.defs, ko);
    let gd = grouped_defs(sv.defs, ko);
    assert(Seq::<NetdefV>::empty() + gd =~= gd);
    assert(unique_ids(Seq::<NetdefV>::empty() + gd));
    lemma_merge_defs_identity(Seq::<NetdefV>::empty(), gd);
}

} // verus!
