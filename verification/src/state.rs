//! The merged state: the merge engine that folds parser results into one
//! consistent set of definitions, the cross-entity validation that runs on
//! the full merge, and the query and serialization layer on top.

use vstd::prelude::*;

use crate::chars::{chars_to_string, int_chars, push_int_chars, str_to_chars};
use crate::error::{NetplanErrorDomains, NetplanResult};
use crate::netdef::{
    kind_has_section, section_of_kind, spec_section_of_kind, Netdef, NetdefType, NetdefV,
};
use crate::parser::{defs_view, defs_wf, Parser, ParserV};
use crate::value::{
    entries_depth, entries_view, key_index, lemma_entries_depth_index, lemma_entries_view,
    lemma_key_index, lemma_merge_node_depth, lemma_view_variant, list_view, map_get, map_has_key,
    merge_node, nat_max, node_depth, Node, Value,
};
use crate::yaml::{emit_entries, emit_entries_exec, push_chars, push_str};

verus! {

/// The view of a merged state.
pub struct StateV {
    pub defs: Seq<NetdefV>,
    pub version: int,
    pub renderer: Option<Seq<char>>,
}

/// The index of the first definition with the given id, or the length when
/// none has it.
pub open spec fn def_index(defs: Seq<NetdefV>, id: Seq<char>) -> int
    decreases defs.len(),
{
    if defs.len() == 0 {
        0
    } else if defs[0].id == id {
        0
    } else {
        1 + def_index(defs.skip(1), id)
    }
}

/// Whether some definition has the given id.
pub open spec fn has_def(defs: Seq<NetdefV>, id: Seq<char>) -> bool {
    def_index(defs, id) < defs.len()
}

pub proof fn lemma_def_index(defs: Seq<NetdefV>, id: Seq<char>)
    ensures
        0 <= def_index(defs, id) <= defs.len(),
        def_index(defs, id) < defs.len() ==> defs[def_index(defs, id)].id == id,
        forall|j: int| 0 <= j < def_index(defs, id) ==> defs[j].id != id,
    decreases defs.len(),
{
    if defs.len() > 0 && defs[0].id != id {
        lemma_def_index(defs.skip(1), id);
        assert forall|j: int| 0 <= j < def_index(defs, id) implies defs[j].id != id by {
            if j > 0 {
                assert(defs.skip(1)[j - 1] == defs[j]);
            }
        }
    }
}

pub proof fn lemma_def_index_found(defs: Seq<NetdefV>, id: Seq<char>, i: int)
    requires
        0 <= i < defs.len(),
        defs[i].id == id,
        forall|j: int| 0 <= j < i ==> defs[j].id != id,
    ensures
        def_index(defs, id) == i,
    decreases defs.len(),
{
    if i > 0 {
        assert forall|j: int| 0 <= j < i - 1 implies defs.skip(1)[j].id != id by {
            assert(defs.skip(1)[j] == defs[j + 1]);
        }
        assert(defs.skip(1)[i - 1] == defs[i]);
        lemma_def_index_found(defs.skip(1), id, i - 1);
    }
}

/// The validation-domain message for two fragments declaring one id with
/// different kinds.
pub open spec fn kind_mismatch_msg(id: Seq<char>) -> Seq<char> {
    id + ": device type mismatch"@
}

/// The merge rule folded over later definitions: a new id is appended; an
/// existing id has its properties merged key by key, with the later value
/// winning, unless the kinds differ, which is an immediate conflict.
pub open spec fn merge_defs(acc: Seq<NetdefV>, ds: Seq<NetdefV>) -> Result<Seq<NetdefV>, Seq<char>>
    decreases ds.len(),
{
    if ds.len() == 0 {
        Ok(acc)
    } else {
        let d = ds[0];
        if has_def(acc, d.id) {
            let i = def_index(acc, d.id);
            if acc[i].kind != d.kind {
                Err(kind_mismatch_msg(d.id))
            } else {
                merge_defs(
                    acc.update(
                        i,
                        NetdefV {
                            id: d.id,
                            kind: d.kind,
                            props: merge_node(acc[i].props, d.props),
                        },
                    ),
                    ds.skip(1),
                )
            }
        } else {
            merge_defs(acc.push(d), ds.skip(1))
        }
    }
}

/// The validation-domain message for a VRF whose declared routing table
/// disagrees with a route attached to it.
pub open spec fn vrf_mismatch_msg(id: Seq<char>, a: int, b: int) -> Seq<char> {
    id + ": VRF routes table mismatch ("@ + int_chars(a) + " != "@ + int_chars(b) + ")"@
}

/// The validation-domain message for a missing required property.
pub open spec fn missing_prop_msg(id: Seq<char>, k: Seq<char>) -> Seq<char> {
    id + ": missing required property '"@ + k + "'"@
}

/// The validation-domain message for a reference to an id that is not
/// defined.
pub open spec fn undefined_ref_msg(id: Seq<char>, m: Seq<char>) -> Seq<char> {
    id + ": interface '"@ + m + "' is not defined"@
}

/// The routes of a definition's properties: the `routes` list, when there
/// is one.
pub open spec fn routes_of(props: Node) -> Seq<Node> {
    match props {
        Node::Mapping(pes) => if map_has_key(pes, "routes"@) && map_get(pes, "routes"@) is List {
            map_get(pes, "routes"@)->List_0
        } else {
            Seq::empty()
        },
        _ => Seq::empty(),
    }
}

/// The declared routing table of a definition, when there is one.
pub open spec fn table_of(props: Node) -> Option<int> {
    match props {
        Node::Mapping(pes) => if map_has_key(pes, "table"@) && map_get(pes, "table"@) is Int {
            Some(map_get(pes, "table"@)->Int_0)
        } else {
            None
        },
        _ => None,
    }
}

/// The interfaces named by a definition, when there are any.
pub open spec fn interfaces_of(props: Node) -> Seq<Node> {
    match props {
        Node::Mapping(pes) => if map_has_key(pes, "interfaces"@) && map_get(pes, "interfaces"@)
            is List {
            map_get(pes, "interfaces"@)->List_0
        } else {
            Seq::empty()
        },
        _ => Seq::empty(),
    }
}

/// The first route in the list whose explicit table disagrees with `t`.
pub open spec fn routes_table_err(items: Seq<Node>, id: Seq<char>, t: int) -> Option<Seq<char>>
    decreases items.len(),
{
    if items.len() == 0 {
        None
    } else {
        let e: Option<Seq<char>> = match items[0] {
            Node::Mapping(res) => if map_has_key(res, "table"@) && map_get(res, "table"@) is Int
                && map_get(res, "table"@)->Int_0 != t {
                Some(vrf_mismatch_msg(id, t, map_get(res, "table"@)->Int_0))
            } else {
                None
            },
            _ => None,
        };
        match e {
            Some(m) => Some(m),
            None => routes_table_err(items.skip(1), id, t),
        }
    }
}

/// The first table mismatch among the routes of a VRF's member interfaces.
pub open spec fn members_table_err(
    all: Seq<NetdefV>,
    members: Seq<Node>,
    id: Seq<char>,
    t: int,
) -> Option<Seq<char>>
    decreases members.len(),
{
    if members.len() == 0 {
        None
    } else {
        let e: Option<Seq<char>> = match members[0] {
            Node::Str(m) => if has_def(all, m) {
                routes_table_err(routes_of(all[def_index(all, m)].props), id, t)
            } else {
                None
            },
            _ => None,
        };
        match e {
            Some(msg) => Some(msg),
            None => members_table_err(all, members.skip(1), id, t),
        }
    }
}

/// The first undefined id among the interfaces a definition names.
pub open spec fn refs_err(all: Seq<NetdefV>, members: Seq<Node>, id: Seq<char>) -> Option<
    Seq<char>,
>
    decreases members.len(),
{
    if members.len() == 0 {
        None
    } else {
        let e: Option<Seq<char>> = match members[0] {
            Node::Str(m) => if has_def(all, m) {
                None
            } else {
                Some(undefined_ref_msg(id, m))
            },
            _ => None,
        };
        match e {
            Some(msg) => Some(msg),
            None => refs_err(all, members.skip(1), id),
        }
    }
}

/// Whether a definition's properties hold a plain-string value for `k`.
pub open spec fn has_str_prop(props: Node, k: Seq<char>) -> bool {
    match props {
        Node::Mapping(pes) => map_has_key(pes, k) && map_get(pes, k) is Str,
        _ => false,
    }
}

/// Whether a definition's properties hold an integer value for `k`.
pub open spec fn has_int_prop(props: Node, k: Seq<char>) -> bool {
    match props {
        Node::Mapping(pes) => map_has_key(pes, k) && map_get(pes, k) is Int,
        _ => false,
    }
}

/// The first validation error of one definition, seen against the whole
/// merged set: required fields, then routing-table consistency for a VRF
/// (its own routes and its members' routes), then referential integrity of
/// the interfaces it names and the link it points at.
pub open spec fn check_def(all: Seq<NetdefV>, d: NetdefV) -> Option<Seq<char>> {
    if d.kind is Vlan && !has_int_prop(d.props, "id"@) {
        Some(missing_prop_msg(d.id, "id"@))
    } else if d.kind is Vlan && !has_str_prop(d.props, "link"@) {
        Some(missing_prop_msg(d.id, "link"@))
    } else {
        let vrf_err: Option<Seq<char>> = if d.kind is Vrf && table_of(d.props) is Some {
            let t = table_of(d.props)->Some_0;
            match routes_table_err(routes_of(d.props), d.id, t) {
                Some(m) => Some(m),
                None => members_table_err(all, interfaces_of(d.props), d.id, t),
            }
        } else {
            None
        };
        match vrf_err {
            Some(m) => Some(m),
            None => match refs_err(all, interfaces_of(d.props), d.id) {
                Some(m) => Some(m),
                None => if has_str_prop(d.props, "link"@) && !has_def(
                    all,
                    link_of(d.props),
                ) {
                    Some(undefined_ref_msg(d.id, link_of(d.props)))
                } else {
                    None
                },
            },
        }
    }
}

/// The link a definition points at.
pub open spec fn link_of(props: Node) -> Seq<char> {
    match props {
        Node::Mapping(pes) => map_get(pes, "link"@)->Str_0,
        _ => Seq::empty(),
    }
}

/// The first validation error among all merged definitions, in order.
pub open spec fn validate_from(all: Seq<NetdefV>, i: int) -> Option<Seq<char>>
    decreases all.len() - i,
{
    if i < 0 || i >= all.len() {
        None
    } else {
        match check_def(all, all[i]) {
            Some(m) => Some(m),
            None => validate_from(all, i + 1),
        }
    }
}

/// What importing a parser's results into a state yields: the full merge of
/// its definitions and then its overrides, validated as a whole; the
/// parser's globals win over the state's. No partially merged state is ever
/// exposed.
pub open spec fn import_outcome(sv: StateV, pv: ParserV) -> Result<StateV, Seq<char>> {
    match merge_defs(sv.defs, pv.defs + pv.overrides) {
        Err(m) => Err(m),
        Ok(defs) => match validate_from(defs, 0) {
            Some(m) => Err(m),
            None => Ok(
                StateV {
                    defs,
                    version: match pv.version {
                        Some(v) => v,
                        None => sv.version,
                    },
                    renderer: match pv.renderer {
                        Some(r) => Some(r),
                        None => sv.renderer,
                    },
                },
            ),
        },
    }
}

/// Unique ids: no two definitions share one.
pub open spec fn unique_ids(defs: Seq<NetdefV>) -> bool {
    forall|i: int, j: int|
        0 <= i < j < defs.len() ==> (#[trigger] defs[i]).id != (#[trigger] defs[j]).id
}

/// A merge keeps ids unique and definitions well formed.
pub proof fn lemma_merge_defs_wf(acc: Seq<NetdefV>, ds: Seq<NetdefV>, bound: nat)
    requires
        merge_defs(acc, ds) is Ok,
        unique_ids(acc),
        defs_wf(acc, bound),
        defs_wf(ds, bound),
    ensures
        unique_ids(merge_defs(acc, ds)->Ok_0),
        defs_wf(merge_defs(acc, ds)->Ok_0, bound),
    decreases ds.len(),
{
    if ds.len() > 0 {
        let d = ds[0];
        assert(ds[0] == d);
        assert(defs_wf(ds.skip(1), bound)) by {
            assert forall|q: int| 0 <= q < ds.skip(1).len() implies {
                &&& (#[trigger] ds.skip(1)[q]).props is Mapping
                &&& node_depth(ds.skip(1)[q].props) <= bound
                &&& kind_has_section(ds.skip(1)[q].kind)
            } by {
                assert(ds.skip(1)[q] == ds[q + 1]);
            }
        }
        if has_def(acc, d.id) {
            let i = def_index(acc, d.id);
            lemma_def_index(acc, d.id);
            if acc[i].kind == d.kind {
                let nd = NetdefV {
                    id: d.id,
                    kind: d.kind,
                    props: merge_node(acc[i].props, d.props),
                };
                let acc2 = acc.update(i, nd);
                lemma_merge_node_depth(acc[i].props, d.props);
                assert(acc2[i] == nd);
                assert(unique_ids(acc2)) by {
                    assert forall|p: int, q: int|
                        0 <= p < q < acc2.len() implies (#[trigger] acc2[p]).id != (
                        #[trigger] acc2[q]).id by {
                        assert(acc2[p].id == acc[p].id);
                        assert(acc2[q].id == acc[q].id);
                    }
                }
                assert(defs_wf(acc2, bound)) by {
                    assert forall|q: int| 0 <= q < acc2.len() implies {
                        &&& (#[trigger] acc2[q]).props is Mapping
                        &&& node_depth(acc2[q].props) <= bound
                        &&& kind_has_section(acc2[q].kind)
                    } by {
                        if q != i {
                            assert(acc2[q] == acc[q]);
                        } else {
                            assert(acc[i].props is Mapping && d.props is Mapping);
                        }
                    }
                }
                lemma_merge_defs_wf(acc2, ds.skip(1), bound);
            }
        } else {
            let acc2 = acc.push(d);
            lemma_def_index(acc, d.id);
            assert(unique_ids(acc2)) by {
                assert forall|p: int, q: int|
                    0 <= p < q < acc2.len() implies (#[trigger] acc2[p]).id != (
                    #[trigger] acc2[q]).id by {
                    if q < acc.len() {
                        assert(acc2[p] == acc[p] && acc2[q] == acc[q]);
                    } else {
                        assert(acc2[q] == d);
                        assert(acc2[p] == acc[p]);
                    }
                }
            }
            assert(defs_wf(acc2, bound)) by {
                assert forall|q: int| 0 <= q < acc2.len() implies {
                    &&& (#[trigger] acc2[q]).props is Mapping
                    &&& node_depth(acc2[q].props) <= bound
                    &&& kind_has_section(acc2[q].kind)
                } by {
                    if q < acc.len() {
                        assert(acc2[q] == acc[q]);
                    } else {
                        assert(acc2[q] == d);
                    }
                }
            }
            lemma_merge_defs_wf(acc2, ds.skip(1), bound);
        }
    }
}

/// A fresh copy of one definition.
pub fn clone_netdef(d: &Netdef) -> (r: Netdef)
    ensures
        r@ == d@,
{
    Netdef {
        id: d.id.clone(),
        kind: d.kind,
        properties: crate::value::deep_clone(&d.properties),
    }
}

/// A fresh copy of a definition list.
#[verifier::loop_isolation(false)]
fn clone_defs(ds: &Vec<Netdef>) -> (r: Vec<Netdef>)
    ensures
        defs_view(r@) == defs_view(ds@),
{
    let mut out: Vec<Netdef> = Vec::new();
    let mut i: usize = 0;
    while i < ds.len()
        invariant
            0 <= i <= ds@.len(),
            defs_view(out@) == defs_view(ds@).take(i as int),
        decreases ds@.len() - i,
    {
        out.push(clone_netdef(&ds[i]));
        proof {
            assert(defs_view(out@) =~= defs_view(ds@).take(i + 1 as int));
        }
        i = i + 1;
    }
    proof {
        assert(defs_view(out@) =~= defs_view(ds@));
    }
    out
}

/// The position of the first definition with the given id.
#[verifier::loop_isolation(false)]
fn find_def(ds: &Vec<Netdef>, id: &String) -> (r: Option<usize>)
    ensures
        (match r {
            Some(i) => i == def_index(defs_view(ds@), id@) && i < ds@.len(),
            None => !has_def(defs_view(ds@), id@),
        }),
{
    let ghost dv = defs_view(ds@);
    let mut i: usize = 0;
    while i < ds.len()
        invariant
            0 <= i <= ds@.len(),
            forall|j: int| 0 <= j < i ==> (#[trigger] dv[j]).id != id@,
        decreases ds@.len() - i,
    {
        proof {
            assert(dv[i as int] == ds@[i as int]@);
        }
        if ds[i].id == *id {
            proof {
                lemma_def_index_found(dv, id@, i as int);
            }
            return Some(i);
        }
        i = i + 1;
    }
    proof {
        lemma_def_index(dv, id@);
        if has_def(dv, id@) {
            assert(dv[def_index(dv, id@)].id == id@);
        }
    }
    None
}

/// The value of a property key, when the properties are a mapping holding
/// it.
fn get_prop<'a>(props: &'a Value, k: &str) -> (r: Option<&'a Value>)
    ensures
        (match r {
            Some(v) => props@ is Mapping && map_has_key(props@->Mapping_0, k@) && v@ == map_get(
                props@->Mapping_0,
                k@,
            ),
            None => !(props@ is Mapping && map_has_key(props@->Mapping_0, k@)),
        }),
{
    proof {
        lemma_view_variant(*props);
    }
    match props {
        Value::Mapping(pes) => {
            proof {
                lemma_entries_view(*pes);
                assert(*props == Value::Mapping(*pes));
                lemma_key_index(entries_view(pes@), k@);
            }
            let kc = str_to_chars(k);
            match crate::value::find_key(pes, &kc) {
                Some(i) => {
                    proof {
                        assert(entries_view(pes@)[i as int] == (pes@[i as int].0@, pes@[
                            i as int].1@));
                    }
                    Some(&pes[i].1)
                },
                None => None,
            }
        },
        _ => None,
    }
}

/// The validation message for a kind conflict.
fn make_kind_mismatch_msg(id: &String) -> (r: String)
    ensures
        r@ == kind_mismatch_msg(id@),
{
    let mut out: Vec<char> = str_to_chars(id.as_str());
    push_str(&mut out, ": device type mismatch");
    proof {
        assert(out@ =~= kind_mismatch_msg(id@));
    }
    chars_to_string(&out)
}

/// The validation message for a VRF table mismatch.
fn make_vrf_msg(id: &String, a: i64, b: i64) -> (r: Vec<char>)
    ensures
        r@ == vrf_mismatch_msg(id@, a as int, b as int),
{
    let mut out: Vec<char> = str_to_chars(id.as_str());
    push_str(&mut out, ": VRF routes table mismatch (");
    push_int_chars(a, &mut out);
    push_str(&mut out, " != ");
    push_int_chars(b, &mut out);
    push_str(&mut out, ")");
    proof {
        assert(out@ =~= vrf_mismatch_msg(id@, a as int, b as int));
    }
    out
}

/// The validation message for a missing required property.
fn make_missing_prop_msg(id: &String, k: &str) -> (r: Vec<char>)
    ensures
        r@ == missing_prop_msg(id@, k@),
{
    let mut out: Vec<char> = str_to_chars(id.as_str());
    push_str(&mut out, ": missing required property '");
    push_str(&mut out, k);
    push_str(&mut out, "'");
    proof {
        assert(out@ =~= missing_prop_msg(id@, k@));
    }
    out
}

/// The validation message for an undefined reference.
fn make_undefined_ref_msg(id: &String, m: &Vec<char>) -> (r: Vec<char>)
    ensures
        r@ == undefined_ref_msg(id@, m@),
{
    let mut out: Vec<char> = str_to_chars(id.as_str());
    push_str(&mut out, ": interface '");
    push_chars(&mut out, m);
    push_str(&mut out, "' is not defined");
    proof {
        assert(out@ =~= undefined_ref_msg(id@, m@));
    }
    out
}

/// The first table mismatch among a route list; see `routes_table_err`.
#[verifier::loop_isolation(false)]
fn routes_table_check(items: &Vec<Value>, id: &String, t: i64) -> (r: Option<Vec<char>>)
    ensures
        (match r {
            Some(m) => routes_table_err(list_view(items@), id@, t as int) == Some(m@),
            None => routes_table_err(list_view(items@), id@, t as int) is None,
        }),
{
    let ghost isv = list_view(items@);
    proof {
        assert(isv.skip(0) =~= isv);
    }
    let mut i: usize = 0;
    while i < items.len()
        invariant
            0 <= i <= items@.len(),
            routes_table_err(isv, id@, t as int) == routes_table_err(
                isv.skip(i as int),
                id@,
                t as int,
            ),
        decreases items@.len() - i,
    {
        proof {
            assert(isv.skip(i as int)[0] == isv[i as int]);
            assert(isv.skip(i as int).skip(1) =~= isv.skip(i + 1 as int));
            assert(isv[i as int] == items@[i as int]@);
        }
        match get_prop(&items[i], "table") {
            Some(tv) => {
                match tv {
                    Value::Int(t2) => {
                        if *t2 != t {
                            return Some(make_vrf_msg(id, t, *t2));
                        }
                    },
                    _ => {
                        proof {
                            lemma_view_variant(*tv);
                        }
                    },
                }
            },
            None => {
                proof {
                    lemma_view_variant(items@[i as int]);
                }
            },
        }
        i = i + 1;
    }
    proof {
        assert(isv.skip(items@.len() as int) =~= Seq::<Node>::empty());
    }
    None
}

/// The first mismatch among a VRF's member routes; see `members_table_err`.
#[verifier::loop_isolation(false)]
fn members_table_check(all: &Vec<Netdef>, members: &Vec<Value>, id: &String, t: i64) -> (r: Option<
    Vec<char>,
>)
    ensures
        (match r {
            Some(m) => members_table_err(defs_view(all@), list_view(members@), id@, t as int)
                == Some(m@),
            None => members_table_err(defs_view(all@), list_view(members@), id@, t as int)
                is None,
        }),
{
    let ghost av = defs_view(all@);
    let ghost msv = list_view(members@);
    proof {
        assert(msv.skip(0) =~= msv);
    }
    let mut i: usize = 0;
    while i < members.len()
        invariant
            0 <= i <= members@.len(),
            members_table_err(av, msv, id@, t as int) == members_table_err(
                av,
                msv.skip(i as int),
                id@,
                t as int,
            ),
        decreases members@.len() - i,
    {
        proof {
            assert(msv.skip(i as int)[0] == msv[i as int]);
            assert(msv.skip(i as int).skip(1) =~= msv.skip(i + 1 as int));
            assert(msv[i as int] == members@[i as int]@);
            lemma_view_variant(members@[i as int]);
        }
        match &members[i] {
            Value::Str(mname) => {
                let ms = chars_to_string(mname);
                match find_def(all, &ms) {
                    Some(di) => {
                        proof {
                            assert(av[di as int] == all@[di as int]@);
                        }
                        match get_prop(&all[di].properties, "routes") {
                            Some(rv) => {
                                match rv {
                                    Value::List(ritems) => {
                                        proof {
                                            crate::value::lemma_list_view(*ritems);
                                        }
                                        match routes_table_check(ritems, id, t) {
                                            Some(m) => {
                                                return Some(m);
                                            },
                                            None => {},
                                        }
                                    },
                                    _ => {
                                        proof {
                                            lemma_view_variant(*rv);
                                            assert(routes_of(av[di as int].props)
                                                =~= Seq::<Node>::empty());
                                        }
                                    },
                                }
                            },
                            None => {
                                proof {
                                    assert(routes_of(av[di as int].props)
                                        =~= Seq::<Node>::empty());
                                }
                            },
                        }
                    },
                    None => {},
                }
            },
            _ => {},
        }
        i = i + 1;
    }
    proof {
        assert(msv.skip(members@.len() as int) =~= Seq::<Node>::empty());
    }
    None
}

/// The first undefined reference among named interfaces; see `refs_err`.
#[verifier::loop_isolation(false)]
fn refs_check(all: &Vec<Netdef>, members: &Vec<Value>, id: &String) -> (r: Option<Vec<char>>)
    ensures
        (match r {
            Some(m) => refs_err(defs_view(all@), list_view(members@), id@) == Some(m@),
            None => refs_err(defs_view(all@), list_view(members@), id@) is None,
        }),
{
    let ghost av = defs_view(all@);
    let ghost msv = list_view(members@);
    proof {
        assert(msv.skip(0) =~= msv);
    }
    let mut i: usize = 0;
    while i < members.len()
        invariant
            0 <= i <= members@.len(),
            refs_err(av, msv, id@) == refs_err(av, msv.skip(i as int), id@),
        decreases members@.len() - i,
    {
        proof {
            assert(msv.skip(i as int)[0] == msv[i as int]);
            assert(msv.skip(i as int).skip(1) =~= msv.skip(i + 1 as int));
            assert(msv[i as int] == members@[i as int]@);
            lemma_view_variant(members@[i as int]);
        }
        match &members[i] {
            Value::Str(mname) => {
                let ms = chars_to_string(mname);
                match find_def(all, &ms) {
                    Some(_) => {},
                    None => {
                        return Some(make_undefined_ref_msg(id, mname));
                    },
                }
            },
            _ => {},
        }
        i = i + 1;
    }
    proof {
        assert(msv.skip(members@.len() as int) =~= Seq::<Node>::empty());
    }
    None
}

/// The first validation error of one definition; see `check_def`.
fn check_def_x(all: &Vec<Netdef>, d: &Netdef) -> (r: Option<Vec<char>>)
    ensures
        (match r {
            Some(m) => check_def(defs_view(all@), d@) == Some(m@),
            None => check_def(defs_view(all@), d@) is None,
        }),
{
    proof {
        lemma_view_variant(d.properties);
    }
    if matches!(d.kind, NetdefType::Vlan) {
        let idp = get_prop(&d.properties, "id");
        let id_ok = match idp {
            Some(v) => {
                proof {
                    lemma_view_variant(*v);
                }
                matches!(v, Value::Int(_))
            },
            None => false,
        };
        if !id_ok {
            return Some(make_missing_prop_msg(&d.id, "id"));
        }
        let lp = get_prop(&d.properties, "link");
        let l_ok = match lp {
            Some(v) => {
                proof {
                    lemma_view_variant(*v);
                }
                matches!(v, Value::Str(_))
            },
            None => false,
        };
        if !l_ok {
            return Some(make_missing_prop_msg(&d.id, "link"));
        }
    }
    if matches!(d.kind, NetdefType::Vrf) {
        let tp = get_prop(&d.properties, "table");
        match tp {
            Some(tv) => {
                match tv {
                    Value::Int(t) => {
                        let t = *t;
                        match get_prop(&d.properties, "routes") {
                            Some(rv) => {
                                match rv {
                                    Value::List(ritems) => {
                                        proof {
                                            crate::value::lemma_list_view(*ritems);
                                        }
                                        match routes_table_check(ritems, &d.id, t) {
                                            Some(m) => {
                                                return Some(m);
                                            },
                                            None => {},
                                        }
                                    },
                                    _ => {
                                        proof {
                                            lemma_view_variant(*rv);
                                            assert(routes_of(d@.props) =~= Seq::<Node>::empty());
                                        }
                                    },
                                }
                            },
                            None => {
                                proof {
                                    assert(routes_of(d@.props) =~= Seq::<Node>::empty());
                                }
                            },
                        }
                        match get_prop(&d.properties, "interfaces") {
                            Some(iv) => {
                                match iv {
                                    Value::List(mitems) => {
                                        proof {
                                            crate::value::lemma_list_view(*mitems);
                                        }
                                        match members_table_check(all, mitems, &d.id, t) {
                                            Some(m) => {
                                                return Some(m);
                                            },
                                            None => {},
                                        }
                                    },
                                    _ => {
                                        proof {
                                            lemma_view_variant(*iv);
                                            assert(interfaces_of(d@.props)
                                                =~= Seq::<Node>::empty());
                                        }
                                    },
                                }
                            },
                            None => {
                                proof {
                                    assert(interfaces_of(d@.props) =~= Seq::<Node>::empty());
                                }
                            },
                        }
                    },
                    _ => {
                        proof {
                            lemma_view_variant(*tv);
                        }
                    },
                }
            },
            None => {},
        }
    }
    match get_prop(&d.properties, "interfaces") {
        Some(iv) => {
            match iv {
                Value::List(mitems) => {
                    proof {
                        crate::value::lemma_list_view(*mitems);
                    }
                    match refs_check(all, mitems, &d.id) {
                        Some(m) => {
                            return Some(m);
                        },
                        None => {},
                    }
                },
                _ => {
                    proof {
                        lemma_view_variant(*iv);
                        assert(interfaces_of(d@.props) =~= Seq::<Node>::empty());
                    }
                },
            }
        },
        None => {
            proof {
                assert(interfaces_of(d@.props) =~= Seq::<Node>::empty());
            }
        },
    }
    match get_prop(&d.properties, "link") {
        Some(lv) => {
            match lv {
                Value::Str(lname) => {
                    let ls = chars_to_string(lname);
                    match find_def(all, &ls) {
                        Some(_) => None,
                        None => Some(make_undefined_ref_msg(&d.id, lname)),
                    }
                },
                _ => {
                    proof {
                        lemma_view_variant(*lv);
                    }
                    None
                },
            }
        },
        None => None,
    }
}

/// The first validation error among all definitions; see `validate_from`.
#[verifier::loop_isolation(false)]
fn validate_defs_x(all: &Vec<Netdef>) -> (r: Option<Vec<char>>)
    ensures
        (match r {
            Some(m) => validate_from(defs_view(all@), 0) == Some(m@),
            None => validate_from(defs_view(all@), 0) is None,
        }),
{
    let ghost av = defs_view(all@);
    let mut i: usize = 0;
    while i < all.len()
        invariant
            0 <= i <= all@.len(),
            validate_from(av, 0) == validate_from(av, i as int),
        decreases all@.len() - i,
    {
        proof {
            assert(av[i as int] == all@[i as int]@);
        }
        match check_def_x(all, &all[i]) {
            Some(m) => {
                return Some(m);
            },
            None => {},
        }
        i = i + 1;
    }
    None
}

/// The canonical order of sections in a dump.
pub open spec fn kinds_order() -> Seq<NetdefType> {
    seq![
        NetdefType::Ethernet,
        NetdefType::Wifi,
        NetdefType::Modem,
        NetdefType::Bridge,
        NetdefType::Bond,
        NetdefType::Vlan,
        NetdefType::Tunnel,
        NetdefType::Vrf,
        NetdefType::Nm,
        NetdefType::Dummy,
        NetdefType::Veth,
    ]
}

/// The entries of one kind's section: the definitions of that kind, in
/// state order.
pub open spec fn section_entries(defs: Seq<NetdefV>, kind: NetdefType) -> Seq<(Seq<char>, Node)>
    decreases defs.len(),
{
    if defs.len() == 0 {
        Seq::empty()
    } else {
        let head: Seq<(Seq<char>, Node)> = if defs[0].kind == kind {
            seq![(defs[0].id, defs[0].props)]
        } else {
            Seq::empty()
        };
        head + section_entries(defs.skip(1), kind)
    }
}

/// The non-empty sections, in canonical kind order.
pub open spec fn sections_doc(defs: Seq<NetdefV>, kinds: Seq<NetdefType>) -> Seq<
    (Seq<char>, Node),
>
    decreases kinds.len(),
{
    if kinds.len() == 0 {
        Seq::empty()
    } else {
        let se = section_entries(defs, kinds[0]);
        let head: Seq<(Seq<char>, Node)> = if se.len() > 0 {
            seq![(spec_section_of_kind(kinds[0]), Node::Mapping(se))]
        } else {
            Seq::empty()
        };
        head + sections_doc(defs, kinds.skip(1))
    }
}

/// The entries under the root namespace key of a canonical dump: the schema
/// version, the renderer when one is set, then the sections.
pub open spec fn state_body(sv: StateV) -> Seq<(Seq<char>, Node)> {
    seq![("version"@, Node::Int(sv.version))] + (match sv.renderer {
        Some(r) => seq![("renderer"@, Node::Str(r))],
        None => Seq::<(Seq<char>, Node)>::empty(),
    }) + sections_doc(sv.defs, kinds_order())
}

/// The root mapping of a canonical dump.
pub open spec fn state_root(sv: StateV) -> Seq<(Seq<char>, Node)> {
    seq![("network"@, Node::Mapping(state_body(sv)))]
}

/// The canonical dump of a state.
pub open spec fn dump_chars(sv: StateV) -> Seq<char> {
    emit_entries(state_root(sv), 0)
}

/// A section's entries are no deeper than the deepest properties.
pub proof fn lemma_section_entries_depth(defs: Seq<NetdefV>, kind: NetdefType, bound: nat)
    requires
        defs_wf(defs, bound),
    ensures
        entries_depth(section_entries(defs, kind)) <= bound,
    decreases defs.len(),
{
    if defs.len() > 0 {
        assert(defs_wf(defs.skip(1), bound)) by {
            assert forall|q: int| 0 <= q < defs.skip(1).len() implies {
                &&& (#[trigger] defs.skip(1)[q]).props is Mapping
                &&& node_depth(defs.skip(1)[q].props) <= bound
                &&& kind_has_section(defs.skip(1)[q].kind)
            } by {
                assert(defs.skip(1)[q] == defs[q + 1]);
            }
        }
        lemma_section_entries_depth(defs.skip(1), kind, bound);
        let whole = section_entries(defs, kind);
        let rest = section_entries(defs.skip(1), kind);
        if defs[0].kind == kind {
            assert(whole[0] == (defs[0].id, defs[0].props));
            assert(whole.skip(1) =~= rest);
        } else {
            assert(whole =~= rest);
        }
    }
}

/// The section list is one level deeper than the deepest properties.
pub proof fn lemma_sections_doc_depth(defs: Seq<NetdefV>, kinds: Seq<NetdefType>, bound: nat)
    requires
        defs_wf(defs, bound),
    ensures
        entries_depth(sections_doc(defs, kinds)) <= bound + 1,
    decreases kinds.len(),
{
    if kinds.len() > 0 {
        lemma_sections_doc_depth(defs, kinds.skip(1), bound);
        lemma_section_entries_depth(defs, kinds[0], bound);
        let whole = sections_doc(defs, kinds);
        let rest = sections_doc(defs, kinds.skip(1));
        let se = section_entries(defs, kinds[0]);
        if se.len() > 0 {
            assert(whole[0] == (spec_section_of_kind(kinds[0]), Node::Mapping(se)));
            assert(whole.skip(1) =~= rest);
            assert(entries_depth(whole) == nat_max(
                node_depth(whole[0].1),
                entries_depth(whole.skip(1)),
            ));
            assert(node_depth(Node::Mapping(se)) == 1 + entries_depth(se));
        } else {
            assert(whole =~= rest);
        }
    } else {
        assert(entries_depth(sections_doc(defs, kinds)) == 0);
    }
}

/// The merged, validated, queryable state: its definitions keyed by unique
/// id in insertion order, and the global options.
pub struct State {
    netdefs: Vec<Netdef>,
    version: i64,
    renderer: Option<Vec<char>>,
}

impl View for State {
    type V = StateV;

    closed spec fn view(&self) -> StateV {
        StateV {
            defs: defs_view(self.netdefs@),
            version: self.version as int,
            renderer: match self.renderer {
                Some(r) => Some(r@),
                None => None,
            },
        }
    }
}

impl State {
    /// Well-formedness: ids are unique across all definitions and every
    /// definition is bounded and sectioned.
    pub open spec fn wf(&self) -> bool {
        unique_ids(self@.defs) && defs_wf(self@.defs, 2400000)
    }

    /// A fresh, empty state with the default schema version.
    pub fn new() -> (r: State)
        ensures
            r@.defs.len() == 0,
            r@.version == 2,
            r@.renderer is None,
            r.wf(),
    {
        let r = State { netdefs: Vec::new(), version: 2, renderer: None };
        proof {
            assert(defs_view(r.netdefs@) =~= Seq::<NetdefV>::empty());
        }
        r
    }

    /// Folds a parser's results into the state: later definitions merge
    /// property by property into earlier ones with the same id, a kind
    /// conflict or any validation failure aborts with a validation-domain
    /// error, and on error the state is left exactly as it was.
    #[verifier::loop_isolation(false)]
    pub fn import_parser_state(&mut self, parser: Parser) -> (r: NetplanResult<()>)
        requires
            old(self).wf(),
            parser.wf(),
        ensures
            final(self).wf(),
            (match import_outcome(old(self)@, parser@) {
                Ok(sv) => r is Ok && final(self)@ == sv,
                Err(m) => final(self)@ == old(self)@ && (match r {
                    Ok(_) => false,
                    Err(e) => e matches NetplanErrorDomains::NetplanValidationError(em) && em@
                        == m,
                }),
            }),
    {
        let ghost pv = parser@;
        let (mut defs, mut overrides, ver, ren) = parser.into_parts();
        let ghost dv = defs_view(defs@);
        let ghost ov = defs_view(overrides@);
        defs.append(&mut overrides);
        proof {
            assert(defs_view(defs@) =~= pv.defs + pv.overrides);
        }
        let ghost whole = defs_view(defs@);
        let ghost acc0 = defs_view(self.netdefs@);
        let mut acc: Vec<Netdef> = clone_defs(&self.netdefs);
        proof {
            assert(whole.skip(0) =~= whole);
        }
        let mut i: usize = 0;
        while i < defs.len()
            invariant
                0 <= i <= defs@.len(),
                whole == defs_view(defs@),
                merge_defs(acc0, whole) == merge_defs(defs_view(acc@), whole.skip(i as int)),
            decreases defs@.len() - i,
        {
            proof {
                assert(whole.skip(i as int)[0] == whole[i as int]);
                assert(whole.skip(i as int).skip(1) =~= whole.skip(i + 1 as int));
                assert(whole[i as int] == defs@[i as int]@);
            }
            let ghost accv = defs_view(acc@);
            let d = &defs[i];
            match find_def(&acc, &d.id) {
                Some(j) => {
                    proof {
                        lemma_def_index(accv, d.id@);
                        assert(accv[j as int] == acc@[j as int]@);
                    }
                    if !(acc[j].kind == d.kind) {
                        return Err(
                            NetplanErrorDomains::NetplanValidationError(
                                make_kind_mismatch_msg(&d.id),
                            ),
                        );
                    }
                    let merged = crate::value::merge_value(&acc[j].properties, &d.properties);
                    let slot = &mut acc[j];
                    slot.properties = merged;
                    proof {
                        assert(defs_view(acc@) =~= accv.update(
                            j as int,
                            NetdefV {
                                id: d.id@,
                                kind: d@.kind,
                                props: merge_node(accv[j as int].props, d@.props),
                            },
                        ));
                    }
                },
                None => {
                    acc.push(clone_netdef(d));
                    proof {
                        assert(defs_view(acc@) =~= accv.push(d@));
                    }
                },
            }
            i = i + 1;
        }
        proof {
            assert(whole.skip(defs@.len() as int) =~= Seq::<NetdefV>::empty());
        }
        match validate_defs_x(&acc) {
            Some(m) => Err(NetplanErrorDomains::NetplanValidationError(chars_to_string(&m))),
            None => {
                proof {
                    assert(defs_wf(pv.defs + pv.overrides, 2400000)) by {
                        assert forall|q: int| 0 <= q < whole.len() implies {
                            &&& (#[trigger] whole[q]).props is Mapping
                            &&& node_depth(whole[q].props) <= 2400000
                            &&& kind_has_section(whole[q].kind)
                        } by {
                            if q < pv.defs.len() {
                                assert(whole[q] == pv.defs[q]);
                            } else {
                                assert(whole[q] == pv.overrides[q - pv.defs.len()]);
                            }
                        }
                    }
                    lemma_merge_defs_wf(acc0, whole, 2400000);
                }
                self.netdefs = acc;
                match ver {
                    Some(vv) => {
                        self.version = vv;
                    },
                    None => {},
                }
                match ren {
                    Some(rr) => {
                        self.renderer = Some(rr);
                    },
                    None => {},
                }
                Ok(())
            },
        }
    }

    /// A state built by importing one parser's results into a fresh state.
    pub fn try_from(parser: Parser) -> (r: Result<State, NetplanErrorDomains>)
        requires
            parser.wf(),
        ensures
            ({
                let fresh = StateV { defs: Seq::empty(), version: 2, renderer: None };
                match import_outcome(fresh, parser@) {
                    Ok(sv) => r matches Ok(st) && st@ == sv && st.wf(),
                    Err(m) => (match r {
                        Ok(_) => false,
                        Err(e) => e matches NetplanErrorDomains::NetplanValidationError(em)
                            && em@ == m,
                    }),
                }
            }),
    {
        let mut st = State::new();
        proof {
            assert(st@.defs =~= Seq::<NetdefV>::empty());
        }
        match st.import_parser_state(parser) {
            Ok(_) => Ok(st),
            Err(e) => Err(e),
        }
    }

    /// The definitions of the state, in its iteration order; a fresh list
    /// each call, so iteration restarts from the top.
    pub fn netdefs(&self) -> (r: Vec<Netdef>)
        ensures
            defs_view(r@) == self@.defs,
    {
        clone_defs(&self.netdefs)
    }
}

/// Entries whose values are all scalars sit at depth zero.
pub proof fn lemma_scalar_entries_depth(es: Seq<(Seq<char>, Node)>)
    requires
        forall|i: int| 0 <= i < es.len() ==> node_depth((#[trigger] es[i]).1) == 0,
    ensures
        entries_depth(es) == 0,
    decreases es.len(),
{
    if es.len() > 0 {
        assert forall|i: int| 0 <= i < es.skip(1).len() implies node_depth(
            (#[trigger] es.skip(1)[i]).1,
        ) == 0 by {
            assert(es.skip(1)[i] == es[i + 1]);
        }
        lemma_scalar_entries_depth(es.skip(1));
    }
}

/// The depth of concatenated entries is the larger of the parts.
pub proof fn lemma_entries_depth_concat(a: Seq<(Seq<char>, Node)>, b: Seq<(Seq<char>, Node)>)
    ensures
        entries_depth(a + b) == nat_max(entries_depth(a), entries_depth(b)),
    decreases a.len(),
{
    if a.len() == 0 {
        assert(a + b =~= b);
    } else {
        assert((a + b)[0] == a[0]);
        assert((a + b).skip(1) =~= a.skip(1) + b);
        lemma_entries_depth_concat(a.skip(1), b);
    }
}

/// One kind's section entries, as fresh values.
#[verifier::loop_isolation(false)]
fn build_section(defs: &Vec<Netdef>, kind: NetdefType) -> (r: Vec<(Vec<char>, Value)>)
    ensures
        entries_view(r@) == section_entries(defs_view(defs@), kind),
{
    let ghost dv = defs_view(defs@);
    proof {
        assert(dv.skip(0) =~= dv);
    }
    let mut out: Vec<(Vec<char>, Value)> = Vec::new();
    let mut i: usize = 0;
    while i < defs.len()
        invariant
            0 <= i <= defs@.len(),
            entries_view(out@) + section_entries(dv.skip(i as int), kind) == section_entries(
                dv,
                kind,
            ),
        decreases defs@.len() - i,
    {
        proof {
            assert(dv.skip(i as int)[0] == dv[i as int]);
            assert(dv.skip(i as int).skip(1) =~= dv.skip(i + 1 as int));
            assert(dv[i as int] == defs@[i as int]@);
        }
        let ghost before = entries_view(out@);
        let d = &defs[i];
        if d.kind == kind {
            let idc = str_to_chars(d.id.as_str());
            let pc = crate::value::deep_clone(&d.properties);
            out.push((idc, pc));
            proof {
                assert(entries_view(out@) =~= before + seq![(d.id@, d@.props)]);
                assert((before + seq![(d.id@, d@.props)]) + section_entries(
                    dv.skip(i + 1 as int),
                    kind,
                ) =~= before + (seq![(d.id@, d@.props)] + section_entries(
                    dv.skip(i + 1 as int),
                    kind,
                )));
            }
        }
        i = i + 1;
    }
    proof {
        assert(dv.skip(defs@.len() as int) =~= Seq::<NetdefV>::empty());
        assert(section_entries(Seq::<NetdefV>::empty(), kind) =~= Seq::<(Seq<char>, Node)>::empty());
        assert(entries_view(out@) + Seq::<(Seq<char>, Node)>::empty() =~= entries_view(out@));
    }
    out
}

impl State {
    /// The root mapping of the canonical dump, as a fresh value tree.
    #[verifier::loop_isolation(false)]
    fn build_root(&self) -> (r: Vec<(Vec<char>, Value)>)
        requires
            self.wf(),
        ensures
            entries_view(r@) == state_root(self@),
    {
        let ghost sv = self@;
        let mut body: Vec<(Vec<char>, Value)> = Vec::new();
        body.push((str_to_chars("version"), Value::Int(self.version)));
        match &self.renderer {
            Some(rr) => {
                body.push((str_to_chars("renderer"), Value::Str(crate::value::clone_chars(rr))));
            },
            None => {},
        }
        let ghost base = entries_view(body@);
        proof {
            assert(base =~= seq![("version"@, Node::Int(sv.version))] + (match sv.renderer {
                Some(r) => seq![("renderer"@, Node::Str(r))],
                None => Seq::<(Seq<char>, Node)>::empty(),
            }));
            lemma_scalar_entries_depth(base);
        }
        let kinds: Vec<NetdefType> = vec![
            NetdefType::Ethernet,
            NetdefType::Wifi,
            NetdefType::Modem,
            NetdefType::Bridge,
            NetdefType::Bond,
            NetdefType::Vlan,
            NetdefType::Tunnel,
            NetdefType::Vrf,
            NetdefType::Nm,
            NetdefType::Dummy,
            NetdefType::Veth,
        ];
        proof {
            assert(kinds@ =~= kinds_order());
        }
        let mut k: usize = 0;
        proof {
            assert(kinds_order().skip(0) =~= kinds_order());
        }
        while k < kinds.len()
            invariant
                0 <= k <= kinds@.len(),
                entries_view(body@) + sections_doc(sv.defs, kinds_order().skip(k as int)) == base
                    + sections_doc(sv.defs, kinds_order()),
            decreases kinds@.len() - k,
        {
            proof {
                assert(kinds_order().skip(k as int)[0] == kinds_order()[k as int]);
                assert(kinds_order().skip(k as int).skip(1) =~= kinds_order().skip(k + 1 as int));
                assert(kinds@[k as int] == kinds_order()[k as int]);
            }
            let ghost before = entries_view(body@);
            let kind = kinds[k];
            let se = build_section(&self.netdefs, kind);
            if se.len() > 0 {
                let sname = section_of_kind(kind);
                let ghost sev = entries_view(se@);
                proof {
                    lemma_entries_view(se);
                }
                body.push((sname, Value::Mapping(se)));
                proof {
                    assert(entries_view(body@) =~= before + seq![
                        (spec_section_of_kind(kinds_order()[k as int]), Node::Mapping(sev)),
                    ]);
                    assert((before + seq![
                        (spec_section_of_kind(kinds_order()[k as int]), Node::Mapping(sev)),
                    ]) + sections_doc(sv.defs, kinds_order().skip(k + 1 as int)) =~= before + (seq![
                        (spec_section_of_kind(kinds_order()[k as int]), Node::Mapping(sev)),
                    ] + sections_doc(sv.defs, kinds_order().skip(k + 1 as int))));
                }
            }
            k = k + 1;
        }
        proof {
            assert(kinds_order().skip(kinds@.len() as int) =~= Seq::<NetdefType>::empty());
            assert(sections_doc(sv.defs, Seq::<NetdefType>::empty()) =~= Seq::<
                (Seq<char>, Node),
            >::empty());
            assert(entries_view(body@) + Seq::<(Seq<char>, Node)>::empty() =~= entries_view(
                body@,
            ));
            assert(entries_view(body@) =~= state_body(sv));
            lemma_sections_doc_depth(sv.defs, kinds_order(), 2400000);
            lemma_entries_depth_concat(base + (match sv.renderer {
                Some(r) => seq![("renderer"@, Node::Str(r))],
                None => Seq::<(Seq<char>, Node)>::empty(),
            }), sections_doc(sv.defs, kinds_order()));
            lemma_entries_depth_concat(base, sections_doc(sv.defs, kinds_order()));
            assert(entries_depth(state_body(sv)) <= 2400001);
        }
        let mut root: Vec<(Vec<char>, Value)> = Vec::new();
        proof {
            lemma_entries_view(body);
        }
        root.push((str_to_chars("network"), Value::Mapping(body)));
        proof {
            assert(entries_view(root@) =~= state_root(sv));
            assert(entries_depth(state_root(sv)) <= 2400002) by {
                assert(state_root(sv)[0].1 == Node::Mapping(state_body(sv)));
                assert(state_root(sv).skip(1) =~= Seq::<(Seq<char>, Node)>::empty());
                assert(entries_depth(Seq::<(Seq<char>, Node)>::empty()) == 0);
                assert(node_depth(Node::Mapping(state_body(sv))) == 1 + entries_depth(
                    state_body(sv),
                ));
            }
        }
        root
    }

    /// The canonical dump: the on-disk YAML shape, always including the
    /// schema version, definitions grouped under their kind section in
    /// canonical section order.
    pub fn dump_yaml(&self) -> (r: NetplanResult<String>)
        requires
            self.wf(),
        ensures
            r is Ok,
            (match r {
                Ok(s) => s@ == dump_chars(self@),
                Err(_) => false,
            }),
    {
        let ghost sv = self@;
        let root = self.build_root();
        proof {
            lemma_sections_doc_depth(sv.defs, kinds_order(), 2400000);
            lemma_entries_depth_concat(seq![("version"@, Node::Int(sv.version))] + (
            match sv.renderer {
                Some(r2) => seq![("renderer"@, Node::Str(r2))],
                None => Seq::<(Seq<char>, Node)>::empty(),
            }), sections_doc(sv.defs, kinds_order()));
            assert(entries_depth(seq![("version"@, Node::Int(sv.version))] + (
            match sv.renderer {
                Some(r2) => seq![("renderer"@, Node::Str(r2))],
                None => Seq::<(Seq<char>, Node)>::empty(),
            })) == 0) by {
                lemma_scalar_entries_depth(seq![("version"@, Node::Int(sv.version))] + (
                match sv.renderer {
                    Some(r2) => seq![("renderer"@, Node::Str(r2))],
                    None => Seq::<(Seq<char>, Node)>::empty(),
                }));
            }
            assert(entries_depth(state_body(sv)) <= 2400001);
            assert(entries_depth(state_root(sv)) <= 2400002) by {
                assert(state_root(sv)[0].1 == Node::Mapping(state_body(sv)));
                assert(state_root(sv).skip(1) =~= Seq::<(Seq<char>, Node)>::empty());
                assert(entries_depth(Seq::<(Seq<char>, Node)>::empty()) == 0);
                assert(node_depth(Node::Mapping(state_body(sv))) == 1 + entries_depth(
                    state_body(sv),
                ));
            }
        }
        let mut out: Vec<char> = Vec::new();
        emit_entries_exec(&root, 0, &mut out);
        Ok(chars_to_string(&out))
    }
}

/// The index of the first dot at or after `i`, or the key's length.
pub open spec fn dot_end(s: Seq<char>, i: int) -> int
    decreases s.len() - i,
{
    if i < 0 || i >= s.len() || s[i] == '.' {
        i
    } else {
        dot_end(s, i + 1)
    }
}

pub proof fn lemma_dot_end(s: Seq<char>, i: int)
    requires
        0 <= i <= s.len(),
    ensures
        i <= dot_end(s, i) <= s.len(),
    decreases s.len() - i,
{
    if i < s.len() && s[i] != '.' {
        lemma_dot_end(s, i + 1);
    }
}

/// The dot-separated components of a key, from position `i`.
pub open spec fn split_dots_from(s: Seq<char>, i: int) -> Seq<Seq<char>>
    decreases s.len() - i,
    via split_dots_from_decreases
{
    if i < 0 || i > s.len() {
        Seq::empty()
    } else {
        let e = dot_end(s, i);
        let comp = s.subrange(i, e);
        if e >= s.len() {
            seq![comp]
        } else {
            seq![comp] + split_dots_from(s, e + 1)
        }
    }
}

#[via_fn]
proof fn split_dots_from_decreases(s: Seq<char>, i: int) {
    if 0 <= i <= s.len() {
        lemma_dot_end(s, i);
    }
}

/// A key has no more components than characters, plus one.
pub proof fn lemma_split_dots_count(s: Seq<char>, i: int)
    requires
        0 <= i <= s.len(),
    ensures
        split_dots_from(s, i).len() <= s.len() - i + 1,
    decreases s.len() - i,
{
    let e = dot_end(s, i);
    lemma_dot_end(s, i);
    if e < s.len() {
        lemma_split_dots_count(s, e + 1);
    }
}

/// The dotted path a subtree key addresses, implicitly rooted at the
/// namespace key when its first component is not that literal.
pub open spec fn subtree_path(key: Seq<char>) -> Seq<Seq<char>> {
    let cs = split_dots_from(key, 0);
    if cs.len() > 0 && cs[0] == "network"@ {
        cs
    } else {
        seq!["network"@] + cs
    }
}

/// The node a path addresses in a tree, when every component leads through
/// a mapping.
pub open spec fn lookup_path(n: Node, p: Seq<Seq<char>>, i: int) -> Option<Node>
    decreases p.len() - i,
{
    if i < 0 || i >= p.len() {
        Some(n)
    } else {
        match n {
            Node::Mapping(es) => if map_has_key(es, p[i]) {
                lookup_path(map_get(es, p[i]), p, i + 1)
            } else {
                None
            },
            _ => None,
        }
    }
}

/// A looked-up node is no deeper than the tree it was found in.
pub proof fn lemma_lookup_depth(n: Node, p: Seq<Seq<char>>, i: int)
    requires
        lookup_path(n, p, i) is Some,
    ensures
        node_depth(lookup_path(n, p, i)->Some_0) <= node_depth(n),
    decreases p.len() - i,
{
    if 0 <= i < p.len() {
        match n {
            Node::Mapping(es) => {
                lemma_key_index(es, p[i]);
                lemma_entries_depth_index(es, key_index(es, p[i]));
                lemma_lookup_depth(map_get(es, p[i]), p, i + 1);
            },
            _ => {},
        }
    }
}

/// The chain of one-entry mappings that wraps a node under a path suffix.
pub open spec fn wrap_path(p: Seq<Seq<char>>, i: int, n: Node) -> Node
    decreases p.len() - i,
{
    if i < 0 || i >= p.len() {
        n
    } else {
        Node::Mapping(seq![(p[i], wrap_path(p, i + 1, n))])
    }
}

/// Wrapping adds at most one level per remaining component.
pub proof fn lemma_wrap_depth(p: Seq<Seq<char>>, i: int, n: Node)
    requires
        0 <= i <= p.len(),
    ensures
        node_depth(wrap_path(p, i, n)) <= node_depth(n) + (p.len() - i),
    decreases p.len() - i,
{
    if i < p.len() {
        lemma_wrap_depth(p, i + 1, n);
        let w = wrap_path(p, i + 1, n);
        let es = seq![(p[i], w)];
        assert(es[0] == (p[i], w));
        assert(es.skip(1) =~= Seq::<(Seq<char>, Node)>::empty());
        assert(entries_depth(Seq::<(Seq<char>, Node)>::empty()) == 0);
    }
}

/// The subtree dump of a state at a dotted key: the addressed node, still
/// wrapped under the whole path down from the root namespace key; `None`
/// when the path leads nowhere.
pub open spec fn subtree_chars(sv: StateV, key: Seq<char>) -> Option<Seq<char>> {
    let p = subtree_path(key);
    match lookup_path(Node::Mapping(state_root(sv)), p, 0) {
        None => None,
        Some(n) => Some(emit_entries(seq![(p[0], wrap_path(p, 1, n))], 0)),
    }
}

/// The dot-separated components of a key.
#[verifier::loop_isolation(false)]
pub fn split_dots_exec(key: &Vec<char>) -> (r: Vec<Vec<char>>)
    requires
        key@.len() < usize::MAX - 1,
    ensures
        path_view2(r@) == split_dots_from(key@, 0),
{
    let mut out: Vec<Vec<char>> = Vec::new();
    let mut i: usize = 0;
    loop
        invariant
            0 <= i <= key@.len() + 1,
            i <= key@.len() ==> split_dots_from(key@, 0) == path_view2(out@) + split_dots_from(
                key@,
                i as int,
            ),
            i > key@.len() ==> split_dots_from(key@, 0) == path_view2(out@),
            i <= key@.len(),
        decreases key@.len() + 1 - i,
    {
        proof {
            lemma_dot_end(key@, i as int);
        }
        let mut e: usize = i;
        while e < key.len() && key[e] != '.'
            invariant
                i <= e <= key@.len(),
                dot_end(key@, i as int) == dot_end(key@, e as int),
            decreases key@.len() - e,
        {
            e = e + 1;
        }
        proof {
            assert(dot_end(key@, e as int) == e);
        }
        let comp = crate::parse::subrange_chars(key, i, e);
        out.push(comp);
        proof {
            assert(path_view2(out@) =~= path_view2(out@.drop_last()) + seq![
                key@.subrange(i as int, e as int),
            ]);
            if e < key@.len() {
                assert(split_dots_from(key@, 0) =~= path_view2(out@) + split_dots_from(
                    key@,
                    e + 1 as int,
                ));
            } else {
                assert(split_dots_from(key@, 0) =~= path_view2(out@));
            }
        }
        if e >= key.len() {
            return out;
        }
        i = e + 1;
    }
}

/// The views of a component list.
pub open spec fn path_view2(s: Seq<Vec<char>>) -> Seq<Seq<char>> {
    crate::value::path_view(s)
}

impl State {
    /// The canonical dump restricted to one dotted key: only the addressed
    /// subtree, still wrapped under the root namespace key; equivalent keys
    /// with and without the leading namespace component address the same
    /// subtree. A key that leads nowhere is a file-domain error, as is one
    /// beyond the size cap.
    #[verifier::loop_isolation(false)]
    pub fn dump_yaml_subtree(&self, subtree: &str) -> (r: NetplanResult<String>)
        requires
            self.wf(),
        ensures
            (if subtree@.len() > 1000000 {
                r matches Err(e) && (e matches NetplanErrorDomains::NetplanFileError(m) && m@
                    == "data is too big"@)
            } else {
                match subtree_chars(self@, subtree@) {
                    Some(cs) => r matches Ok(s) && s@ == cs,
                    None => r matches Err(e) && (e
                        matches NetplanErrorDomains::NetplanFileError(m) && m@
                        == "subtree not found"@),
                }
            }),
    {
        let ghost sv = self@;
        let key = str_to_chars(subtree);
        if key.len() > 1000000 {
            return Err(NetplanErrorDomains::NetplanFileError("data is too big".to_owned()));
        }
        let mut path = split_dots_exec(&key);
        let nk = str_to_chars("network");
        let first_is_net = path.len() > 0 && crate::chars::chars_eq(&path[0], &nk);
        if !first_is_net {
            path.insert(0, nk);
        }
        let ghost pv = subtree_path(key@);
        proof {
            assert(path_view2(path@) =~= pv);
            lemma_split_dots_count(key@, 0);
        }
        let root = self.build_root();
        proof {
            crate::value::lemma_entries_view(root);
        }
        let rootv = Value::Mapping(root);
        let ghost rootn = Node::Mapping(state_root(sv));
        let mut cur: &Value = &rootv;
        let mut i: usize = 0;
        while i < path.len()
            invariant
                0 <= i <= path@.len(),
                lookup_path(rootn, pv, 0) == lookup_path(cur@, pv, i as int),
            decreases path@.len() - i,
        {
            proof {
                lemma_view_variant(*cur);
                assert(pv[i as int] == path@[i as int]@);
            }
            match cur {
                Value::Mapping(es) => {
                    proof {
                        lemma_entries_view(*es);
                        assert(*cur == Value::Mapping(*es));
                        lemma_key_index(entries_view(es@), pv[i as int]);
                    }
                    match crate::value::find_key(es, &path[i]) {
                        Some(j) => {
                            proof {
                                assert(entries_view(es@)[j as int] == (es@[j as int].0@, es@[
                                    j as int].1@));
                            }
                            cur = &es[j].1;
                        },
                        None => {
                            return Err(
                                NetplanErrorDomains::NetplanFileError(
                                    "subtree not found".to_owned(),
                                ),
                            );
                        },
                    }
                },
                _ => {
                    return Err(
                        NetplanErrorDomains::NetplanFileError("subtree not found".to_owned()),
                    );
                },
            }
            i = i + 1;
        }
        let ghost foundn = cur@;
        let mut w = crate::value::deep_clone(cur);
        let mut t: usize = path.len();
        while t > 1
            invariant
                1 <= t <= path@.len(),
                w@ == wrap_path(pv, t as int, foundn),
            decreases t,
        {
            t = t - 1;
            proof {
                assert(pv[t as int] == path@[t as int]@);
            }
            let kc = crate::value::clone_chars(&path[t]);
            let mut entry: Vec<(Vec<char>, Value)> = Vec::new();
            entry.push((kc, w));
            proof {
                crate::value::lemma_entries_view(entry);
                assert(entries_view(entry@) =~= seq![(pv[t as int], wrap_path(pv, t + 1, foundn))]);
            }
            w = Value::Mapping(entry);
        }
        proof {
            assert(w@ == wrap_path(pv, 1, foundn));
            lemma_lookup_depth(rootn, pv, 0);
            lemma_wrap_depth(pv, 1, foundn);
            lemma_sections_doc_depth(sv.defs, kinds_order(), 2400000);
        }
        let mut outer: Vec<(Vec<char>, Value)> = Vec::new();
        let k0 = crate::value::clone_chars(&path[0]);
        outer.push((k0, w));
        proof {
            assert(pv[0] == path@[0]@);
            assert(entries_view(outer@) =~= seq![(pv[0], wrap_path(pv, 1, foundn))]);
            assert(entries_depth(entries_view(outer@)) <= node_depth(wrap_path(pv, 1, foundn)))
                by {
                assert(entries_view(outer@)[0].1 == wrap_path(pv, 1, foundn));
                assert(entries_view(outer@).skip(1) =~= Seq::<(Seq<char>, Node)>::empty());
                assert(entries_depth(Seq::<(Seq<char>, Node)>::empty()) == 0);
            }
            let base2 = seq![("version"@, Node::Int(sv.version))] + (match sv.renderer {
                Some(r2) => seq![("renderer"@, Node::Str(r2))],
                None => Seq::<(Seq<char>, Node)>::empty(),
            });
            lemma_scalar_entries_depth(base2);
            lemma_entries_depth_concat(base2, sections_doc(sv.defs, kinds_order()));
            assert(entries_depth(state_body(sv)) <= 2400001);
            assert(node_depth(rootn) <= 2400003) by {
                assert(state_root(sv)[0].1 == Node::Mapping(state_body(sv)));
                assert(state_root(sv).skip(1) =~= Seq::<(Seq<char>, Node)>::empty());
                assert(entries_depth(Seq::<(Seq<char>, Node)>::empty()) == 0);
                assert(node_depth(Node::Mapping(state_body(sv))) == 1 + entries_depth(
                    state_body(sv),
                ));
            }
        }
        let mut out: Vec<char> = Vec::new();
        emit_entries_exec(&outer, 0, &mut out);
        Ok(chars_to_string(&out))
    }
}

} // verus!
