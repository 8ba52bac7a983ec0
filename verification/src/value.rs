//! The generic document tree: scalars, lists and ordered mappings, as one
//! YAML-like value type, together with its mathematical view and the merge
//! and point-deletion operations the engine is built on.

use vstd::prelude::*;

verus! {

/// One node of a parsed document: a scalar, a list, or an ordered mapping
/// from keys to nested values. Mappings keep insertion order; merge and
/// override semantics depend on it.
pub enum Value {
    Null,
    Bool(bool),
    Int(i64),
    Str(Vec<char>),
    List(Vec<Value>),
    Mapping(Vec<(Vec<char>, Value)>),
}

/// The mathematical view of a `Value`: the same tree over `Seq` and `int`.
#[verifier::ext_equal]
pub enum Node {
    Null,
    Bool(bool),
    Int(int),
    Str(Seq<char>),
    List(Seq<Node>),
    Mapping(Seq<(Seq<char>, Node)>),
}

impl Value {
    /// The view of this value as a mathematical tree.
    pub open spec fn view(self) -> Node
        decreases self,
    {
        match self {
            Value::Null => Node::Null,
            Value::Bool(b) => Node::Bool(b),
            Value::Int(i) => Node::Int(i as int),
            Value::Str(s) => Node::Str(s@),
            Value::List(items) => Node::List(
                Seq::new(
                    items@.len(),
                    |i: int|
                        if 0 <= i < items@.len() {
                            items[i].view()
                        } else {
                            Node::Null
                        },
                ),
            ),
            Value::Mapping(entries) => Node::Mapping(
                Seq::new(
                    entries@.len(),
                    |i: int|
                        if 0 <= i < entries@.len() {
                            (entries[i].0@, entries[i].1.view())
                        } else {
                            (Seq::<char>::empty(), Node::Null)
                        },
                ),
            ),
        }
    }
}

/// The views of a sequence of list elements.
pub open spec fn list_view(items: Seq<Value>) -> Seq<Node> {
    Seq::new(
        items.len(),
        |i: int|
            if 0 <= i < items.len() {
                items[i]@
            } else {
                Node::Null
            },
    )
}

/// The views of a sequence of mapping entries.
pub open spec fn entries_view(es: Seq<(Vec<char>, Value)>) -> Seq<(Seq<char>, Node)> {
    Seq::new(
        es.len(),
        |i: int|
            if 0 <= i < es.len() {
                (es[i].0@, es[i].1@)
            } else {
                (Seq::<char>::empty(), Node::Null)
            },
    )
}

pub broadcast proof fn lemma_list_view(items: Vec<Value>)
    ensures
        #[trigger] Value::List(items)@ == Node::List(list_view(items@)),
{
    let n1 = Value::List(items)@;
    let s1 = n1->List_0;
    let s2 = list_view(items@);
    assert(s1.len() == s2.len());
    assert forall|i: int| 0 <= i < s1.len() implies s1[i] == s2[i] by {
        assert(s1[i] == items[i]@);
        assert(s2[i] == items@[i]@);
    }
    assert(s1 =~= s2);
}

pub broadcast proof fn lemma_entries_view(entries: Vec<(Vec<char>, Value)>)
    ensures
        #[trigger] Value::Mapping(entries)@ == Node::Mapping(entries_view(entries@)),
{
    let n1 = Value::Mapping(entries)@;
    let s1 = n1->Mapping_0;
    let s2 = entries_view(entries@);
    assert(s1.len() == s2.len());
    assert forall|i: int| 0 <= i < s1.len() implies s1[i] == s2[i] by {
        assert(s1[i] == (entries[i].0@, entries[i].1@));
        assert(s2[i] == (entries@[i].0@, entries@[i].1@));
    }
    assert(s1 =~= s2);
}

/// The index of the first entry whose key is `k`, or the length of the
/// sequence when no entry has that key.
pub open spec fn key_index(es: Seq<(Seq<char>, Node)>, k: Seq<char>) -> int
    decreases es.len(),
{
    if es.len() == 0 {
        0
    } else if es[0].0 == k {
        0
    } else {
        1 + key_index(es.skip(1), k)
    }
}

/// Whether the mapping entries contain the key `k`.
pub open spec fn map_has_key(es: Seq<(Seq<char>, Node)>, k: Seq<char>) -> bool {
    key_index(es, k) < es.len()
}

/// The value of the first entry keyed `k`.
pub open spec fn map_get(es: Seq<(Seq<char>, Node)>, k: Seq<char>) -> Node {
    es[key_index(es, k)].1
}

/// `key_index` points at the first entry with the given key: every entry
/// before it has another key, and the entry there (when in range) has key
/// `k`.
pub proof fn lemma_key_index(es: Seq<(Seq<char>, Node)>, k: Seq<char>)
    ensures
        0 <= key_index(es, k) <= es.len(),
        key_index(es, k) < es.len() ==> es[key_index(es, k)].0 == k,
        forall|j: int| 0 <= j < key_index(es, k) ==> es[j].0 != k,
    decreases es.len(),
{
    if es.len() == 0 {
    } else if es[0].0 == k {
    } else {
        lemma_key_index(es.skip(1), k);
        assert forall|j: int| 0 <= j < key_index(es, k) implies es[j].0 != k by {
            if j > 0 {
                assert(es.skip(1)[j - 1] == es[j]);
            }
        }
    }
}

/// Merging one entry into mapping entries: a new key is appended, an
/// existing key has the new value merged over its old one.
pub open spec fn merge_one(ea: Seq<(Seq<char>, Node)>, k: Seq<char>, v: Node) -> Seq<
    (Seq<char>, Node),
>
    decreases v, 1int,
{
    if map_has_key(ea, k) {
        ea.update(key_index(ea, k), (k, merge_node(map_get(ea, k), v)))
    } else {
        ea.push((k, v))
    }
}

/// Folding the entries of a later mapping over those of an earlier one, in
/// order.
pub open spec fn merge_entries(
    ea: Seq<(Seq<char>, Node)>,
    eb: Seq<(Seq<char>, Node)>,
) -> Seq<(Seq<char>, Node)>
    decreases eb, 2int,
{
    if eb.len() == 0 {
        ea
    } else {
        merge_entries(merge_one(ea, eb[0].0, eb[0].1), eb.skip(1))
    }
}

/// The merge of a later value `b` over an earlier value `a`: two mappings
/// merge key by key, recursively; any other later value replaces the earlier
/// one wholesale.
pub open spec fn merge_node(a: Node, b: Node) -> Node
    decreases b, 0int,
{
    match b {
        Node::Mapping(eb) => match a {
            Node::Mapping(ea) => Node::Mapping(merge_entries(ea, eb)),
            _ => b,
        },
        _ => b,
    }
}

/// A value and its view sit in the same variant.
pub proof fn lemma_view_variant(v: Value)
    ensures
        v@ is Null <==> v is Null,
        v@ is Bool <==> v is Bool,
        v@ is Int <==> v is Int,
        v@ is Str <==> v is Str,
        v@ is List <==> v is List,
        v@ is Mapping <==> v is Mapping,
{
    match v {
        Value::Null => {},
        Value::Bool(_) => {},
        Value::Int(_) => {},
        Value::Str(_) => {},
        Value::List(_) => {},
        Value::Mapping(_) => {},
    }
}

/// Folding a mapping extended by one entry equals folding the mapping and
/// then merging that entry.
pub proof fn lemma_merge_entries_snoc(
    ea: Seq<(Seq<char>, Node)>,
    eb: Seq<(Seq<char>, Node)>,
    k: Seq<char>,
    v: Node,
)
    ensures
        merge_entries(ea, eb.push((k, v))) == merge_one(merge_entries(ea, eb), k, v),
    decreases eb.len(),
{
    if eb.len() == 0 {
        let y = merge_one(ea, k, v);
        assert(eb.push((k, v))[0] == (k, v));
        assert(eb.push((k, v)).skip(1) =~= eb);
        assert(merge_entries(ea, eb.push((k, v))) == merge_entries(y, eb.push((k, v)).skip(1)));
        assert(merge_entries(y, eb) == y);
        assert(merge_entries(ea, eb) == ea);
    } else {
        let y0 = merge_one(ea, eb[0].0, eb[0].1);
        assert(eb.push((k, v))[0] == eb[0]);
        assert(eb.push((k, v)).skip(1) =~= eb.skip(1).push((k, v)));
        assert(merge_entries(ea, eb.push((k, v))) == merge_entries(y0, eb.skip(1).push((k, v))));
        lemma_merge_entries_snoc(y0, eb.skip(1), k, v);
        assert(merge_entries(ea, eb) == merge_entries(y0, eb.skip(1)));
    }
}

/// Mapping entries without the first entry keyed `k`; unchanged when the key
/// is absent.
pub open spec fn remove_key(es: Seq<(Seq<char>, Node)>, k: Seq<char>) -> Seq<(Seq<char>, Node)> {
    if map_has_key(es, k) {
        es.remove(key_index(es, k))
    } else {
        es
    }
}

/// Removal of the key addressed by `path[i..]` from the tree, with a flag
/// saying whether anything was removed: the leaf key is removed from its
/// mapping; an inner mapping left empty by the removal is removed from its
/// own parent in turn. A path that leads nowhere leaves the tree unchanged.
pub open spec fn remove_path_from(n: Node, path: Seq<Seq<char>>, i: int) -> (Node, bool)
    decreases path.len() - i,
{
    if i < 0 || i >= path.len() {
        (n, false)
    } else {
        match n {
            Node::Mapping(es) => {
                let k = path[i];
                if !map_has_key(es, k) {
                    (n, false)
                } else if i == path.len() - 1 {
                    (Node::Mapping(remove_key(es, k)), true)
                } else {
                    let child = map_get(es, k);
                    let sub = remove_path_from(child, path, i + 1);
                    if !sub.1 {
                        (n, false)
                    } else if sub.0 == Node::Mapping(Seq::<(Seq<char>, Node)>::empty()) {
                        (Node::Mapping(remove_key(es, k)), true)
                    } else {
                        (Node::Mapping(es.update(key_index(es, k), (k, sub.0))), true)
                    }
                }
            },
            _ => (n, false),
        }
    }
}

/// The views of the components of a dotted path.
pub open spec fn path_view(path: Seq<Vec<char>>) -> Seq<Seq<char>> {
    Seq::new(
        path.len(),
        |i: int|
            if 0 <= i < path.len() {
                path[i]@
            } else {
                Seq::<char>::empty()
            },
    )
}

/// The larger of two naturals.
pub open spec fn nat_max(a: nat, b: nat) -> nat {
    if a >= b {
        a
    } else {
        b
    }
}

/// The nesting depth of a tree: scalars sit at depth zero; a list or mapping
/// is one deeper than its deepest child.
pub open spec fn node_depth(n: Node) -> nat
    decreases n, 0int,
{
    match n {
        Node::List(items) => 1 + items_depth(items),
        Node::Mapping(es) => 1 + entries_depth(es),
        _ => 0,
    }
}

/// The deepest depth among list elements.
pub open spec fn items_depth(items: Seq<Node>) -> nat
    decreases items, 2int,
{
    if items.len() == 0 {
        0
    } else {
        nat_max(node_depth(items[0]), items_depth(items.skip(1)))
    }
}

/// The deepest depth among mapping entry values.
pub open spec fn entries_depth(es: Seq<(Seq<char>, Node)>) -> nat
    decreases es, 2int,
{
    if es.len() == 0 {
        0
    } else {
        nat_max(node_depth(es[0].1), entries_depth(es.skip(1)))
    }
}

/// Every entry value is at most as deep as the deepest entry value.
pub proof fn lemma_entries_depth_index(es: Seq<(Seq<char>, Node)>, i: int)
    requires
        0 <= i < es.len(),
    ensures
        node_depth(es[i].1) <= entries_depth(es),
    decreases es.len(),
{
    if i > 0 {
        lemma_entries_depth_index(es.skip(1), i - 1);
        assert(es.skip(1)[i - 1] == es[i]);
    }
}

/// Every list element is at most as deep as the deepest element.
pub proof fn lemma_items_depth_index(items: Seq<Node>, i: int)
    requires
        0 <= i < items.len(),
    ensures
        node_depth(items[i]) <= items_depth(items),
    decreases items.len(),
{
    if i > 0 {
        lemma_items_depth_index(items.skip(1), i - 1);
        assert(items.skip(1)[i - 1] == items[i]);
    }
}

/// Replacing one entry bounds the depth by the old depth and the new value's.
pub proof fn lemma_entries_depth_update(es: Seq<(Seq<char>, Node)>, i: int, k: Seq<char>, v: Node)
    requires
        0 <= i < es.len(),
    ensures
        entries_depth(es.update(i, (k, v))) <= nat_max(entries_depth(es), node_depth(v)),
    decreases es.len(),
{
    let es2 = es.update(i, (k, v));
    if i == 0 {
        assert(es2.skip(1) =~= es.skip(1));
    } else {
        assert(es2[0] == es[0]);
        assert(es2.skip(1) =~= es.skip(1).update(i - 1, (k, v)));
        lemma_entries_depth_update(es.skip(1), i - 1, k, v);
    }
}

/// Appending one entry bounds the depth by the old depth and the new value's.
pub proof fn lemma_entries_depth_push(es: Seq<(Seq<char>, Node)>, k: Seq<char>, v: Node)
    ensures
        entries_depth(es.push((k, v))) <= nat_max(entries_depth(es), node_depth(v)),
    decreases es.len(),
{
    let es2 = es.push((k, v));
    if es.len() == 0 {
        assert(es2[0] == (k, v));
        assert(es2.skip(1) =~= Seq::<(Seq<char>, Node)>::empty());
        assert(entries_depth(Seq::<(Seq<char>, Node)>::empty()) == 0);
    } else {
        assert(es2[0] == es[0]);
        assert(es2.skip(1) =~= es.skip(1).push((k, v)));
        lemma_entries_depth_push(es.skip(1), k, v);
    }
}

/// Removing one entry never deepens a mapping.
pub proof fn lemma_entries_depth_remove(es: Seq<(Seq<char>, Node)>, i: int)
    requires
        0 <= i < es.len(),
    ensures
        entries_depth(es.remove(i)) <= entries_depth(es),
    decreases es.len(),
{
    let es2 = es.remove(i);
    if i == 0 {
        assert(es2 =~= es.skip(1));
    } else {
        assert(es2[0] == es[0]);
        assert(es2.skip(1) =~= es.skip(1).remove(i - 1));
        lemma_entries_depth_remove(es.skip(1), i - 1);
    }
}

/// A merge is no deeper than the deeper of its two sides.
pub proof fn lemma_merge_node_depth(a: Node, b: Node)
    ensures
        node_depth(merge_node(a, b)) <= nat_max(node_depth(a), node_depth(b)),
    decreases b, 0int,
{
    match b {
        Node::Mapping(eb) => match a {
            Node::Mapping(ea) => {
                lemma_merge_entries_depth(ea, eb);
            },
            _ => {},
        },
        _ => {},
    }
}

/// Folding entries over entries is no deeper than the deeper of the sides.
pub proof fn lemma_merge_entries_depth(ea: Seq<(Seq<char>, Node)>, eb: Seq<(Seq<char>, Node)>)
    ensures
        entries_depth(merge_entries(ea, eb)) <= nat_max(entries_depth(ea), entries_depth(eb)),
    decreases eb, 2int,
{
    if eb.len() == 0 {
    } else {
        let k = eb[0].0;
        let v = eb[0].1;
        lemma_entries_depth_index(eb, 0);
        let ea2 = merge_one(ea, k, v);
        if map_has_key(ea, k) {
            let i = key_index(ea, k);
            lemma_key_index(ea, k);
            lemma_entries_depth_index(ea, i);
            lemma_merge_node_depth(map_get(ea, k), v);
            lemma_entries_depth_update(ea, i, k, merge_node(map_get(ea, k), v));
        } else {
            lemma_entries_depth_push(ea, k, v);
        }
        lemma_merge_entries_depth(ea2, eb.skip(1));
        assert(entries_depth(eb.skip(1)) <= entries_depth(eb));
    }
}

/// Removing a path never deepens the tree.
pub proof fn lemma_remove_path_depth(n: Node, path: Seq<Seq<char>>, i: int)
    ensures
        node_depth(remove_path_from(n, path, i).0) <= node_depth(n),
    decreases path.len() - i,
{
    if i < 0 || i >= path.len() {
    } else {
        match n {
            Node::Mapping(es) => {
                let k = path[i];
                if !map_has_key(es, k) {
                } else {
                    let ki = key_index(es, k);
                    lemma_key_index(es, k);
                    if i == path.len() - 1 {
                        lemma_entries_depth_remove(es, ki);
                    } else {
                        let child = map_get(es, k);
                        lemma_entries_depth_index(es, ki);
                        lemma_remove_path_depth(child, path, i + 1);
                        let sub = remove_path_from(child, path, i + 1);
                        if !sub.1 {
                        } else if sub.0 == Node::Mapping(Seq::<(Seq<char>, Node)>::empty()) {
                            lemma_entries_depth_remove(es, ki);
                        } else {
                            lemma_entries_depth_update(es, ki, k, sub.0);
                        }
                    }
                }
            },
            _ => {},
        }
    }
}

/// A fresh copy of a character buffer.
pub fn clone_chars(v: &Vec<char>) -> (r: Vec<char>)
    ensures
        r@ == v@,
{
    let mut out: Vec<char> = Vec::new();
    let mut i: usize = 0;
    while i < v.len()
        invariant
            0 <= i <= v.len(),
            out@ == v@.take(i as int),
        decreases v.len() - i,
    {
        out.push(v[i]);
        proof {
            assert(out@ =~= v@.take(i + 1 as int));
        }
        i = i + 1;
    }
    proof {
        assert(out@ =~= v@);
    }
    out
}

/// A fresh copy of a value with the same view.
#[verifier::loop_isolation(false)]
pub fn deep_clone(v: &Value) -> (r: Value)
    ensures
        r@ == v@,
    decreases v,
{
    match v {
        Value::Null => Value::Null,
        Value::Bool(b) => Value::Bool(*b),
        Value::Int(i) => Value::Int(*i),
        Value::Str(s) => Value::Str(clone_chars(s)),
        Value::List(items) => {
            let mut out: Vec<Value> = Vec::new();
            let mut i: usize = 0;
            while i < items.len()
                invariant
                    0 <= i <= items.len(),
                    list_view(out@) == list_view(items@).take(i as int),
                decreases items.len() - i,
            {
                proof {
                    assert(decreases_to!(*v => v->List_0));
                    assert(v->List_0 == *items);
                    assert(decreases_to!(*items => (*items)[i as int]));
                }
                let c = deep_clone(&items[i]);
                out.push(c);
                proof {
                    assert(list_view(out@) =~= list_view(items@).take(i + 1 as int));
                }
                i = i + 1;
            }
            proof {
                assert(list_view(out@) =~= list_view(items@));
                lemma_list_view(out);
                lemma_list_view(*items);
                assert(*v == Value::List(*items));
            }
            Value::List(out)
        },
        Value::Mapping(entries) => {
            let mut out: Vec<(Vec<char>, Value)> = Vec::new();
            let mut i: usize = 0;
            while i < entries.len()
                invariant
                    0 <= i <= entries.len(),
                    entries_view(out@) == entries_view(entries@).take(i as int),
                decreases entries.len() - i,
            {
                proof {
                    assert(decreases_to!(*v => v->Mapping_0));
                    assert(v->Mapping_0 == *entries);
                    assert(decreases_to!(*entries => (*entries)[i as int]));
                    assert(decreases_to!((*entries)[i as int] => (*entries)[i as int].1));
                }
                let k = clone_chars(&entries[i].0);
                let c = deep_clone(&entries[i].1);
                out.push((k, c));
                proof {
                    assert(entries_view(out@) =~= entries_view(entries@).take(i + 1 as int));
                }
                i = i + 1;
            }
            proof {
                assert(entries_view(out@) =~= entries_view(entries@));
                lemma_entries_view(out);
                lemma_entries_view(*entries);
                assert(*v == Value::Mapping(*entries));
            }
            Value::Mapping(out)
        },
    }
}

/// The position of the first entry keyed `k`, or `None` when absent.
pub fn find_key(entries: &Vec<(Vec<char>, Value)>, k: &Vec<char>) -> (r: Option<usize>)
    ensures
        match r {
            Some(i) => i == key_index(entries_view(entries@), k@) && i < entries@.len(),
            None => !map_has_key(entries_view(entries@), k@),
        },
{
    proof {
        lemma_key_index(entries_view(entries@), k@);
    }
    let mut i: usize = 0;
    while i < entries.len()
        invariant
            0 <= i <= entries@.len(),
            forall|j: int| 0 <= j < i ==> entries_view(entries@)[j].0 != k@,
        decreases entries@.len() - i,
    {
        if crate::chars::chars_eq(&entries[i].0, k) {
            proof {
                lemma_key_index_found(entries_view(entries@), k@, i as int);
            }
            return Some(i);
        }
        i = i + 1;
    }
    proof {
        lemma_key_index(entries_view(entries@), k@);
        if map_has_key(entries_view(entries@), k@) {
            assert(entries_view(entries@)[key_index(entries_view(entries@), k@)].0 == k@);
        }
    }
    None
}

/// A fresh copy of mapping entries with the same views.
#[verifier::loop_isolation(false)]
pub fn clone_entries(entries: &Vec<(Vec<char>, Value)>) -> (r: Vec<(Vec<char>, Value)>)
    ensures
        entries_view(r@) == entries_view(entries@),
{
    let mut out: Vec<(Vec<char>, Value)> = Vec::new();
    let mut i: usize = 0;
    while i < entries.len()
        invariant
            0 <= i <= entries@.len(),
            entries_view(out@) == entries_view(entries@).take(i as int),
        decreases entries@.len() - i,
    {
        let k = clone_chars(&entries[i].0);
        let c = deep_clone(&entries[i].1);
        out.push((k, c));
        proof {
            assert(entries_view(out@) =~= entries_view(entries@).take(i + 1 as int));
        }
        i = i + 1;
    }
    proof {
        assert(entries_view(out@) =~= entries_view(entries@));
    }
    out
}

/// The merge of the later value `b` over the earlier value `a`, as a fresh
/// value: mappings merge key by key, recursively; any other later value
/// replaces the earlier one.
#[verifier::loop_isolation(false)]
pub fn merge_value(a: &Value, b: &Value) -> (r: Value)
    ensures
        r@ == merge_node(a@, b@),
    decreases b,
{
    match (a, b) {
        (Value::Mapping(ea), Value::Mapping(eb)) => {
            let mut out = clone_entries(ea);
            let mut j: usize = 0;
            while j < eb.len()
                invariant
                    0 <= j <= eb@.len(),
                    entries_view(out@) == merge_entries(
                        entries_view(ea@),
                        entries_view(eb@).take(j as int),
                    ),
                decreases eb@.len() - j,
            {
                let ghost prev = entries_view(out@);
                let ghost kj = entries_view(eb@)[j as int].0;
                let ghost vj = entries_view(eb@)[j as int].1;
                let k = &eb[j].0;
                let found = find_key(&out, k);
                match found {
                    Some(i) => {
                        proof {
                            lemma_key_index(prev, k@);
                            assert(decreases_to!(*b => b->Mapping_0));
                            assert(b->Mapping_0 == *eb);
                            assert(decreases_to!(*eb => (*eb)[j as int]));
                            assert(decreases_to!((*eb)[j as int] => (*eb)[j as int].1));
                        }
                        let merged = merge_value(&out[i].1, &eb[j].1);
                        let slot = &mut out[i];
                        slot.1 = merged;
                        proof {
                            assert(entries_view(out@) =~= merge_one(prev, kj, vj));
                        }
                    },
                    None => {
                        proof {
                            assert(decreases_to!(*b => b->Mapping_0));
                            assert(b->Mapping_0 == *eb);
                            assert(decreases_to!(*eb => (*eb)[j as int]));
                            assert(decreases_to!((*eb)[j as int] => (*eb)[j as int].1));
                        }
                        let kc = clone_chars(k);
                        let vc = deep_clone(&eb[j].1);
                        out.push((kc, vc));
                        proof {
                            assert(entries_view(out@) =~= merge_one(prev, kj, vj));
                        }
                    },
                }
                proof {
                    lemma_merge_entries_snoc(
                        entries_view(ea@),
                        entries_view(eb@).take(j as int),
                        kj,
                        vj,
                    );
                    assert(entries_view(eb@).take(j + 1 as int) =~= entries_view(eb@).take(
                        j as int,
                    ).push((kj, vj)));
                }
                j = j + 1;
            }
            proof {
                assert(entries_view(eb@).take(eb@.len() as int) =~= entries_view(eb@));
                lemma_entries_view(out);
                lemma_entries_view(*ea);
                lemma_entries_view(*eb);
                assert(*a == Value::Mapping(*ea));
                assert(*b == Value::Mapping(*eb));
            }
            Value::Mapping(out)
        },
        _ => {
            let r = deep_clone(b);
            proof {
                lemma_view_variant(*a);
                lemma_view_variant(*b);
            }
            r
        },
    }
}

/// A fresh copy of mapping entries with the entry at `skip_at` left out.
#[verifier::loop_isolation(false)]
fn clone_entries_except(entries: &Vec<(Vec<char>, Value)>, skip_at: usize) -> (r: Vec<
    (Vec<char>, Value),
>)
    requires
        skip_at < entries@.len(),
    ensures
        entries_view(r@) == entries_view(entries@).remove(skip_at as int),
{
    let mut out: Vec<(Vec<char>, Value)> = Vec::new();
    let mut i: usize = 0;
    while i < entries.len()
        invariant
            0 <= i <= entries@.len(),
            skip_at < entries@.len(),
            i <= skip_at ==> entries_view(out@) == entries_view(entries@).take(i as int),
            i > skip_at ==> entries_view(out@) == entries_view(entries@).remove(
                skip_at as int,
            ).take(i - 1),
        decreases entries@.len() - i,
    {
        if i != skip_at {
            let k = clone_chars(&entries[i].0);
            let c = deep_clone(&entries[i].1);
            out.push((k, c));
        }
        proof {
            if i + 1 <= skip_at {
                assert(entries_view(out@) =~= entries_view(entries@).take(i + 1 as int));
            } else {
                assert(entries_view(out@) =~= entries_view(entries@).remove(skip_at as int).take(
                    i as int,
                ));
            }
        }
        i = i + 1;
    }
    proof {
        assert(entries_view(out@) =~= entries_view(entries@).remove(skip_at as int));
    }
    out
}

/// Whether this value is a mapping with no entries.
pub fn is_empty_mapping(v: &Value) -> (r: bool)
    ensures
        r == (v@ == Node::Mapping(Seq::<(Seq<char>, Node)>::empty())),
{
    match v {
        Value::Mapping(es) => {
            if es.len() == 0 {
                proof {
                    lemma_entries_view(*es);
                    assert(*v == Value::Mapping(*es));
                    assert(entries_view(es@) =~= Seq::<(Seq<char>, Node)>::empty());
                    assert(v@ == Node::Mapping(Seq::<(Seq<char>, Node)>::empty()));
                }
                true
            } else {
                proof {
                    lemma_entries_view(*es);
                    assert(*v == Value::Mapping(*es));
                    assert(entries_view(es@).len() > 0);
                    assert(v@ != Node::Mapping(Seq::<(Seq<char>, Node)>::empty()));
                }
                false
            }
        },
        _ => {
            proof {
                lemma_view_variant(*v);
                assert(v@ != Node::Mapping(Seq::<(Seq<char>, Node)>::empty()));
            }
            false
        },
    }
}

/// The tree with the key addressed by `path[pos..]` removed, as a fresh
/// value, and whether anything was removed; see `remove_path_from`.
#[verifier::loop_isolation(false)]
pub fn remove_path_value(v: &Value, path: &Vec<Vec<char>>, pos: usize) -> (r: (Value, bool))
    requires
        pos <= path@.len(),
    ensures
        (r.0@, r.1) == remove_path_from(v@, path_view(path@), pos as int),
    decreases path@.len() - pos,
{
    if pos == path.len() {
        return (deep_clone(v), false);
    }
    match v {
        Value::Mapping(es) => {
            proof {
                lemma_entries_view(*es);
                assert(*v == Value::Mapping(*es));
            }
            let k = &path[pos];
            let found = find_key(es, k);
            match found {
                Some(i) => {
                    proof {
                        lemma_key_index(entries_view(es@), k@);
                    }
                    if pos == path.len() - 1 {
                        let out = clone_entries_except(es, i);
                        proof {
                            lemma_entries_view(out);
                        }
                        (Value::Mapping(out), true)
                    } else {
                        let sub = remove_path_value(&es[i].1, path, pos + 1);
                        if !sub.1 {
                            (deep_clone(v), false)
                        } else if is_empty_mapping(&sub.0) {
                            let out = clone_entries_except(es, i);
                            proof {
                                lemma_entries_view(out);
                            }
                            (Value::Mapping(out), true)
                        } else {
                            let mut out = clone_entries(es);
                            let (c2, _moved) = sub;
                            let slot = &mut out[i];
                            slot.1 = c2;
                            proof {
                                lemma_entries_view(out);
                                assert(entries_view(out@) =~= entries_view(es@).update(
                                    i as int,
                                    (k@, entries_view(out@)[i as int].1),
                                ));
                            }
                            (Value::Mapping(out), true)
                        }
                    }
                },
                None => (deep_clone(v), false),
            }
        },
        _ => {
            proof {
                lemma_view_variant(*v);
            }
            (deep_clone(v), false)
        },
    }
}

/// When every entry before `i` has another key and entry `i` has key `k`,
/// then `i` is the key's index.
pub proof fn lemma_key_index_found(es: Seq<(Seq<char>, Node)>, k: Seq<char>, i: int)
    requires
        0 <= i < es.len(),
        es[i].0 == k,
        forall|j: int| 0 <= j < i ==> es[j].0 != k,
    ensures
        key_index(es, k) == i,
    decreases es.len(),
{
    if i == 0 {
    } else {
        assert forall|j: int| 0 <= j < i - 1 implies es.skip(1)[j].0 != k by {
            assert(es.skip(1)[j] == es[j + 1]);
        }
        assert(es.skip(1)[i - 1] == es[i]);
        lemma_key_index_found(es.skip(1), k, i - 1);
    }
}

} // verus!
