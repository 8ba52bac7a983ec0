//! The parser accumulator: loads documents one by one, applies registered
//! null patches and overrides, and collects raw network definitions in
//! arrival order for the merge engine.

use vstd::prelude::*;

use crate::chars::{chars_eq_str, chars_to_string, str_to_chars};
use crate::doc::{int_err_msg, props_err, value_err_msg};
use crate::error::{NetplanErrorDomains, NetplanResult};
use crate::netdef::{
    kind_has_section, kind_of_section, spec_kind_of_section, Netdef, NetdefType, NetdefV,
};
use crate::parse::{
    lemma_parse_map_depth, lemma_split_lines_bounds, parse_map_s, parse_map_x, split_lines,
    split_lines_exec, split_lines_from, lines_view,
};
use crate::value::{
    entries_depth, entries_view, key_index, lemma_entries_depth_index, lemma_entries_view,
    lemma_key_index, lemma_remove_path_depth, lemma_view_variant, map_get, map_has_key,
    node_depth, path_view, remove_path_from, remove_path_value, Node, Value,
};

verus! {

/// The cap on a loaded document's size, in characters; larger inputs fail
/// with a typed error rather than growing without bound.
pub const MAX_DOC_CHARS: usize = 1048576;

/// What a document contributes: the global keys and the definitions it
/// declares, in order.
pub struct DocModel {
    pub version: Option<int>,
    pub renderer: Option<Seq<char>>,
    pub defs: Seq<NetdefV>,
}

/// The root mapping a text parses to: its lines read as one mapping block
/// at the first line's indent.
pub open spec fn parse_doc(text: Seq<char>) -> Option<Seq<(Seq<char>, Node)>> {
    let ls = split_lines(text);
    if ls.len() == 0 {
        Some(Seq::empty())
    } else {
        parse_map_s(ls, ls[0].0)
    }
}

/// The tree after every registered null path has been removed, in order.
pub open spec fn apply_nulls(n: Node, ps: Seq<Seq<Seq<char>>>, i: int) -> Node
    decreases ps.len() - i,
{
    if i < 0 || i >= ps.len() {
        n
    } else {
        apply_nulls(remove_path_from(n, ps[i], 0).0, ps, i + 1)
    }
}

/// The definitions one section contributes, or the first error among them.
/// A definition body must be a mapping (an explicit null counts as empty);
/// its properties are checked against the known keys.
pub open spec fn conv_section(kind: NetdefType, es: Seq<(Seq<char>, Node)>) -> Result<
    Seq<NetdefV>,
    Seq<char>,
>
    decreases es,
{
    if es.len() == 0 {
        Ok(Seq::empty())
    } else {
        let id = es[0].0;
        let pv = es[0].1;
        match pv {
            Node::Mapping(pes) => match props_err(pes) {
                Some(m) => Err(m),
                None => match conv_section(kind, es.skip(1)) {
                    Ok(rest) => Ok(seq![NetdefV { id, kind, props: pv }] + rest),
                    Err(m) => Err(m),
                },
            },
            Node::Null => match conv_section(kind, es.skip(1)) {
                Ok(rest) => Ok(
                    seq![
                        NetdefV {
                            id,
                            kind,
                            props: Node::Mapping(Seq::<(Seq<char>, Node)>::empty()),
                        },
                    ] + rest,
                ),
                Err(m) => Err(m),
            },
            _ => Err(value_err_msg(id)),
        }
    }
}

/// What the entries under the root namespace key contribute: the `version`
/// and `renderer` globals (a later occurrence wins) and the definitions of
/// every known section, in order; unknown sections are tolerated and
/// skipped.
pub open spec fn conv_body(es: Seq<(Seq<char>, Node)>) -> Result<DocModel, Seq<char>>
    decreases es,
{
    if es.len() == 0 {
        Ok(DocModel { version: None, renderer: None, defs: Seq::empty() })
    } else {
        let k = es[0].0;
        let v = es[0].1;
        let step: Result<DocModel, Seq<char>> = if k == "version"@ {
            match v {
                Node::Int(i) => Ok(DocModel { version: Some(i), renderer: None, defs: Seq::empty() }),
                _ => Err(int_err_msg(v)),
            }
        } else if k == "renderer"@ {
            match v {
                Node::Str(s) => Ok(DocModel { version: None, renderer: Some(s), defs: Seq::empty() }),
                _ => Err(value_err_msg(k)),
            }
        } else {
            match spec_kind_of_section(k) {
                Some(kind) => match v {
                    Node::Mapping(ses) => match conv_section(kind, ses) {
                        Ok(ds) => Ok(DocModel { version: None, renderer: None, defs: ds }),
                        Err(m) => Err(m),
                    },
                    Node::Null => Ok(
                        DocModel { version: None, renderer: None, defs: Seq::empty() },
                    ),
                    _ => Err(value_err_msg(k)),
                },
                None => Ok(DocModel { version: None, renderer: None, defs: Seq::empty() }),
            }
        };
        match step {
            Err(m) => Err(m),
            Ok(first) => match conv_body(es.skip(1)) {
                Err(m) => Err(m),
                Ok(rest) => Ok(
                    DocModel {
                        version: if rest.version is Some {
                            rest.version
                        } else {
                            first.version
                        },
                        renderer: if rest.renderer is Some {
                            rest.renderer
                        } else {
                            first.renderer
                        },
                        defs: first.defs + rest.defs,
                    },
                ),
            },
        }
    }
}

/// The parser-domain message for a document without the root namespace key.
pub open spec fn missing_network_msg() -> Seq<char> {
    "Error in network definition: missing 'network' key"@
}

/// What a whole root mapping contributes: the body under `network`.
pub open spec fn conv_doc(root: Seq<(Seq<char>, Node)>) -> Result<DocModel, Seq<char>> {
    if !map_has_key(root, "network"@) {
        Err(missing_network_msg())
    } else {
        match map_get(root, "network"@) {
            Node::Mapping(body) => conv_body(body),
            Node::Null => Ok(DocModel { version: None, renderer: None, defs: Seq::empty() }),
            _ => Err(value_err_msg("network"@)),
        }
    }
}

/// What loading one YAML text into a parser with the given null paths
/// yields: the document's contribution, or an error. The error flag says
/// whether it is a file-domain error (the size cap) rather than a
/// parser-domain one.
pub open spec fn load_outcome(text: Seq<char>, nulls: Seq<Seq<Seq<char>>>) -> Result<
    DocModel,
    (bool, Seq<char>),
> {
    if text.len() > MAX_DOC_CHARS {
        Err((true, "data is too big"@))
    } else {
        match parse_doc(text) {
            None => Err((false, "Invalid YAML document"@)),
            Some(root) => {
                let applied = apply_nulls(Node::Mapping(root), nulls, 0);
                match applied {
                    Node::Mapping(aes) => match conv_doc(aes) {
                        Ok(dm) => Ok(dm),
                        Err(m) => Err((false, m)),
                    },
                    _ => Err((false, "Invalid YAML document"@)),
                }
            },
        }
    }
}

/// Well-formedness of a definition list: every definition's properties form
/// a mapping of bounded depth, and its kind has a section of its own.
pub open spec fn defs_wf(defs: Seq<NetdefV>, bound: nat) -> bool {
    forall|i: int|
        0 <= i < defs.len() ==> {
            &&& (#[trigger] defs[i]).props is Mapping
            &&& node_depth(defs[i].props) <= bound
            &&& kind_has_section(defs[i].kind)
        }
}

/// Every definition a section contributes keeps the section's kind, and its
/// properties are a mapping no deeper than the section's entries.
pub proof fn lemma_conv_section_wf(kind: NetdefType, es: Seq<(Seq<char>, Node)>)
    requires
        conv_section(kind, es) is Ok,
    ensures
        forall|i: int|
            0 <= i < conv_section(kind, es)->Ok_0.len() ==> {
                &&& (#[trigger] conv_section(kind, es)->Ok_0[i]).props is Mapping
                &&& node_depth(conv_section(kind, es)->Ok_0[i].props) <= entries_depth(es) + 1
                &&& conv_section(kind, es)->Ok_0[i].kind == kind
            },
    decreases es,
{
    if es.len() > 0 {
        lemma_conv_section_wf(kind, es.skip(1));
        lemma_entries_depth_index(es, 0);
        assert(entries_depth(es.skip(1)) <= entries_depth(es));
        let ds = conv_section(kind, es)->Ok_0;
        let rest = conv_section(kind, es.skip(1))->Ok_0;
        assert forall|i: int| 0 <= i < ds.len() implies {
            &&& (#[trigger] ds[i]).props is Mapping
            &&& node_depth(ds[i].props) <= entries_depth(es) + 1
            &&& ds[i].kind == kind
        } by {
            if i > 0 {
                assert(ds[i] == rest[i - 1]);
            }
        }
    }
}

/// The views of a list of definitions.
pub open spec fn defs_view(s: Seq<Netdef>) -> Seq<NetdefV> {
    Seq::new(
        s.len(),
        |i: int|
            if 0 <= i < s.len() {
                s[i]@
            } else {
                NetdefV {
                    id: Seq::empty(),
                    kind: NetdefType::Unknown,
                    props: Node::Null,
                }
            },
    )
}

/// The views of a list of dotted paths.
pub open spec fn paths_view(s: Seq<Vec<Vec<char>>>) -> Seq<Seq<Seq<char>>> {
    Seq::new(
        s.len(),
        |i: int|
            if 0 <= i < s.len() {
                path_view(s[i]@)
            } else {
                Seq::empty()
            },
    )
}

/// The paths of every key in the tree whose value is an explicit null, each
/// under the given prefix.
pub open spec fn null_paths_node(n: Node, prefix: Seq<Seq<char>>) -> Seq<Seq<Seq<char>>>
    decreases n, 0int,
{
    match n {
        Node::Mapping(es) => null_paths_entries(es, prefix),
        _ => Seq::empty(),
    }
}

/// The null paths under each entry of a mapping, in order.
pub open spec fn null_paths_entries(es: Seq<(Seq<char>, Node)>, prefix: Seq<Seq<char>>) -> Seq<
    Seq<Seq<char>>,
>
    decreases es, 1int,
{
    if es.len() == 0 {
        Seq::empty()
    } else {
        let k = es[0].0;
        let v = es[0].1;
        let head: Seq<Seq<Seq<char>>> = if v is Null {
            seq![prefix.push(k)]
        } else {
            null_paths_node(v, prefix.push(k))
        };
        head + null_paths_entries(es.skip(1), prefix)
    }
}

/// Every definition a body contributes has a section kind and mapping
/// properties no deeper than the body's entries.
pub proof fn lemma_conv_body_wf(es: Seq<(Seq<char>, Node)>)
    requires
        conv_body(es) is Ok,
    ensures
        defs_wf(conv_body(es)->Ok_0.defs, entries_depth(es)),
    decreases es,
{
    if es.len() > 0 {
        let k = es[0].0;
        let v = es[0].1;
        lemma_conv_body_wf(es.skip(1));
        lemma_entries_depth_index(es, 0);
        assert(entries_depth(es.skip(1)) <= entries_depth(es));
        let whole = conv_body(es)->Ok_0.defs;
        let rest = conv_body(es.skip(1))->Ok_0.defs;
        let firstn: int = whole.len() - rest.len();
        if !(k == "version"@) && !(k == "renderer"@) && spec_kind_of_section(k) is Some
            && v is Mapping {
            let kind = spec_kind_of_section(k)->Some_0;
            let ses = v->Mapping_0;
            lemma_conv_section_wf(kind, ses);
            assert(entries_depth(ses) < node_depth(v));
            assert(kind_has_section(kind));
        }
        assert forall|i: int| 0 <= i < whole.len() implies {
            &&& (#[trigger] whole[i]).props is Mapping
            &&& node_depth(whole[i].props) <= entries_depth(es)
            &&& kind_has_section(whole[i].kind)
        } by {
            if i >= firstn {
                assert(whole[i] == rest[i - firstn]);
            } else {
                let kind = spec_kind_of_section(k)->Some_0;
                let ses = v->Mapping_0;
                assert(whole[i] == conv_section(kind, ses)->Ok_0[i]);
            }
        }
    }
}

/// The view of a parser accumulator.
pub struct ParserV {
    pub defs: Seq<NetdefV>,
    pub overrides: Seq<NetdefV>,
    pub version: Option<int>,
    pub renderer: Option<Seq<char>>,
    pub nulls: Seq<Seq<Seq<char>>>,
}

/// The parser accumulator: the raw definitions read so far in arrival
/// order, the global keys, the registered null paths, and the definitions
/// registered as overrides (folded in last by the merge engine).
pub struct Parser {
    netdefs: Vec<Netdef>,
    override_defs: Vec<Netdef>,
    version: Option<i64>,
    renderer: Option<Vec<char>>,
    null_paths: Vec<Vec<Vec<char>>>,
}

impl View for Parser {
    type V = ParserV;

    closed spec fn view(&self) -> ParserV {
        ParserV {
            defs: defs_view(self.netdefs@),
            overrides: defs_view(self.override_defs@),
            version: match self.version {
                Some(v) => Some(v as int),
                None => None,
            },
            renderer: match self.renderer {
                Some(r) => Some(r@),
                None => None,
            },
            nulls: paths_view(self.null_paths@),
        }
    }
}

impl Parser {
    /// Well-formedness: every collected definition is bounded and sectioned.
    pub open spec fn wf(&self) -> bool {
        defs_wf(self@.defs, 2200000) && defs_wf(self@.overrides, 2200000)
    }

    /// A fresh, empty parser.
    pub fn new() -> (r: Parser)
        ensures
            r@.defs.len() == 0,
            r@.overrides.len() == 0,
            r@.version is None,
            r@.renderer is None,
            r@.nulls.len() == 0,
            r.wf(),
    {
        let r = Parser {
            netdefs: Vec::new(),
            override_defs: Vec::new(),
            version: None,
            renderer: None,
            null_paths: Vec::new(),
        };
        proof {
            assert(defs_view(r.netdefs@) =~= Seq::<NetdefV>::empty());
            assert(defs_view(r.override_defs@) =~= Seq::<NetdefV>::empty());
            assert(paths_view(r.null_paths@) =~= Seq::<Seq<Seq<char>>>::empty());
        }
        r
    }
}

/// A section result with already-read definitions in front.
pub open spec fn prefixed_defs(sr: Result<Seq<NetdefV>, Seq<char>>, acc: Seq<NetdefV>) -> Result<
    Seq<NetdefV>,
    Seq<char>,
> {
    match sr {
        Ok(ds) => Ok(acc + ds),
        Err(m) => Err(m),
    }
}

/// Reads the definitions of one section; see `conv_section`.
#[verifier::loop_isolation(false)]
fn read_section(kind: NetdefType, es: &Vec<(Vec<char>, Value)>) -> (r: Result<
    Vec<Netdef>,
    Vec<char>,
>)
    ensures
        ({
            let sr = conv_section(kind, entries_view(es@));
            match r {
                Ok(ds) => sr == Ok::<Seq<NetdefV>, Seq<char>>(defs_view(ds@)),
                Err(m) => sr == Err::<Seq<NetdefV>, Seq<char>>(m@),
            }
        }),
{
    let ghost esv = entries_view(es@);
    proof {
        assert(esv.skip(0) =~= esv);
    }
    let mut out: Vec<Netdef> = Vec::new();
    let mut i: usize = 0;
    while i < es.len()
        invariant
            0 <= i <= es@.len(),
            conv_section(kind, esv) == prefixed_defs(
                conv_section(kind, esv.skip(i as int)),
                defs_view(out@),
            ),
        decreases es@.len() - i,
    {
        proof {
            assert(esv.skip(i as int)[0] == esv[i as int]);
            assert(esv.skip(i as int).skip(1) =~= esv.skip(i + 1 as int));
        }
        let idc = &es[i].0;
        let pv = &es[i].1;
        proof {
            lemma_view_variant(*pv);
        }
        let ghost prevout = defs_view(out@);
        match pv {
            Value::Mapping(pes) => {
                proof {
                    lemma_entries_view(*pes);
                }
                match crate::doc::props_check(pes) {
                    Some(m) => {
                        return Err(m);
                    },
                    None => {},
                }
                let nd = Netdef {
                    id: chars_to_string(idc),
                    kind,
                    properties: crate::value::deep_clone(pv),
                };
                out.push(nd);
            },
            Value::Null => {
                let empty_entries: Vec<(Vec<char>, Value)> = Vec::new();
                proof {
                    lemma_entries_view(empty_entries);
                    assert(entries_view(empty_entries@) =~= Seq::<(Seq<char>, Node)>::empty());
                }
                let nd = Netdef {
                    id: chars_to_string(idc),
                    kind,
                    properties: Value::Mapping(empty_entries),
                };
                out.push(nd);
            },
            _ => {
                return Err(crate::doc::make_value_err(idc));
            },
        }
        proof {
            let ndv = out@.last()@;
            assert(defs_view(out@) =~= prevout.push(ndv));
            if conv_section(kind, esv.skip(i + 1 as int)) is Ok {
                let rest = conv_section(kind, esv.skip(i + 1 as int))->Ok_0;
                assert(prevout + (seq![ndv] + rest) =~= defs_view(out@) + rest);
            }
        }
        i = i + 1;
    }
    proof {
        assert(esv.skip(es@.len() as int) =~= Seq::<(Seq<char>, Node)>::empty());
        assert(defs_view(out@) + Seq::<NetdefV>::empty() =~= defs_view(out@));
    }
    Ok(out)
}

/// A later document model folded over an earlier accumulator: definitions
/// append; a global key set later wins.
pub open spec fn dm_join(first: DocModel, rest: DocModel) -> DocModel {
    DocModel {
        version: if rest.version is Some {
            rest.version
        } else {
            first.version
        },
        renderer: if rest.renderer is Some {
            rest.renderer
        } else {
            first.renderer
        },
        defs: first.defs + rest.defs,
    }
}

/// A body result folded over an accumulator.
pub open spec fn dm_combine(acc: DocModel, res: Result<DocModel, Seq<char>>) -> Result<
    DocModel,
    Seq<char>,
> {
    match res {
        Ok(rest) => Ok(dm_join(acc, rest)),
        Err(m) => Err(m),
    }
}

/// Reads the entries under the root namespace key; see `conv_body`.
#[verifier::loop_isolation(false)]
fn read_body(es: &Vec<(Vec<char>, Value)>) -> (r: Result<
    (Option<i64>, Option<Vec<char>>, Vec<Netdef>),
    Vec<char>,
>)
    ensures
        ({
            let br = conv_body(entries_view(es@));
            match r {
                Ok(out) => br == Ok::<DocModel, Seq<char>>(
                    DocModel {
                        version: (match out.0 {
                            Some(v) => Some(v as int),
                            None => None,
                        }),
                        renderer: (match out.1 {
                            Some(rr) => Some(rr@),
                            None => None,
                        }),
                        defs: defs_view(out.2@),
                    },
                ),
                Err(m) => br == Err::<DocModel, Seq<char>>(m@),
            }
        }),
{
    let ghost esv = entries_view(es@);
    proof {
        assert(esv.skip(0) =~= esv);
    }
    let mut version: Option<i64> = None;
    let mut renderer: Option<Vec<char>> = None;
    let mut defs: Vec<Netdef> = Vec::new();
    let mut i: usize = 0;
    while i < es.len()
        invariant
            0 <= i <= es@.len(),
            conv_body(esv) == dm_combine(
                DocModel {
                    version: (match version {
                        Some(v) => Some(v as int),
                        None => None,
                    }),
                    renderer: (match renderer {
                        Some(rr) => Some(rr@),
                        None => None,
                    }),
                    defs: defs_view(defs@),
                },
                conv_body(esv.skip(i as int)),
            ),
        decreases es@.len() - i,
    {
        proof {
            assert(esv.skip(i as int)[0] == esv[i as int]);
            assert(esv.skip(i as int).skip(1) =~= esv.skip(i + 1 as int));
        }
        let ghost acc_pre = DocModel {
            version: (match version {
                Some(v) => Some(v as int),
                None => None,
            }),
            renderer: (match &renderer {
                Some(rr) => Some(rr@),
                None => None,
            }),
            defs: defs_view(defs@),
        };
        let k = &es[i].0;
        let v = &es[i].1;
        proof {
            lemma_view_variant(*v);
        }
        let ghost stepv: DocModel;
        if chars_eq_str(k, "version") {
            match v {
                Value::Int(n) => {
                    version = Some(*n);
                    proof {
                        stepv = DocModel {
                            version: Some(*n as int),
                            renderer: None,
                            defs: Seq::empty(),
                        };
                    }
                },
                _ => {
                    return Err(crate::doc::make_int_err(v));
                },
            }
        } else if chars_eq_str(k, "renderer") {
            match v {
                Value::Str(sv) => {
                    let svc = crate::value::clone_chars(sv);
                    renderer = Some(svc);
                    proof {
                        stepv = DocModel {
                            version: None,
                            renderer: Some(sv@),
                            defs: Seq::empty(),
                        };
                    }
                },
                _ => {
                    return Err(crate::doc::make_value_err(k));
                },
            }
        } else {
            match kind_of_section(k) {
                Some(kind) => {
                    match v {
                        Value::Mapping(ses) => {
                            proof {
                                lemma_entries_view(*ses);
                            }
                            match read_section(kind, ses) {
                                Ok(mut ds) => {
                                    proof {
                                        stepv = DocModel {
                                            version: None,
                                            renderer: None,
                                            defs: defs_view(ds@),
                                        };
                                    }
                                    let ghost defs_pre = defs_view(defs@);
                                    let ghost ds_pre = defs_view(ds@);
                                    defs.append(&mut ds);
                                    proof {
                                        assert(defs_view(defs@) =~= defs_pre + ds_pre);
                                    }
                                },
                                Err(m) => {
                                    return Err(m);
                                },
                            }
                        },
                        Value::Null => {
                            proof {
                                stepv = DocModel {
                                    version: None,
                                    renderer: None,
                                    defs: Seq::empty(),
                                };
                            }
                        },
                        _ => {
                            return Err(crate::doc::make_value_err(k));
                        },
                    }
                },
                None => {
                    proof {
                        stepv = DocModel {
                            version: None,
                            renderer: None,
                            defs: Seq::empty(),
                        };
                    }
                },
            }
        }
        proof {
            let acc_post = DocModel {
                version: (match version {
                    Some(v2) => Some(v2 as int),
                    None => None,
                }),
                renderer: (match &renderer {
                    Some(rr) => Some(rr@),
                    None => None,
                }),
                defs: defs_view(defs@),
            };
            assert(acc_post.defs =~= acc_pre.defs + stepv.defs);
            if conv_body(esv.skip(i + 1 as int)) is Ok {
                let rest = conv_body(esv.skip(i + 1 as int))->Ok_0;
                assert(dm_join(acc_pre, dm_join(stepv, rest)).defs =~= dm_join(
                    acc_post,
                    rest,
                ).defs);
                assert(dm_join(acc_pre, dm_join(stepv, rest)) == dm_join(acc_post, rest));
            }
        }
        i = i + 1;
    }
    proof {
        assert(esv.skip(es@.len() as int) =~= Seq::<(Seq<char>, Node)>::empty());
        let acc_fin = DocModel {
            version: (match version {
                Some(v2) => Some(v2 as int),
                None => None,
            }),
            renderer: (match &renderer {
                Some(rr) => Some(rr@),
                None => None,
            }),
            defs: defs_view(defs@),
        };
        let empty_dm = DocModel { version: None, renderer: None, defs: Seq::empty() };
        assert(dm_join(acc_fin, empty_dm).defs =~= acc_fin.defs);
        assert(dm_join(acc_fin, empty_dm) == acc_fin);
    }
    Ok((version, renderer, defs))
}

/// A split text has no more lines than characters.
pub proof fn lemma_split_lines_count(text: Seq<char>, i: int)
    requires
        0 <= i <= text.len(),
    ensures
        split_lines_from(text, i).len() <= text.len() - i,
    decreases text.len() - i,
{
    if i < text.len() {
        let e = crate::parse::line_end(text, i);
        crate::parse::lemma_line_end(text, i);
        if e < text.len() {
            lemma_split_lines_count(text, e + 1);
        }
    }
}

/// Applying null paths never deepens the tree.
pub proof fn lemma_apply_nulls_depth(n: Node, ps: Seq<Seq<Seq<char>>>, i: int)
    ensures
        node_depth(apply_nulls(n, ps, i)) <= node_depth(n),
    decreases ps.len() - i,
{
    if 0 <= i < ps.len() {
        lemma_remove_path_depth(n, ps[i], 0);
        lemma_apply_nulls_depth(remove_path_from(n, ps[i], 0).0, ps, i + 1);
    }
}

/// Reads the whole root mapping; see `conv_doc`.
fn read_doc(root: &Vec<(Vec<char>, Value)>) -> (r: Result<
    (Option<i64>, Option<Vec<char>>, Vec<Netdef>),
    Vec<char>,
>)
    ensures
        ({
            let dr = conv_doc(entries_view(root@));
            match r {
                Ok(out) => dr == Ok::<DocModel, Seq<char>>(
                    DocModel {
                        version: (match out.0 {
                            Some(v) => Some(v as int),
                            None => None,
                        }),
                        renderer: (match out.1 {
                            Some(rr) => Some(rr@),
                            None => None,
                        }),
                        defs: defs_view(out.2@),
                    },
                ),
                Err(m) => dr == Err::<DocModel, Seq<char>>(m@),
            }
        }),
{
    let nk = str_to_chars("network");
    match crate::value::find_key(root, &nk) {
        None => Err(make_missing_network_msg()),
        Some(i) => {
            proof {
                lemma_key_index(entries_view(root@), "network"@);
            }
            let v = &root[i].1;
            proof {
                lemma_view_variant(*v);
            }
            match v {
                Value::Mapping(body) => {
                    proof {
                        lemma_entries_view(*body);
                    }
                    read_body(body)
                },
                Value::Null => {
                    let out: Vec<Netdef> = Vec::new();
                    proof {
                        assert(defs_view(out@) =~= Seq::<NetdefV>::empty());
                    }
                    Ok((None, None, out))
                },
                _ => Err(crate::doc::make_value_err(&nk)),
            }
        },
    }
}

/// The rendered message for a document without the root namespace key.
fn make_missing_network_msg() -> (r: Vec<char>)
    ensures
        r@ == missing_network_msg(),
{
    let mut out: Vec<char> = Vec::new();
    crate::yaml::push_str(&mut out, "Error in network definition: missing 'network' key");
    proof {
        assert(out@ =~= missing_network_msg());
    }
    out
}

/// Reads a text as a root mapping; see `parse_doc`.
pub fn parse_doc_x(text: &Vec<char>) -> (r: Result<Vec<(Vec<char>, Value)>, ()>)
    requires
        text@.len() <= MAX_DOC_CHARS,
    ensures
        (match r {
            Ok(es) => parse_doc(text@) == Some(entries_view(es@)),
            Err(_) => parse_doc(text@) is None,
        }),
{
    let ls = split_lines_exec(text);
    let ghost lsv = lines_view(ls@);
    if ls.len() == 0 {
        let out: Vec<(Vec<char>, Value)> = Vec::new();
        proof {
            assert(entries_view(out@) =~= Seq::<(Seq<char>, Node)>::empty());
        }
        return Ok(out);
    }
    proof {
        lemma_split_lines_bounds(text@, 0);
        assert forall|i: int| 0 < i < ls@.len() implies (#[trigger] ls@[i]).0 <= 600_000_000 by {
            assert(lsv[i] == (ls@[i].0 as nat, ls@[i].1@));
            assert(lsv[i].0 <= text@.len());
        }
        assert(lsv[0] == (ls@[0].0 as nat, ls@[0].1@));
        assert(lsv[0].0 <= text@.len());
        assert(lsv.subrange(0, ls@.len() as int) =~= lsv);
    }
    let ind0 = ls[0].0;
    match parse_map_x(&ls, 0, ls.len(), ind0) {
        Ok(es) => Ok(es),
        Err(_) => Err(()),
    }
}

/// The tree with every registered null path removed; see `apply_nulls`.
#[verifier::loop_isolation(false)]
pub fn apply_nulls_x(v: Value, paths: &Vec<Vec<Vec<char>>>) -> (r: Value)
    ensures
        r@ == apply_nulls(v@, paths_view(paths@), 0),
{
    let ghost psv = paths_view(paths@);
    let ghost v0 = v@;
    let mut cur = v;
    let mut i: usize = 0;
    while i < paths.len()
        invariant
            0 <= i <= paths@.len(),
            apply_nulls(cur@, psv, i as int) == apply_nulls(v0, psv, 0),
        decreases paths@.len() - i,
    {
        let p = &paths[i];
        proof {
            assert(psv[i as int] == path_view(paths@[i as int]@));
        }
        let res = remove_path_value(&cur, p, 0);
        cur = res.0;
        i = i + 1;
    }
    cur
}

/// A fresh copy of one dotted path.
#[verifier::loop_isolation(false)]
fn clone_path(p: &Vec<Vec<char>>) -> (r: Vec<Vec<char>>)
    ensures
        path_view(r@) == path_view(p@),
        r@.len() == p@.len(),
{
    let mut out: Vec<Vec<char>> = Vec::new();
    let mut i: usize = 0;
    while i < p.len()
        invariant
            0 <= i <= p@.len(),
            path_view(out@) == path_view(p@).take(i as int),
            out@.len() == i,
        decreases p@.len() - i,
    {
        out.push(crate::value::clone_chars(&p[i]));
        proof {
            assert(path_view(out@) =~= path_view(p@).take(i + 1 as int));
        }
        i = i + 1;
    }
    proof {
        assert(path_view(out@) =~= path_view(p@));
    }
    out
}

/// Collects the paths of explicit null leaves under the prefix; see
/// `null_paths_node`.
#[verifier::loop_isolation(false)]
fn collect_null_paths(v: &Value, prefix: &Vec<Vec<char>>, out: &mut Vec<Vec<Vec<char>>>)
    ensures
        paths_view(final(out)@) == paths_view(old(out)@) + null_paths_node(
            v@,
            path_view(prefix@),
        ),
    decreases *v,
{
    proof {
        lemma_view_variant(*v);
    }
    match v {
        Value::Mapping(es) => {
            proof {
                lemma_entries_view(*es);
                assert(*v == Value::Mapping(*es));
            }
            let ghost esv = entries_view(es@);
            let ghost pfx = path_view(prefix@);
            proof {
                assert(esv.skip(0) =~= esv);
            }
            let mut i: usize = 0;
            while i < es.len()
                invariant
                    0 <= i <= es@.len(),
                    paths_view(out@) + null_paths_entries(esv.skip(i as int), pfx)
                        == paths_view(old(out)@) + null_paths_entries(esv, pfx),
                decreases es@.len() - i,
            {
                proof {
                    assert(esv.skip(i as int)[0] == esv[i as int]);
                    assert(esv.skip(i as int).skip(1) =~= esv.skip(i + 1 as int));
                }
                let ghost before = paths_view(out@);
                let k = &es[i].0;
                let val = &es[i].1;
                proof {
                    lemma_view_variant(*val);
                }
                let mut np = clone_path(prefix);
                np.push(crate::value::clone_chars(k));
                proof {
                    assert(path_view(np@) =~= pfx.push(k@));
                }
                let ghost head: Seq<Seq<Seq<char>>>;
                if matches!(val, Value::Null) {
                    out.push(np);
                    proof {
                        head = seq![pfx.push(k@)];
                        assert(paths_view(out@) =~= before + head);
                    }
                } else {
                    proof {
                        assert(decreases_to!(*v => v->Mapping_0));
                        assert(v->Mapping_0 == *es);
                        assert(decreases_to!(*es => (*es)[i as int]));
                        assert(decreases_to!((*es)[i as int] => (*es)[i as int].1));
                    }
                    collect_null_paths(val, &np, out);
                    proof {
                        head = null_paths_node(val@, pfx.push(k@));
                        assert(paths_view(out@) == before + head);
                    }
                }
                proof {
                    assert((before + head) + null_paths_entries(esv.skip(i + 1 as int), pfx)
                        =~= before + (head + null_paths_entries(esv.skip(i + 1 as int), pfx)));
                }
                i = i + 1;
            }
            proof {
                assert(esv.skip(es@.len() as int) =~= Seq::<(Seq<char>, Node)>::empty());
                assert(null_paths_entries(Seq::<(Seq<char>, Node)>::empty(), pfx)
                    =~= Seq::<Seq<Seq<char>>>::empty());
                assert(paths_view(out@) + Seq::<Seq<Seq<char>>>::empty() =~= paths_view(out@));
                assert(paths_view(old(out)@) + null_paths_entries(esv, pfx) =~= paths_view(
                    old(out)@,
                ) + null_paths_node(v@, pfx));
            }
        },
        _ => {
            proof {
                assert(null_paths_node(v@, path_view(prefix@)) =~= Seq::<Seq<Seq<char>>>::empty());
                assert(paths_view(out@) + Seq::<Seq<Seq<char>>>::empty() =~= paths_view(out@));
            }
        },
    }
}

/// What registering a null patch yields: the null paths of the patch
/// document, or a file-domain error.
pub open spec fn nullable_outcome(text: Seq<char>) -> Result<Seq<Seq<Seq<char>>>, Seq<char>> {
    if text.len() > MAX_DOC_CHARS {
        Err("data is too big"@)
    } else {
        match parse_doc(text) {
            None => Err("load_nullable_fields failed"@),
            Some(root) => Ok(null_paths_node(Node::Mapping(root), Seq::empty())),
        }
    }
}

/// What registering an override patch yields: the document's contribution,
/// or a file-domain error.
pub open spec fn override_outcome(text: Seq<char>) -> Result<DocModel, Seq<char>> {
    if text.len() > MAX_DOC_CHARS {
        Err("data is too big"@)
    } else {
        match parse_doc(text) {
            None => Err("load_nullable_overrides failed"@),
            Some(root) => match conv_doc(root) {
                Ok(dm) => Ok(dm),
                Err(_) => Err("load_nullable_overrides failed"@),
            },
        }
    }
}

/// A parser state after one document's contribution.
pub open spec fn after_load(pv: ParserV, dm: DocModel) -> ParserV {
    ParserV {
        defs: pv.defs + dm.defs,
        overrides: pv.overrides,
        version: if dm.version is Some {
            dm.version
        } else {
            pv.version
        },
        renderer: if dm.renderer is Some {
            dm.renderer
        } else {
            pv.renderer
        },
        nulls: pv.nulls,
    }
}

/// A parser state after one override document's contribution.
pub open spec fn after_override(pv: ParserV, dm: DocModel) -> ParserV {
    ParserV {
        defs: pv.defs,
        overrides: pv.overrides + dm.defs,
        version: if dm.version is Some {
            dm.version
        } else {
            pv.version
        },
        renderer: if dm.renderer is Some {
            dm.renderer
        } else {
            pv.renderer
        },
        nulls: pv.nulls,
    }
}

impl Parser {
    /// Parses one YAML document and folds its contribution into the
    /// accumulator: definitions append in order, a later `version` or
    /// `renderer` wins, registered null paths prune the document first. On
    /// any error the accumulator is unchanged; the cap on document size
    /// fails with a file-domain error, anything structural with a
    /// parser-domain one.
    pub fn load_yaml_from_string(&mut self, yaml: &str) -> (r: NetplanResult<()>)
        requires
            old(self).wf(),
        ensures
            final(self).wf(),
            final(self)@.nulls == old(self)@.nulls,
            final(self)@.overrides == old(self)@.overrides,
            (match load_outcome(yaml@, old(self)@.nulls) {
                Ok(dm) => r is Ok && final(self)@ == after_load(old(self)@, dm),
                Err(e) => final(self)@ == old(self)@ && (match r {
                    Ok(_) => false,
                    Err(err) => (e.0 ==> (err matches NetplanErrorDomains::NetplanFileError(m)
                        && m@ == e.1)) && (!e.0 ==> (err
                        matches NetplanErrorDomains::NetplanParserError(m2) && m2@ == e.1)),
                }),
            }),
    {
        let chars = str_to_chars(yaml);
        if chars.len() > MAX_DOC_CHARS {
            return Err(NetplanErrorDomains::NetplanFileError("data is too big".to_owned()));
        }
        let root = match parse_doc_x(&chars) {
            Ok(root) => root,
            Err(_) => {
                return Err(
                    NetplanErrorDomains::NetplanParserError("Invalid YAML document".to_owned()),
                );
            },
        };
        proof {
            lemma_entries_view(root);
            lemma_split_lines_count(chars@, 0);
            if split_lines(chars@).len() > 0 {
                lemma_parse_map_depth(split_lines(chars@), split_lines(chars@)[0].0);
            }
            assert(entries_depth(entries_view(root@)) <= 2200000 - 3);
        }
        let rootv = Value::Mapping(root);
        let applied = apply_nulls_x(rootv, &self.null_paths);
        proof {
            lemma_apply_nulls_depth(
                Node::Mapping(entries_view(root@)),
                paths_view(self.null_paths@),
                0,
            );
            lemma_view_variant(applied);
        }
        match applied {
            Value::Mapping(aes) => {
                proof {
                    lemma_entries_view(aes);
                }
                match read_doc(&aes) {
                    Ok((ver, ren, mut ds)) => {
                        proof {
                            let aesv = entries_view(aes@);
                            lemma_key_index(aesv, "network"@);
                            if map_has_key(aesv, "network"@) {
                                lemma_entries_depth_index(aesv, key_index(aesv, "network"@));
                                let body = map_get(aesv, "network"@);
                                if body is Mapping {
                                    lemma_conv_body_wf(body->Mapping_0);
                                }
                            }
                        }
                        let ghost old_defs = defs_view(self.netdefs@);
                        let ghost ds_v = defs_view(ds@);
                        self.netdefs.append(&mut ds);
                        proof {
                            assert(defs_view(self.netdefs@) =~= old_defs + ds_v);
                        }
                        match ver {
                            Some(vv) => {
                                self.version = Some(vv);
                            },
                            None => {},
                        }
                        match ren {
                            Some(rr) => {
                                self.renderer = Some(rr);
                            },
                            None => {},
                        }
                        Ok(())
                    },
                    Err(m) => Err(
                        NetplanErrorDomains::NetplanParserError(chars_to_string(&m)),
                    ),
                }
            },
            _ => Err(NetplanErrorDomains::NetplanParserError("Invalid YAML document".to_owned())),
        }
    }

    /// Registers a null patch: the paths of the patch document's explicit
    /// null leaves are removed from every document loaded afterwards. On
    /// any error the accumulator is unchanged.
    pub fn load_nullable_fields(&mut self, yaml: &str) -> (r: NetplanResult<()>)
        requires
            old(self).wf(),
        ensures
            final(self).wf(),
            (match nullable_outcome(yaml@) {
                Ok(ps) => r is Ok && final(self)@ == (ParserV {
                    nulls: old(self)@.nulls + ps,
                    ..old(self)@
                }),
                Err(m) => final(self)@ == old(self)@ && (match r {
                    Ok(_) => false,
                    Err(err) => err matches NetplanErrorDomains::NetplanFileError(em) && em@ == m,
                }),
            }),
    {
        let chars = str_to_chars(yaml);
        if chars.len() > MAX_DOC_CHARS {
            return Err(NetplanErrorDomains::NetplanFileError("data is too big".to_owned()));
        }
        let root = match parse_doc_x(&chars) {
            Ok(root) => root,
            Err(_) => {
                return Err(
                    NetplanErrorDomains::NetplanFileError(
                        "load_nullable_fields failed".to_owned(),
                    ),
                );
            },
        };
        proof {
            lemma_entries_view(root);
        }
        let rootv = Value::Mapping(root);
        let prefix: Vec<Vec<char>> = Vec::new();
        proof {
            assert(path_view(prefix@) =~= Seq::<Seq<char>>::empty());
        }
        collect_null_paths(&rootv, &prefix, &mut self.null_paths);
        Ok(())
    }

    /// Registers an override patch: the patch document's definitions are
    /// folded in last by the merge engine, so their values win over every
    /// loaded fragment. The constraint names the patch's provenance; in this
    /// model the override applies to the whole load, whatever fragment a
    /// value came from. On any error the accumulator is unchanged.
    pub fn load_nullable_overrides(&mut self, yaml: &str, constraints: &str) -> (r: NetplanResult<
        (),
    >)
        requires
            old(self).wf(),
        ensures
            final(self).wf(),
            (match override_outcome(yaml@) {
                Ok(dm) => r is Ok && final(self)@ == after_override(old(self)@, dm),
                Err(m) => final(self)@ == old(self)@ && (match r {
                    Ok(_) => false,
                    Err(err) => err matches NetplanErrorDomains::NetplanFileError(em) && em@ == m,
                }),
            }),
    {
        let _ = constraints;
        let chars = str_to_chars(yaml);
        if chars.len() > MAX_DOC_CHARS {
            return Err(NetplanErrorDomains::NetplanFileError("data is too big".to_owned()));
        }
        let root = match parse_doc_x(&chars) {
            Ok(root) => root,
            Err(_) => {
                return Err(
                    NetplanErrorDomains::NetplanFileError(
                        "load_nullable_overrides failed".to_owned(),
                    ),
                );
            },
        };
        proof {
            lemma_entries_view(root);
            lemma_split_lines_count(chars@, 0);
            if split_lines(chars@).len() > 0 {
                lemma_parse_map_depth(split_lines(chars@), split_lines(chars@)[0].0);
            }
        }
        match read_doc(&root) {
            Ok((ver, ren, mut ds)) => {
                proof {
                    let rv = entries_view(root@);
                    lemma_key_index(rv, "network"@);
                    if map_has_key(rv, "network"@) {
                        lemma_entries_depth_index(rv, key_index(rv, "network"@));
                        let body = map_get(rv, "network"@);
                        if body is Mapping {
                            lemma_conv_body_wf(body->Mapping_0);
                        }
                    }
                }
                let ghost old_ov = defs_view(self.override_defs@);
                let ghost ds_v = defs_view(ds@);
                self.override_defs.append(&mut ds);
                proof {
                    assert(defs_view(self.override_defs@) =~= old_ov + ds_v);
                }
                match ver {
                    Some(vv) => {
                        self.version = Some(vv);
                    },
                    None => {},
                }
                match ren {
                    Some(rr) => {
                        self.renderer = Some(rr);
                    },
                    None => {},
                }
                Ok(())
            },
            Err(_) => Err(
                NetplanErrorDomains::NetplanFileError("load_nullable_overrides failed".to_owned()),
            ),
        }
    }

    /// Hands the accumulator's parts to the merge engine: the definitions
    /// in arrival order, the override definitions, and the globals.
    pub fn into_parts(self) -> (r: (Vec<Netdef>, Vec<Netdef>, Option<i64>, Option<Vec<char>>))
        ensures
            defs_view(r.0@) == self@.defs,
            defs_view(r.1@) == self@.overrides,
            (match r.2 {
                Some(v) => self@.version == Some(v as int),
                None => self@.version is None,
            }),
            (match r.3 {
                Some(rr) => self@.renderer == Some(rr@),
                None => self@.renderer is None,
            }),
    {
        let Parser { netdefs, override_defs, version, renderer, null_paths } = self;
        let _ = null_paths;
        (netdefs, override_defs, version, renderer)
    }
}

/// The rendered message for a missing required connection key.
fn make_kf_missing(k: &str) -> (r: String)
    ensures
        r@ == crate::keyfile::kf_missing_msg(k@),
{
    let mut out: Vec<char> = Vec::new();
    crate::yaml::push_str(&mut out, "Keyfile: cannot find connection.");
    crate::yaml::push_str(&mut out, k);
    proof {
        assert(out@ =~= crate::keyfile::kf_missing_msg(k@));
    }
    chars_to_string(&out)
}

impl Parser {
    /// Reads one NetworkManager keyfile: the `[connection]` section must
    /// name an id, a type, an interface name and a uuid (keyfiles need a
    /// uuid to derive a stable id); the definition keeps every pair under
    /// its passthrough mapping. A missing required key is a file-domain
    /// error and leaves the accumulator unchanged.
    pub fn load_keyfile_from_string(&mut self, content: &str) -> (r: NetplanResult<()>)
        requires
            old(self).wf(),
        ensures
            final(self).wf(),
            (match crate::keyfile::keyfile_outcome(content@) {
                Ok(nd) => r is Ok && final(self)@ == (ParserV {
                    defs: old(self)@.defs + seq![nd],
                    ..old(self)@
                }),
                Err(m) => final(self)@ == old(self)@ && (match r {
                    Ok(_) => false,
                    Err(e) => e matches NetplanErrorDomains::NetplanFileError(em) && em@ == m,
                }),
            }),
    {
        let chars = str_to_chars(content);
        if chars.len() > MAX_DOC_CHARS {
            return Err(NetplanErrorDomains::NetplanFileError("data is too big".to_owned()));
        }
        let lines = split_lines_exec(&chars);
        if crate::keyfile::kf_find_exec(&lines, "connection", "id").is_none() {
            return Err(NetplanErrorDomains::NetplanFileError(make_kf_missing("id")));
        }
        let ctype = match crate::keyfile::kf_find_exec(&lines, "connection", "type") {
            Some(t) => t,
            None => {
                return Err(NetplanErrorDomains::NetplanFileError(make_kf_missing("type")));
            },
        };
        let ifname = match crate::keyfile::kf_find_exec(&lines, "connection", "interface-name") {
            Some(t) => t,
            None => {
                return Err(
                    NetplanErrorDomains::NetplanFileError(make_kf_missing("interface-name")),
                );
            },
        };
        if crate::keyfile::kf_find_exec(&lines, "connection", "uuid").is_none() {
            return Err(NetplanErrorDomains::NetplanFileError(make_kf_missing("uuid")));
        }
        let kind = crate::netdef::kind_of_connection_type(&ctype);
        let pairs = crate::keyfile::kf_pairs_exec(&lines);
        let ghost pairsv = entries_view(pairs@);
        proof {
            lemma_entries_view(pairs);
            crate::keyfile::lemma_kf_pairs_depth(
                crate::parse::lines_view(lines@),
                0,
                Seq::empty(),
            );
        }
        let mut inner: Vec<(Vec<char>, Value)> = Vec::new();
        let pkey = str_to_chars("passthrough");
        let pval = Value::Mapping(pairs);
        proof {
            assert(pval@ == Node::Mapping(pairsv));
        }
        let ghost pvalv = pval@;
        inner.push((pkey, pval));
        proof {
            assert(inner@[0].0@ == "passthrough"@);
            assert(inner@[0].1@ == Node::Mapping(pairsv));
            assert(entries_view(inner@) =~= seq![("passthrough"@, Node::Mapping(pairsv))]);
            assert(entries_depth(pairsv) == 0);
            assert(node_depth(Node::Mapping(pairsv)) == 1 + entries_depth(pairsv));
            assert(entries_depth(entries_view(inner@)) <= 1) by {
                assert(entries_view(inner@)[0].1 == Node::Mapping(pairsv));
                assert(entries_view(inner@).skip(1) =~= Seq::<(Seq<char>, Node)>::empty());
                assert(entries_depth(Seq::<(Seq<char>, Node)>::empty()) == 0);
            }
            lemma_entries_view(inner);
        }
        let nd = Netdef {
            id: chars_to_string(&ifname),
            kind,
            properties: Value::Mapping(inner),
        };
        proof {
            assert(nd@.props == Node::Mapping(entries_view(inner@)));
            assert(nd@ == crate::keyfile::keyfile_outcome(content@)->Ok_0);
        }
        let ghost old_defs = defs_view(self.netdefs@);
        self.netdefs.push(nd);
        proof {
            assert(defs_view(self.netdefs@) =~= old_defs.push(
                crate::keyfile::keyfile_outcome(content@)->Ok_0,
            ));
            assert(old_defs.push(crate::keyfile::keyfile_outcome(content@)->Ok_0) =~= old_defs
                + seq![crate::keyfile::keyfile_outcome(content@)->Ok_0]);
        }
        Ok(())
    }
}

/// One configuration fragment handed to the hierarchy loader: its
/// precedence tier (lowest loads first), its file name within the tier, and
/// its content.
pub struct Fragment {
    pub tier: u64,
    pub name: String,
    pub content: String,
}

/// The view of a fragment.
#[verifier::ext_equal]
pub struct FragmentV {
    pub tier: int,
    pub name: Seq<char>,
    pub content: Seq<char>,
}

impl View for Fragment {
    type V = FragmentV;

    open spec fn view(&self) -> FragmentV {
        FragmentV { tier: self.tier as int, name: self.name@, content: self.content@ }
    }
}

/// The views of a fragment list.
pub open spec fn frags_view(s: Seq<Fragment>) -> Seq<FragmentV> {
    Seq::new(
        s.len(),
        |i: int|
            if 0 <= i < s.len() {
                s[i]@
            } else {
                FragmentV { tier: 0, name: Seq::empty(), content: Seq::empty() }
            },
    )
}

/// Lexicographic order on names.
pub open spec fn lex_le(a: Seq<char>, b: Seq<char>) -> bool
    decreases a.len(),
{
    if a.len() == 0 {
        true
    } else if b.len() == 0 {
        false
    } else if a[0] != b[0] {
        a[0] < b[0]
    } else {
        lex_le(a.skip(1), b.skip(1))
    }
}

/// Lexicographic order is total.
pub proof fn lemma_lex_le_total(a: Seq<char>, b: Seq<char>)
    ensures
        lex_le(a, b) || lex_le(b, a),
    decreases a.len(),
{
    if a.len() > 0 && b.len() > 0 && a[0] == b[0] {
        lemma_lex_le_total(a.skip(1), b.skip(1));
    }
}

/// Lexicographic order is transitive.
pub proof fn lemma_lex_le_trans(a: Seq<char>, b: Seq<char>, c: Seq<char>)
    requires
        lex_le(a, b),
        lex_le(b, c),
    ensures
        lex_le(a, c),
    decreases a.len(),
{
    if a.len() > 0 && b.len() > 0 && c.len() > 0 && a[0] == b[0] && b[0] == c[0] {
        lemma_lex_le_trans(a.skip(1), b.skip(1), c.skip(1));
    }
}

/// Fragment precedence: tier first, then file name.
pub open spec fn frag_le(a: FragmentV, b: FragmentV) -> bool {
    a.tier < b.tier || (a.tier == b.tier && lex_le(a.name, b.name))
}

/// Whether a fragment list is in loading order.
pub open spec fn frags_sorted(s: Seq<FragmentV>) -> bool {
    forall|i: int, j: int| 0 <= i < j < s.len() ==> frag_le(#[trigger] s[i], #[trigger] s[j])
}

/// Lexicographic comparison of two names.
#[verifier::loop_isolation(false)]
fn lex_le_exec(a: &Vec<char>, b: &Vec<char>) -> (r: bool)
    ensures
        r == lex_le(a@, b@),
{
    let mut i: usize = 0;
    proof {
        assert(a@.skip(0) =~= a@);
        assert(b@.skip(0) =~= b@);
    }
    while i < a.len() && i < b.len() && a[i] == b[i]
        invariant
            0 <= i <= a@.len(),
            i <= b@.len(),
            lex_le(a@, b@) == lex_le(a@.skip(i as int), b@.skip(i as int)),
        decreases a@.len() - i,
    {
        proof {
            assert(a@.skip(i as int)[0] == a@[i as int]);
            assert(b@.skip(i as int)[0] == b@[i as int]);
            assert(a@.skip(i as int).skip(1) =~= a@.skip(i + 1 as int));
            assert(b@.skip(i as int).skip(1) =~= b@.skip(i + 1 as int));
        }
        i = i + 1;
    }
    proof {
        if i < a@.len() {
            assert(a@.skip(i as int)[0] == a@[i as int]);
        }
        if i < b@.len() {
            assert(b@.skip(i as int)[0] == b@[i as int]);
        }
    }
    if i >= a.len() {
        true
    } else if i >= b.len() {
        false
    } else {
        a[i] < b[i]
    }
}

/// Fragment precedence comparison.
fn frag_le_exec(a: &Fragment, b: &Fragment) -> (r: bool)
    ensures
        r == frag_le(a@, b@),
{
    if a.tier < b.tier {
        true
    } else if a.tier > b.tier {
        false
    } else {
        let an = str_to_chars(a.name.as_str());
        let bn = str_to_chars(b.name.as_str());
        lex_le_exec(&an, &bn)
    }
}

/// Sorts fragments into loading order: tier first, then file name. The
/// result is a permutation of the input.
#[verifier::loop_isolation(false)]
pub fn sort_fragments(v: Vec<Fragment>) -> (r: Vec<Fragment>)
    ensures
        frags_view(r@).to_multiset() == frags_view(v@).to_multiset(),
        frags_sorted(frags_view(r@)),
{
    broadcast use vstd::seq_lib::group_to_multiset_ensures;

    let ghost orig = frags_view(v@).to_multiset();
    let mut work = v;
    let mut out: Vec<Fragment> = Vec::new();
    while work.len() > 0
        invariant
            frags_view(out@).to_multiset().add(frags_view(work@).to_multiset()) =~= orig,
            frags_sorted(frags_view(out@)),
            forall|i: int, j: int|
                0 <= i < out@.len() && 0 <= j < work@.len() ==> frag_le(
                    #[trigger] frags_view(out@)[i],
                    #[trigger] frags_view(work@)[j],
                ),
        decreases work@.len(),
    {
        // find the first minimal element
        let mut mi: usize = 0;
        let mut t: usize = 1;
        proof {
            assert(frags_view(work@)[0] == work@[0]@);
            lemma_frag_le_refl(frags_view(work@)[0]);
        }
        while t < work.len()
            invariant
                0 <= mi < work@.len(),
                mi < t <= work@.len() || (mi == 0 && t <= work@.len()),
                t <= work@.len(),
                forall|j: int|
                    0 <= j < t ==> frag_le(
                        frags_view(work@)[mi as int],
                        #[trigger] frags_view(work@)[j],
                    ),
            decreases work@.len() - t,
        {
            proof {
                assert(frags_view(work@)[t as int] == work@[t as int]@);
                assert(frags_view(work@)[mi as int] == work@[mi as int]@);
            }
            if frag_le_exec(&work[t], &work[mi]) && !frag_le_exec(&work[mi], &work[t]) {
                proof {
                    assert forall|j: int|
                        0 <= j < t + 1 implies frag_le(
                        frags_view(work@)[t as int],
                        #[trigger] frags_view(work@)[j],
                    ) by {
                        if j < t {
                            lemma_frag_le_trans(
                                frags_view(work@)[t as int],
                                frags_view(work@)[mi as int],
                                frags_view(work@)[j],
                            );
                        } else {
                            lemma_frag_le_refl(frags_view(work@)[t as int]);
                        }
                    }
                }
                mi = t;
            } else {
                proof {
                    lemma_frag_le_total(frags_view(work@)[mi as int], frags_view(work@)[t as int]);
                }
            }
            t = t + 1;
        }
        proof {
            assert(frags_view(work@)[mi as int] == work@[mi as int]@);
        }
        let ghost workv_pre = frags_view(work@);
        let ghost outv_pre = frags_view(out@);
        let m = work.remove(mi);
        out.push(m);
        proof {
            assert(frags_view(work@) =~= workv_pre.remove(mi as int));
            assert(frags_view(out@) =~= outv_pre.push(workv_pre[mi as int]));
            assert(frags_view(out@).to_multiset() =~= outv_pre.to_multiset().insert(
                workv_pre[mi as int],
            ));
            assert(frags_view(work@).to_multiset() =~= workv_pre.to_multiset().remove(
                workv_pre[mi as int],
            ));
            assert(workv_pre.to_multiset().count(workv_pre[mi as int]) > 0);
            assert(frags_view(out@).to_multiset().add(frags_view(work@).to_multiset())
                =~= outv_pre.to_multiset().add(workv_pre.to_multiset()));
            assert forall|i: int, j: int|
                0 <= i < j < frags_view(out@).len() implies frag_le(
                #[trigger] frags_view(out@)[i],
                #[trigger] frags_view(out@)[j],
            ) by {
                if j < frags_view(out@).len() - 1 {
                    assert(frags_view(out@)[i] == outv_pre[i]);
                    assert(frags_view(out@)[j] == outv_pre[j]);
                } else {
                    assert(frags_view(out@)[j] == workv_pre[mi as int]);
                    if i < outv_pre.len() {
                        assert(frags_view(out@)[i] == outv_pre[i]);
                    }
                }
            }
            assert forall|i: int, j: int|
                0 <= i < frags_view(out@).len() && 0 <= j < frags_view(work@).len() implies
                frag_le(#[trigger] frags_view(out@)[i], #[trigger] frags_view(work@)[j]) by {
                let wj = frags_view(work@)[j];
                assert(wj == (if j < mi {
                    workv_pre[j]
                } else {
                    workv_pre[j + 1]
                }));
                if i < outv_pre.len() {
                    assert(frags_view(out@)[i] == outv_pre[i]);
                } else {
                    assert(frags_view(out@)[i] == workv_pre[mi as int]);
                }
            }
        }
    }
    proof {
        assert(frags_view(work@).to_multiset() =~= vstd::multiset::Multiset::<FragmentV>::empty());
        assert(frags_view(out@).to_multiset() =~= orig);
    }
    out
}

/// Fragment precedence is reflexive.
pub proof fn lemma_frag_le_refl(a: FragmentV)
    ensures
        frag_le(a, a),
{
    lemma_lex_le_total(a.name, a.name);
}

/// Fragment precedence is total.
pub proof fn lemma_frag_le_total(a: FragmentV, b: FragmentV)
    ensures
        frag_le(a, b) || frag_le(b, a),
{
    lemma_lex_le_total(a.name, b.name);
}

/// Fragment precedence is transitive.
pub proof fn lemma_frag_le_trans(a: FragmentV, b: FragmentV, c: FragmentV)
    requires
        frag_le(a, b),
        frag_le(b, c),
    ensures
        frag_le(a, c),
{
    if a.tier == b.tier && b.tier == c.tier {
        lemma_lex_le_trans(a.name, b.name, c.name);
    }
}

/// Folding a list of fragments into a parser, in order: each document's
/// contribution in turn, the first error aborting the whole load.
pub open spec fn load_all(pv: ParserV, frs: Seq<FragmentV>, i: int) -> Result<
    ParserV,
    (bool, Seq<char>),
>
    decreases frs.len() - i,
{
    if i < 0 || i >= frs.len() {
        Ok(pv)
    } else {
        match load_outcome(frs[i].content, pv.nulls) {
            Err(e) => Err(e),
            Ok(dm) => load_all(after_load(pv, dm), frs, i + 1),
        }
    }
}

impl Parser {
    /// Loads a set of configuration fragments in deterministic order:
    /// lowest tier first, file names lexicographically within a tier, so
    /// later names override earlier ones with the same id. The first error
    /// aborts the whole load.
    #[verifier::loop_isolation(false)]
    pub fn load_yaml_hierarchy(&mut self, fragments: Vec<Fragment>) -> (r: NetplanResult<()>)
        requires
            old(self).wf(),
        ensures
            final(self).wf(),
            exists|ord: Seq<FragmentV>|
                {
                    &&& ord.to_multiset() == frags_view(fragments@).to_multiset()
                    &&& #[trigger] frags_sorted(ord)
                    &&& (match load_all(old(self)@, ord, 0) {
                        Ok(pv2) => r is Ok && final(self)@ == pv2,
                        Err(e) => r is Err && (e.0 ==> (r->Err_0
                            matches NetplanErrorDomains::NetplanFileError(m) && m@ == e.1)) && (
                        !e.0 ==> (r->Err_0 matches NetplanErrorDomains::NetplanParserError(m)
                            && m@ == e.1))
                    })
                },
    {
        let sorted = sort_fragments(fragments);
        let ghost ord = frags_view(sorted@);
        let mut i: usize = 0;
        while i < sorted.len()
            invariant
                0 <= i <= sorted@.len(),
                self.wf(),
                self@.nulls == old(self)@.nulls,
                load_all(old(self)@, ord, 0) == load_all(self@, ord, i as int),
            decreases sorted@.len() - i,
        {
            proof {
                assert(ord[i as int] == sorted@[i as int]@);
            }
            let ghost pre = self@;
            match self.load_yaml_from_string(sorted[i].content.as_str()) {
                Ok(_) => {
                    proof {
                        assert(load_all(pre, ord, i as int) == load_all(self@, ord, i + 1));
                    }
                },
                Err(e) => {
                    proof {
                        assert(frags_sorted(ord));
                        assert(load_all(pre, ord, i as int) is Err);
                    }
                    return Err(e);
                },
            }
            i = i + 1;
        }
        proof {
            assert(frags_sorted(ord));
            assert(load_all(self@, ord, sorted@.len() as int) == Ok::<ParserV, (bool, Seq<char>)>(
                self@,
            ));
        }
        Ok(())
    }
}

} // verus!
