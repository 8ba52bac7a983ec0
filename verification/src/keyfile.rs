//! The keyfile reader: an INI-style document with a `[connection]` section
//! that must name an id, a type, an interface name and a uuid; every pair
//! is kept under the definition's passthrough mapping.

use vstd::prelude::*;

use crate::netdef::{spec_kind_of_connection_type, NetdefType, NetdefV};
use crate::parse::{lines_view, split_lines};
use crate::value::{entries_view, Node, Value};

verus! {

/// The index of the first equals sign at or after `i`, or the line's
/// length.
pub open spec fn eq_end(s: Seq<char>, i: int) -> int
    decreases s.len() - i,
{
    if i < 0 || i >= s.len() || s[i] == '=' {
        i
    } else {
        eq_end(s, i + 1)
    }
}

/// Whether a line opens a section.
pub open spec fn is_section_line(s: Seq<char>) -> bool {
    s.len() >= 2 && s[0] == '[' && s[s.len() - 1] == ']'
}

/// The name a section line carries.
pub open spec fn section_name(s: Seq<char>) -> Seq<char> {
    s.subrange(1, s.len() - 1)
}

/// The first value of key `k` in section `sec`, scanning from line `i`
/// while inside section `cur`.
pub open spec fn kf_find(
    ls: Seq<(nat, Seq<char>)>,
    i: int,
    cur: Seq<char>,
    sec: Seq<char>,
    k: Seq<char>,
) -> Option<Seq<char>>
    decreases ls.len() - i,
{
    if i < 0 || i >= ls.len() {
        None
    } else {
        let s = ls[i].1;
        if is_section_line(s) {
            kf_find(ls, i + 1, section_name(s), sec, k)
        } else {
            let e = eq_end(s, 0);
            if cur == sec && e < s.len() && s.subrange(0, e) == k {
                Some(s.subrange(e + 1, s.len() as int))
            } else {
                kf_find(ls, i + 1, cur, sec, k)
            }
        }
    }
}

/// Every `key=value` pair of the document, keyed `section.key`, in order.
pub open spec fn kf_pairs(ls: Seq<(nat, Seq<char>)>, i: int, cur: Seq<char>) -> Seq<
    (Seq<char>, Node),
>
    decreases ls.len() - i,
{
    if i < 0 || i >= ls.len() {
        Seq::empty()
    } else {
        let s = ls[i].1;
        if is_section_line(s) {
            kf_pairs(ls, i + 1, section_name(s))
        } else {
            let e = eq_end(s, 0);
            if e < s.len() {
                seq![
                    (cur + "."@ + s.subrange(0, e), Node::Str(s.subrange(e + 1, s.len() as int))),
                ] + kf_pairs(ls, i + 1, cur)
            } else {
                kf_pairs(ls, i + 1, cur)
            }
        }
    }
}

/// The file-domain message for a required connection key that is missing.
pub open spec fn kf_missing_msg(k: Seq<char>) -> Seq<char> {
    "Keyfile: cannot find connection."@ + k
}

/// What reading one keyfile yields: a definition whose id is the connection
/// interface name, whose kind the connection type names, and whose
/// properties keep every pair under `passthrough`; or the file-domain error
/// naming the first missing required connection key.
pub open spec fn keyfile_outcome(text: Seq<char>) -> Result<NetdefV, Seq<char>> {
    if text.len() > crate::parser::MAX_DOC_CHARS {
        Err("data is too big"@)
    } else {
        let ls = split_lines(text);
        let none_sec = Seq::<char>::empty();
        if kf_find(ls, 0, none_sec, "connection"@, "id"@) is None {
            Err(kf_missing_msg("id"@))
        } else if kf_find(ls, 0, none_sec, "connection"@, "type"@) is None {
            Err(kf_missing_msg("type"@))
        } else if kf_find(ls, 0, none_sec, "connection"@, "interface-name"@) is None {
            Err(kf_missing_msg("interface-name"@))
        } else if kf_find(ls, 0, none_sec, "connection"@, "uuid"@) is None {
            Err(kf_missing_msg("uuid"@))
        } else {
            let ifname = kf_find(ls, 0, none_sec, "connection"@, "interface-name"@)->Some_0;
            let ctype = kf_find(ls, 0, none_sec, "connection"@, "type"@)->Some_0;
            Ok(
                NetdefV {
                    id: ifname,
                    kind: spec_kind_of_connection_type(ctype),
                    props: Node::Mapping(
                        seq![
                            ("passthrough"@, Node::Mapping(kf_pairs(ls, 0, Seq::empty()))),
                        ],
                    ),
                },
            )
        }
    }
}

/// Scans for the first value of key `k` in section `sec`; see `kf_find`.
#[verifier::loop_isolation(false)]
pub fn kf_find_exec(lines: &Vec<(usize, Vec<char>)>, sec: &str, k: &str) -> (r: Option<Vec<char>>)
    ensures
        (match r {
            Some(v) => kf_find(lines_view(lines@), 0, Seq::empty(), sec@, k@) == Some(v@),
            None => kf_find(lines_view(lines@), 0, Seq::empty(), sec@, k@) is None,
        }),
{
    let ghost lsv = lines_view(lines@);
    let mut cur: Vec<char> = Vec::new();
    proof {
        assert(cur@ =~= Seq::<char>::empty());
    }
    let mut i: usize = 0;
    while i < lines.len()
        invariant
            0 <= i <= lines@.len(),
            kf_find(lsv, 0, Seq::empty(), sec@, k@) == kf_find(lsv, i as int, cur@, sec@, k@),
        decreases lines@.len() - i,
    {
        proof {
            assert(lsv[i as int] == (lines@[i as int].0 as nat, lines@[i as int].1@));
        }
        let s = &lines[i].1;
        let slen = s.len();
        if slen >= 2 && s[0] == '[' && s[slen - 1] == ']' {
            cur = crate::parse::subrange_chars(s, 1, slen - 1);
        } else {
            let mut e: usize = 0;
            while e < slen && s[e] != '='
                invariant
                    0 <= e <= s@.len(),
                    slen == s@.len(),
                    eq_end(s@, 0) == eq_end(s@, e as int),
                decreases s@.len() - e,
            {
                e = e + 1;
            }
            proof {
                assert(eq_end(s@, e as int) == e);
            }
            if e < slen {
                let keyc = crate::parse::subrange_chars(s, 0, e);
                if crate::chars::chars_eq_str(&cur, sec) && crate::chars::chars_eq_str(&keyc, k) {
                    return Some(crate::parse::subrange_chars(s, e + 1, slen));
                }
            }
        }
        i = i + 1;
    }
    None
}

/// Collects every pair keyed `section.key`; see `kf_pairs`.
#[verifier::loop_isolation(false)]
pub fn kf_pairs_exec(lines: &Vec<(usize, Vec<char>)>) -> (r: Vec<(Vec<char>, Value)>)
    ensures
        entries_view(r@) == kf_pairs(lines_view(lines@), 0, Seq::empty()),
{
    let ghost lsv = lines_view(lines@);
    let mut cur: Vec<char> = Vec::new();
    proof {
        assert(cur@ =~= Seq::<char>::empty());
        assert(Seq::<(Seq<char>, Node)>::empty() + kf_pairs(lsv, 0, Seq::empty()) =~= kf_pairs(
            lsv,
            0,
            Seq::empty(),
        ));
    }
    let mut out: Vec<(Vec<char>, Value)> = Vec::new();
    let mut i: usize = 0;
    while i < lines.len()
        invariant
            0 <= i <= lines@.len(),
            entries_view(out@) + kf_pairs(lsv, i as int, cur@) == kf_pairs(
                lsv,
                0,
                Seq::empty(),
            ),
        decreases lines@.len() - i,
    {
        proof {
            assert(lsv[i as int] == (lines@[i as int].0 as nat, lines@[i as int].1@));
        }
        let ghost before = entries_view(out@);
        let s = &lines[i].1;
        let slen = s.len();
        if slen >= 2 && s[0] == '[' && s[slen - 1] == ']' {
            cur = crate::parse::subrange_chars(s, 1, slen - 1);
        } else {
            let mut e: usize = 0;
            while e < slen && s[e] != '='
                invariant
                    0 <= e <= s@.len(),
                    slen == s@.len(),
                    eq_end(s@, 0) == eq_end(s@, e as int),
                decreases s@.len() - e,
            {
                e = e + 1;
            }
            proof {
                assert(eq_end(s@, e as int) == e);
            }
            if e < slen {
                let mut keyc = crate::value::clone_chars(&cur);
                keyc.push('.');
                let kp = crate::parse::subrange_chars(s, 0, e);
                let mut t: usize = 0;
                while t < kp.len()
                    invariant
                        0 <= t <= kp@.len(),
                        keyc@ == cur@ + seq!['.'] + kp@.take(t as int),
                    decreases kp@.len() - t,
                {
                    keyc.push(kp[t]);
                    proof {
                        assert(keyc@ =~= cur@ + seq!['.'] + kp@.take(t + 1 as int));
                    }
                    t = t + 1;
                }
                proof {
                    assert(keyc@ =~= cur@ + "."@ + s@.subrange(0, e as int)) by {
                        reveal_strlit(".");
                        assert(kp@.take(kp@.len() as int) =~= kp@);
                    }
                }
                let valc = crate::parse::subrange_chars(s, e + 1, slen);
                out.push((keyc, Value::Str(valc)));
                proof {
                    assert(entries_view(out@) =~= before + seq![
                        (
                            cur@ + "."@ + s@.subrange(0, e as int),
                            Node::Str(s@.subrange(e + 1, s@.len() as int)),
                        ),
                    ]);
                    assert((before + seq![
                        (
                            cur@ + "."@ + s@.subrange(0, e as int),
                            Node::Str(s@.subrange(e + 1, s@.len() as int)),
                        ),
                    ]) + kf_pairs(lsv, i + 1 as int, cur@) =~= before + (seq![
                        (
                            cur@ + "."@ + s@.subrange(0, e as int),
                            Node::Str(s@.subrange(e + 1, s@.len() as int)),
                        ),
                    ] + kf_pairs(lsv, i + 1 as int, cur@)));
                }
            }
        }
        i = i + 1;
    }
    proof {
        assert(kf_pairs(lsv, lines@.len() as int, cur@) =~= Seq::<(Seq<char>, Node)>::empty());
        assert(entries_view(out@) + Seq::<(Seq<char>, Node)>::empty() =~= entries_view(out@));
    }
    out
}

/// Every collected pair's value is a plain string, so the pairs sit at
/// depth zero.
pub proof fn lemma_kf_pairs_depth(ls: Seq<(nat, Seq<char>)>, i: int, cur: Seq<char>)
    ensures
        crate::value::entries_depth(kf_pairs(ls, i, cur)) == 0,
    decreases ls.len() - i,
{
    if 0 <= i < ls.len() {
        let s = ls[i].1;
        if is_section_line(s) {
            lemma_kf_pairs_depth(ls, i + 1, section_name(s));
        } else {
            lemma_kf_pairs_depth(ls, i + 1, cur);
            let e = eq_end(s, 0);
            if e < s.len() {
                let whole = kf_pairs(ls, i, cur);
                assert(whole[0].1 == Node::Str(s.subrange(e + 1, s.len() as int)));
                assert(whole.skip(1) =~= kf_pairs(ls, i + 1, cur));
                assert(crate::value::entries_depth(whole) == crate::value::nat_max(
                    crate::value::node_depth(whole[0].1),
                    crate::value::entries_depth(whole.skip(1)),
                ));
            }
        }
    } else {
        assert(kf_pairs(ls, i, cur) =~= Seq::<(Seq<char>, Node)>::empty());
        assert(crate::value::entries_depth(Seq::<(Seq<char>, Node)>::empty()) == 0);
    }
}

} // verus!
