//! Patch construction: building a minimal document whose nested structure
//! mirrors a dotted path and whose leaf is a literal payload.

use vstd::prelude::*;

use crate::chars::{chars_to_string, str_to_chars};
use crate::parse::scalar_of;
use crate::state::{
    lemma_split_dots_count, lemma_wrap_depth, split_dots_from, wrap_path,
};
use crate::value::{entries_depth, entries_view, node_depth, Node, Value};
use crate::yaml::{emit_entries, emit_entries_exec};

verus! {

/// The patch document a dotted path and a one-line payload spell: the
/// path's components nested as one-entry mappings, the payload read as a
/// scalar at the leaf. `None` when a component is empty or an input is
/// beyond the size cap.
pub open spec fn patch_chars(path: Seq<char>, payload: Seq<char>) -> Option<Seq<char>> {
    let cs = split_dots_from(path, 0);
    if path.len() > 1000000 || payload.len() > 1000000 {
        None
    } else if exists|i: int| 0 <= i < cs.len() && (#[trigger] cs[i]).len() == 0 {
        None
    } else {
        Some(emit_entries(seq![(cs[0], wrap_path(cs, 1, scalar_of(payload)))], 0))
    }
}

/// Builds the minimal document whose nested structure mirrors the dotted
/// path and whose leaf is the payload; see `patch_chars`.
#[verifier::loop_isolation(false)]
pub fn netplan_create_yaml_patch(conf_obj_path: &str, obj_payload: &str) -> (r: Result<
    String,
    String,
>)
    ensures
        (match patch_chars(conf_obj_path@, obj_payload@) {
            Some(cs) => r matches Ok(s) && s@ == cs,
            None => r matches Err(m) && m@ == "create_yaml_patch failed"@,
        }),
{
    let pathc = str_to_chars(conf_obj_path);
    let payloadc = str_to_chars(obj_payload);
    if pathc.len() > 1000000 || payloadc.len() > 1000000 {
        return Err("create_yaml_patch failed".to_owned());
    }
    let comps = crate::state::split_dots_exec(&pathc);
    let ghost cs = split_dots_from(pathc@, 0);
    proof {
        lemma_split_dots_count(pathc@, 0);
    }
    let mut i: usize = 0;
    while i < comps.len()
        invariant
            0 <= i <= comps@.len(),
            forall|j: int| 0 <= j < i ==> (#[trigger] cs[j]).len() != 0,
        decreases comps@.len() - i,
    {
        proof {
            assert(cs[i as int] == comps@[i as int]@);
        }
        if comps[i].len() == 0 {
            return Err("create_yaml_patch failed".to_owned());
        }
        i = i + 1;
    }
    let leaf = crate::parse::scalar_of_chars(&payloadc);
    proof {
        crate::parse::lemma_scalar_depth(payloadc@);
    }
    let ghost leafn = leaf@;
    let mut w = leaf;
    let mut t: usize = comps.len();
    while t > 1
        invariant
            1 <= t <= comps@.len(),
            w@ == wrap_path(cs, t as int, leafn),
        decreases t,
    {
        t = t - 1;
        proof {
            assert(cs[t as int] == comps@[t as int]@);
        }
        let kc = crate::value::clone_chars(&comps[t]);
        let mut entry: Vec<(Vec<char>, Value)> = Vec::new();
        entry.push((kc, w));
        proof {
            crate::value::lemma_entries_view(entry);
            assert(entries_view(entry@) =~= seq![(cs[t as int], wrap_path(cs, t + 1, leafn))]);
        }
        w = Value::Mapping(entry);
    }
    proof {
        assert(w@ == wrap_path(cs, 1, leafn));
        lemma_wrap_depth(cs, 1, leafn);
    }
    let mut outer: Vec<(Vec<char>, Value)> = Vec::new();
    let k0 = crate::value::clone_chars(&comps[0]);
    outer.push((k0, w));
    proof {
        assert(cs[0] == comps@[0]@);
        assert(entries_view(outer@) =~= seq![(cs[0], wrap_path(cs, 1, leafn))]);
        assert(entries_depth(entries_view(outer@)) <= node_depth(wrap_path(cs, 1, leafn))) by {
            assert(entries_view(outer@)[0].1 == wrap_path(cs, 1, leafn));
            assert(entries_view(outer@).skip(1) =~= Seq::<(Seq<char>, Node)>::empty());
            assert(entries_depth(Seq::<(Seq<char>, Node)>::empty()) == 0);
        }
    }
    let mut out: Vec<char> = Vec::new();
    emit_entries_exec(&outer, 0, &mut out);
    Ok(chars_to_string(&out))
}

} // verus!
