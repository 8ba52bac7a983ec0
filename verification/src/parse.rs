//! The document parser, first half: splitting a text into indented lines,
//! classifying a line's content, and reading scalars.

use vstd::prelude::*;

use crate::chars::chars_eq_str;
use crate::value::{Node, Value};

verus! {

/// The index of the first newline at or after `i`, or the text's length.
pub open spec fn line_end(text: Seq<char>, i: int) -> int
    decreases text.len() - i,
{
    if i < 0 || i >= text.len() || text[i] == '\n' {
        i
    } else {
        line_end(text, i + 1)
    }
}

/// `line_end` stays within the text, at or after `i`, and everything before
/// it on the line is not a newline.
pub proof fn lemma_line_end(text: Seq<char>, i: int)
    requires
        0 <= i <= text.len(),
    ensures
        i <= line_end(text, i) <= text.len(),
        line_end(text, i) < text.len() ==> text[line_end(text, i)] == '\n',
        forall|j: int| i <= j < line_end(text, i) ==> text[j] != '\n',
    decreases text.len() - i,
{
    if i < text.len() && text[i] != '\n' {
        lemma_line_end(text, i + 1);
    }
}

/// The index of the first character at or after `i` that is not a space, or
/// the end of the sequence.
pub open spec fn skip_spaces(s: Seq<char>, i: int) -> int
    decreases s.len() - i,
{
    if i < 0 || i >= s.len() || s[i] != ' ' {
        i
    } else {
        skip_spaces(s, i + 1)
    }
}

pub proof fn lemma_skip_spaces(s: Seq<char>, i: int)
    requires
        0 <= i <= s.len(),
    ensures
        i <= skip_spaces(s, i) <= s.len(),
        skip_spaces(s, i) < s.len() ==> s[skip_spaces(s, i)] != ' ',
        forall|j: int| i <= j < skip_spaces(s, i) ==> s[j] == ' ',
    decreases s.len() - i,
{
    if i < s.len() && s[i] == ' ' {
        lemma_skip_spaces(s, i + 1);
    }
}

/// The lines of a text, each as its indentation width and its content after
/// the indentation. Blank lines and comment lines are left out.
pub open spec fn split_lines_from(text: Seq<char>, i: int) -> Seq<(nat, Seq<char>)>
    decreases text.len() - i,
    via split_lines_from_decreases
{
    if i < 0 || i >= text.len() {
        Seq::empty()
    } else {
        let e = line_end(text, i);
        let ind = skip_spaces(text, i);
        let rest = if e < text.len() {
            split_lines_from(text, e + 1)
        } else {
            Seq::empty()
        };
        if ind >= e {
            rest
        } else {
            let content = text.subrange(ind, e);
            if content[0] == '#' {
                rest
            } else {
                seq![(((ind - i)) as nat, content)] + rest
            }
        }
    }
}

#[via_fn]
proof fn split_lines_from_decreases(text: Seq<char>, i: int) {
    if 0 <= i < text.len() {
        lemma_line_end(text, i);
    }
}

/// The lines of a whole text.
pub open spec fn split_lines(text: Seq<char>) -> Seq<(nat, Seq<char>)> {
    split_lines_from(text, 0)
}

/// The views of parsed lines.
pub open spec fn lines_view(ls: Seq<(usize, Vec<char>)>) -> Seq<(nat, Seq<char>)> {
    Seq::new(
        ls.len(),
        |i: int|
            if 0 <= i < ls.len() {
                (ls[i].0 as nat, ls[i].1@)
            } else {
                (0nat, Seq::<char>::empty())
            },
    )
}

/// Splits a text into its indented lines.
#[verifier::loop_isolation(false)]
pub fn split_lines_exec(text: &Vec<char>) -> (r: Vec<(usize, Vec<char>)>)
    requires
        text@.len() < usize::MAX,
    ensures
        lines_view(r@) == split_lines(text@),
{
    let mut out: Vec<(usize, Vec<char>)> = Vec::new();
    let mut i: usize = 0;
    while i < text.len()
        invariant
            0 <= i <= text@.len() + 1,
            split_lines(text@) == lines_view(out@) + split_lines_from(text@, i as int),
        decreases text@.len() + 1 - i,
    {
        proof {
            lemma_line_end(text@, i as int);
            lemma_skip_spaces(text@, i as int);
        }
        // find the end of the line
        let mut e: usize = i;
        while e < text.len() && text[e] != '\n'
            invariant
                i <= e <= text@.len(),
                line_end(text@, i as int) == line_end(text@, e as int),
            decreases text@.len() - e,
        {
            e = e + 1;
        }
        proof {
            assert(line_end(text@, e as int) == e);
        }
        // find the end of the indentation
        let mut ind: usize = i;
        while ind < text.len() && text[ind] == ' '
            invariant
                i <= ind <= text@.len(),
                skip_spaces(text@, i as int) == skip_spaces(text@, ind as int),
            decreases text@.len() - ind,
        {
            ind = ind + 1;
        }
        proof {
            assert(skip_spaces(text@, ind as int) == ind);
        }
        if ind < e && text[ind] != '#' {
            let mut content: Vec<char> = Vec::new();
            let mut j: usize = ind;
            while j < e
                invariant
                    ind <= j <= e,
                    e <= text@.len(),
                    content@ == text@.subrange(ind as int, j as int),
                decreases e - j,
            {
                content.push(text[j]);
                proof {
                    assert(content@ =~= text@.subrange(ind as int, j + 1 as int));
                }
                j = j + 1;
            }
            out.push((ind - i, content));
            proof {
                assert(lines_view(out@) =~= lines_view(out@.drop_last()) + seq![
                    (((ind - i)) as nat, text@.subrange(ind as int, e as int)),
                ]);
            }
        }
        proof {
            assert(split_lines(text@) =~= lines_view(out@) + split_lines_from(
                text@,
                e + 1 as int,
            ));
        }
        i = e + 1;
    }
    proof {
        assert(split_lines(text@) =~= lines_view(out@));
    }
    out
}

/// Whether a digit character.
pub open spec fn is_digit(c: char) -> bool {
    '0' <= c && c <= '9'
}

/// The numeric value of a digit character.
pub open spec fn digit_val(c: char) -> nat {
    ((c as u32) - ('0' as u32)) as nat
}

/// Whether every character is a digit.
pub open spec fn all_digits(s: Seq<char>) -> bool {
    forall|i: int| 0 <= i < s.len() ==> is_digit(s[i])
}

/// The value of a digit sequence read in base ten.
pub open spec fn digits_val(s: Seq<char>) -> nat
    decreases s.len(),
{
    if s.len() == 0 {
        0
    } else {
        digits_val(s.drop_last()) * 10 + digit_val(s.last())
    }
}

/// The value of a prefix never exceeds the value of the whole.
pub proof fn lemma_digits_val_prefix(s: Seq<char>, i: int)
    requires
        0 <= i <= s.len(),
    ensures
        digits_val(s.take(i)) <= digits_val(s),
    decreases s.len() - i,
{
    if i < s.len() {
        lemma_digits_val_prefix(s, i + 1);
        assert(s.take(i + 1).drop_last() =~= s.take(i));
        assert(digits_val(s.take(i + 1)) == digits_val(s.take(i)) * 10 + digit_val(
            s.take(i + 1).last(),
        ));
    } else {
        assert(s.take(i) =~= s);
    }
}

/// Whether the characters spell an integer: an optional minus sign, then
/// digits with no leading zero, whose value stays within the 63-bit range.
pub open spec fn is_int_literal(s: Seq<char>) -> bool {
    let body = if s.len() >= 1 && s[0] == '-' {
        s.skip(1)
    } else {
        s
    };
    &&& body.len() > 0
    &&& all_digits(body)
    &&& (body.len() == 1 || body[0] != '0')
    &&& digits_val(body) <= 0x7fff_ffff_ffff_ffff
}

/// The value an integer literal spells.
pub open spec fn int_literal_val(s: Seq<char>) -> int {
    if s.len() >= 1 && s[0] == '-' {
        -(digits_val(s.skip(1)) as int)
    } else {
        digits_val(s) as int
    }
}

/// The node a one-line scalar stands for: the fixed words for null, the
/// booleans and the empty containers, then integers, then plain strings.
pub open spec fn scalar_of(s: Seq<char>) -> Node {
    if s.len() == 0 || s == "null"@ || s == "~"@ {
        Node::Null
    } else if s == "true"@ {
        Node::Bool(true)
    } else if s == "false"@ {
        Node::Bool(false)
    } else if s == "{}"@ {
        Node::Mapping(Seq::empty())
    } else if s == "[]"@ {
        Node::List(Seq::empty())
    } else if is_int_literal(s) {
        Node::Int(int_literal_val(s))
    } else {
        Node::Str(s)
    }
}

/// Every line of a split text is indented by less than the text's length.
pub proof fn lemma_split_lines_bounds(text: Seq<char>, i: int)
    requires
        0 <= i <= text.len(),
    ensures
        forall|k: int|
            0 <= k < split_lines_from(text, i).len() ==> split_lines_from(text, i)[k].0
                <= text.len(),
    decreases text.len() - i,
{
    if i < text.len() {
        let e = line_end(text, i);
        let ind = skip_spaces(text, i);
        lemma_line_end(text, i);
        lemma_skip_spaces(text, i);
        let rest = if e < text.len() {
            split_lines_from(text, e + 1)
        } else {
            Seq::<(nat, Seq<char>)>::empty()
        };
        if e < text.len() {
            lemma_split_lines_bounds(text, e + 1);
        }
        let whole = split_lines_from(text, i);
        assert forall|k: int| 0 <= k < whole.len() implies whole[k].0 <= text.len() by {
            if ind < e && text.subrange(ind, e)[0] != '#' {
                if k == 0 {
                    assert(whole[0].0 == (ind - i) as nat);
                } else {
                    assert(whole[k] == rest[k - 1]);
                }
            } else {
                assert(whole[k] == rest[k]);
            }
        }
    }
}

/// Whether the line is a list item: a dash, alone or followed by a space.
pub open spec fn is_item_line(s: Seq<char>) -> bool {
    s.len() >= 1 && s[0] == '-' && (s.len() == 1 || s[1] == ' ')
}

/// The item line's content after the dash.
pub open spec fn item_rest(s: Seq<char>) -> Seq<char> {
    if s.len() >= 2 {
        s.subrange(2, s.len() as int)
    } else {
        Seq::empty()
    }
}

/// The first position at or after `i` where a key ends: a colon that closes
/// the line or is followed by a space; the line's length when none.
pub open spec fn key_split_from(s: Seq<char>, i: int) -> int
    decreases s.len() - i,
{
    if i < 0 || i >= s.len() {
        s.len() as int
    } else if s[i] == ':' && (i == s.len() - 1 || s[i + 1] == ' ') {
        i
    } else {
        key_split_from(s, i + 1)
    }
}

/// The position where the line's key ends.
pub open spec fn key_split_at(s: Seq<char>) -> int {
    key_split_from(s, 0)
}

pub proof fn lemma_key_split(s: Seq<char>, i: int)
    requires
        0 <= i <= s.len(),
    ensures
        i <= key_split_from(s, i) <= s.len(),
        key_split_from(s, i) < s.len() ==> {
            let j = key_split_from(s, i);
            s[j] == ':' && (j == s.len() - 1 || s[j + 1] == ' ')
        },
        forall|j: int|
            i <= j < key_split_from(s, i) ==> !(#[trigger] s[j] == ':' && (j == s.len() - 1 || s[j
                + 1] == ' ')),
    decreases s.len() - i,
{
    if i < s.len() && !(s[i] == ':' && (i == s.len() - 1 || s[i + 1] == ' ')) {
        lemma_key_split(s, i + 1);
    }
}

/// The first line at or after position one whose indent does not exceed
/// `ind`, or the length of the slice when every later line sits deeper.
pub open spec fn first_sib_from(ls: Seq<(nat, Seq<char>)>, ind: nat, j: int) -> int
    decreases ls.len() - j,
{
    if j < 1 || j >= ls.len() {
        ls.len() as int
    } else if ls[j].0 <= ind {
        j
    } else {
        first_sib_from(ls, ind, j + 1)
    }
}

/// The end of the block that the first line of the slice opens.
pub open spec fn first_sib(ls: Seq<(nat, Seq<char>)>, ind: nat) -> int {
    first_sib_from(ls, ind, 1)
}

pub proof fn lemma_first_sib(ls: Seq<(nat, Seq<char>)>, ind: nat)
    requires
        ls.len() >= 1,
    ensures
        1 <= first_sib(ls, ind) <= ls.len(),
        first_sib(ls, ind) < ls.len() ==> ls[first_sib(ls, ind)].0 <= ind,
        forall|j: int| 1 <= j < first_sib(ls, ind) ==> ls[j].0 > ind,
{
    lemma_first_sib_from(ls, ind, 1);
}

pub proof fn lemma_first_sib_from(ls: Seq<(nat, Seq<char>)>, ind: nat, i: int)
    requires
        1 <= i <= ls.len(),
    ensures
        i <= first_sib_from(ls, ind, i) <= ls.len(),
        first_sib_from(ls, ind, i) < ls.len() ==> ls[first_sib_from(ls, ind, i)].0 <= ind,
        forall|j: int| i <= j < first_sib_from(ls, ind, i) ==> ls[j].0 > ind,
    decreases ls.len() - i,
{
    if i < ls.len() && ls[i].0 > ind {
        lemma_first_sib_from(ls, ind, i + 1);
    }
}

/// The mapping entries that a slice of lines at one indent spells, or `None`
/// when the slice is not a well-formed mapping block.
pub open spec fn parse_map_s(ls: Seq<(nat, Seq<char>)>, ind: nat) -> Option<
    Seq<(Seq<char>, Node)>,
>
    decreases ls.len(), 0int,
    via parse_map_s_decreases
{
    if ls.len() == 0 {
        Some(Seq::empty())
    } else if ls[0].0 != ind || is_item_line(ls[0].1) {
        None
    } else {
        let s = ls[0].1;
        let j = key_split_at(s);
        if j <= 0 || j >= s.len() {
            None
        } else {
            let k = s.subrange(0, j);
            if j == s.len() - 1 {
                let m = first_sib(ls, ind);
                let child = ls.subrange(1, m);
                let v_opt: Option<Node> = if child.len() == 0 {
                    Some(Node::Null)
                } else {
                    let ci = child[0].0;
                    if is_item_line(child[0].1) {
                        match parse_list_s(child, ci) {
                            Some(items) => Some(Node::List(items)),
                            None => None,
                        }
                    } else {
                        match parse_map_s(child, ci) {
                            Some(es) => Some(Node::Mapping(es)),
                            None => None,
                        }
                    }
                };
                match v_opt {
                    None => None,
                    Some(v) => match parse_map_s(ls.skip(m), ind) {
                        None => None,
                        Some(rest) => Some(seq![(k, v)] + rest),
                    },
                }
            } else {
                if ls.len() > 1 && ls[1].0 > ind {
                    None
                } else {
                    let v = scalar_of(s.subrange(j + 2, s.len() as int));
                    match parse_map_s(ls.skip(1), ind) {
                        None => None,
                        Some(rest) => Some(seq![(k, v)] + rest),
                    }
                }
            }
        }
    }
}

#[via_fn]
proof fn parse_map_s_decreases(ls: Seq<(nat, Seq<char>)>, ind: nat) {
    if ls.len() > 0 {
        lemma_first_sib(ls, ind);
    }
}

/// The list items that a slice of lines at one indent spells, or `None` when
/// the slice is not a well-formed list block.
pub open spec fn parse_list_s(ls: Seq<(nat, Seq<char>)>, ind: nat) -> Option<Seq<Node>>
    decreases ls.len(), 1int,
    via parse_list_s_decreases
{
    if ls.len() == 0 {
        Some(Seq::empty())
    } else if ls[0].0 != ind || !is_item_line(ls[0].1) {
        None
    } else {
        let rest_s = item_rest(ls[0].1);
        let m = first_sib(ls, ind);
        let child = ls.subrange(1, m);
        let item_opt: Option<Node> = if rest_s.len() == 0 {
            if child.len() == 0 {
                Some(Node::Null)
            } else {
                let ci = child[0].0;
                if is_item_line(child[0].1) {
                    match parse_list_s(child, ci) {
                        Some(items) => Some(Node::List(items)),
                        None => None,
                    }
                } else {
                    match parse_map_s(child, ci) {
                        Some(es) => Some(Node::Mapping(es)),
                        None => None,
                    }
                }
            }
        } else {
            let j = key_split_at(rest_s);
            if 0 < j < rest_s.len() {
                match parse_map_s(seq![(((ind + 2)) as nat, rest_s)] + child, (ind + 2) as nat) {
                    Some(es) => Some(Node::Mapping(es)),
                    None => None,
                }
            } else {
                if child.len() > 0 {
                    None
                } else {
                    Some(scalar_of(rest_s))
                }
            }
        };
        match item_opt {
            None => None,
            Some(item) => match parse_list_s(ls.skip(m), ind) {
                None => None,
                Some(rest) => Some(seq![item] + rest),
            },
        }
    }
}

#[via_fn]
proof fn parse_list_s_decreases(ls: Seq<(nat, Seq<char>)>, ind: nat) {
    if ls.len() > 0 {
        lemma_first_sib(ls, ind);
        let m = first_sib(ls, ind);
        let child = ls.subrange(1, m);
        let rest_s = item_rest(ls[0].1);
        assert((seq![(((ind + 2)) as nat, rest_s)] + child).len() == m);
    }
}

/// A parsed mapping block is at most twice as deep as its line count; a
/// parsed list block one more than that.
pub proof fn lemma_parse_map_depth(ls: Seq<(nat, Seq<char>)>, ind: nat)
    requires
        parse_map_s(ls, ind) is Some,
    ensures
        crate::value::entries_depth(parse_map_s(ls, ind)->Some_0) <= 2 * ls.len(),
    decreases ls.len(), 0int,
{
    if ls.len() == 0 {
    } else {
        let s = ls[0].1;
        let j = key_split_at(s);
        let k = s.subrange(0, j);
        lemma_first_sib(ls, ind);
        if j == s.len() - 1 {
            let m = first_sib(ls, ind);
            let child = ls.subrange(1, m);
            if child.len() == 0 {
                lemma_parse_map_depth(ls.skip(m), ind);
                lemma_push_front_entries_depth(
                    (k, Node::Null),
                    parse_map_s(ls.skip(m), ind)->Some_0,
                );
            } else {
                let ci = child[0].0;
                if is_item_line(child[0].1) {
                    lemma_parse_list_depth(child, ci);
                } else {
                    lemma_parse_map_depth(child, ci);
                }
                let v = match parse_map_s(ls, ind)->Some_0[0].1 {
                    x => x,
                };
                lemma_parse_map_depth(ls.skip(m), ind);
                let v0 = if is_item_line(child[0].1) {
                    Node::List(parse_list_s(child, ci)->Some_0)
                } else {
                    Node::Mapping(parse_map_s(child, ci)->Some_0)
                };
                lemma_push_front_entries_depth((k, v0), parse_map_s(ls.skip(m), ind)->Some_0);
            }
        } else {
            let v = scalar_of(s.subrange(j + 2, s.len() as int));
            lemma_parse_map_depth(ls.skip(1), ind);
            lemma_push_front_entries_depth((k, v), parse_map_s(ls.skip(1), ind)->Some_0);
            lemma_scalar_depth(s.subrange(j + 2, s.len() as int));
        }
    }
}

/// A scalar is at most one level deep.
pub proof fn lemma_scalar_depth(s: Seq<char>)
    ensures
        crate::value::node_depth(scalar_of(s)) <= 1,
{
}

/// Prepending one entry: the depth is the larger of the entry's value depth
/// and the rest's depth.
pub proof fn lemma_push_front_entries_depth(x: (Seq<char>, Node), es: Seq<(Seq<char>, Node)>)
    ensures
        crate::value::entries_depth(seq![x] + es) == crate::value::nat_max(
            crate::value::node_depth(x.1),
            crate::value::entries_depth(es),
        ),
{
    let s2 = seq![x] + es;
    assert(s2[0] == x);
    assert(s2.skip(1) =~= es);
}

/// Prepending one item: the depth is the larger of the item's depth and the
/// rest's depth.
pub proof fn lemma_push_front_items_depth(x: Node, items: Seq<Node>)
    ensures
        crate::value::items_depth(seq![x] + items) == crate::value::nat_max(
            crate::value::node_depth(x),
            crate::value::items_depth(items),
        ),
{
    let s2 = seq![x] + items;
    assert(s2[0] == x);
    assert(s2.skip(1) =~= items);
}

pub proof fn lemma_parse_list_depth(ls: Seq<(nat, Seq<char>)>, ind: nat)
    requires
        parse_list_s(ls, ind) is Some,
    ensures
        crate::value::items_depth(parse_list_s(ls, ind)->Some_0) <= 2 * ls.len() + 1,
    decreases ls.len(), 1int,
{
    if ls.len() == 0 {
    } else {
        let rest_s = item_rest(ls[0].1);
        lemma_first_sib(ls, ind);
        let m = first_sib(ls, ind);
        let child = ls.subrange(1, m);
        lemma_parse_list_depth(ls.skip(m), ind);
        let rest_items = parse_list_s(ls.skip(m), ind)->Some_0;
        if rest_s.len() == 0 {
            if child.len() == 0 {
                lemma_push_front_items_depth(Node::Null, rest_items);
            } else {
                let ci = child[0].0;
                if is_item_line(child[0].1) {
                    lemma_parse_list_depth(child, ci);
                    lemma_push_front_items_depth(
                        Node::List(parse_list_s(child, ci)->Some_0),
                        rest_items,
                    );
                } else {
                    lemma_parse_map_depth(child, ci);
                    lemma_push_front_items_depth(
                        Node::Mapping(parse_map_s(child, ci)->Some_0),
                        rest_items,
                    );
                }
            }
        } else {
            let j = key_split_at(rest_s);
            if 0 < j < rest_s.len() {
                let synth = seq![(((ind + 2)) as nat, rest_s)] + child;
                lemma_parse_map_depth(synth, (ind + 2) as nat);
                lemma_push_front_items_depth(
                    Node::Mapping(parse_map_s(synth, (ind + 2) as nat)->Some_0),
                    rest_items,
                );
            } else {
                lemma_scalar_depth(rest_s);
                lemma_push_front_items_depth(scalar_of(rest_s), rest_items);
            }
        }
    }
}

/// A fresh copy of a slice of a buffer.
#[verifier::loop_isolation(false)]
pub fn subrange_chars(s: &Vec<char>, a: usize, b: usize) -> (r: Vec<char>)
    requires
        a <= b <= s@.len(),
    ensures
        r@ == s@.subrange(a as int, b as int),
{
    let mut out: Vec<char> = Vec::new();
    let mut i: usize = a;
    while i < b
        invariant
            a <= i <= b,
            out@ == s@.subrange(a as int, i as int),
        decreases b - i,
    {
        out.push(s[i]);
        proof {
            assert(out@ =~= s@.subrange(a as int, i + 1 as int));
        }
        i = i + 1;
    }
    out
}

/// Whether the line is a list item.
fn is_item_exec(s: &Vec<char>) -> (r: bool)
    ensures
        r == is_item_line(s@),
{
    s.len() >= 1 && s[0] == '-' && (s.len() == 1 || s[1] == ' ')
}

/// The position where the line's key ends; see `key_split_at`.
#[verifier::loop_isolation(false)]
fn key_split_exec(s: &Vec<char>) -> (r: usize)
    ensures
        r as int == key_split_at(s@),
{
    let mut i: usize = 0;
    while i < s.len()
        invariant
            0 <= i <= s@.len(),
            key_split_at(s@) == key_split_from(s@, i as int),
        decreases s@.len() - i,
    {
        if s[i] == ':' && (i == s.len() - 1 || s[i + 1] == ' ') {
            return i;
        }
        i = i + 1;
    }
    i
}

/// The absolute end of the block opened by the line at `start`; see
/// `first_sib`.
#[verifier::loop_isolation(false)]
fn first_sib_exec(lines: &Vec<(usize, Vec<char>)>, start: usize, end: usize, ind: usize) -> (r:
    usize)
    requires
        start < end <= lines@.len(),
    ensures
        start < r <= end,
        r as int - start == first_sib(
            lines_view(lines@).subrange(start as int, end as int),
            ind as nat,
        ),
{
    let ghost win = lines_view(lines@).subrange(start as int, end as int);
    let mut j: usize = start + 1;
    while j < end && lines[j].0 > ind
        invariant
            start + 1 <= j <= end,
            first_sib(win, ind as nat) == first_sib_from(win, ind as nat, j - start),
        decreases end - j,
    {
        proof {
            assert(win[j - start] == (lines@[j as int].0 as nat, lines@[j as int].1@));
        }
        j = j + 1;
    }
    proof {
        if j < end {
            assert(win[j - start] == (lines@[j as int].0 as nat, lines@[j as int].1@));
        }
        assert(first_sib_from(win, ind as nat, j - start) == j - start);
    }
    j
}

/// Reads the mapping block that the lines from `start` to `end` spell at the
/// given indent; see `parse_map_s`.
#[verifier::loop_isolation(false)]
pub fn parse_map_x(lines: &Vec<(usize, Vec<char>)>, start: usize, end: usize, ind: usize) -> (r:
    Result<Vec<(Vec<char>, Value)>, ()>)
    requires
        start <= end <= lines@.len(),
        ind <= 600_000_002,
        forall|i: int| start < i < end ==> (#[trigger] lines@[i]).0 <= 600_000_000,
        end > start ==> lines@[start as int].0 <= 600_000_002,
    ensures
        ({
            let win = lines_view(lines@).subrange(start as int, end as int);
            match r {
                Ok(es) => parse_map_s(win, ind as nat) == Some(crate::value::entries_view(es@)),
                Err(_) => parse_map_s(win, ind as nat) is None,
            }
        }),
    decreases end - start, 0int,
{
    let ghost win = lines_view(lines@).subrange(start as int, end as int);
    if start == end {
        let out: Vec<(Vec<char>, Value)> = Vec::new();
        proof {
            assert(win.len() == 0);
            assert(crate::value::entries_view(out@) =~= Seq::<(Seq<char>, Node)>::empty());
            assert(parse_map_s(win, ind as nat) == Some(Seq::<(Seq<char>, Node)>::empty()));
        }
        return Ok(out);
    }
    proof {
        assert(win[0] == (lines@[start as int].0 as nat, lines@[start as int].1@));
    }
    if lines[start].0 != ind || is_item_exec(&lines[start].1) {
        return Err(());
    }
    let slen = lines[start].1.len();
    let j = key_split_exec(&lines[start].1);
    proof {
        lemma_key_split(lines@[start as int].1@, 0);
    }
    if j == 0 || j >= slen {
        return Err(());
    }
    let k = subrange_chars(&lines[start].1, 0, j);
    if j == slen - 1 {
        let m = first_sib_exec(lines, start, end, ind);
        proof {
            lemma_first_sib(win, ind as nat);
            assert(win.subrange(1, m - start) =~= lines_view(lines@).subrange(
                start + 1,
                m as int,
            ));
        }
        let ghost childw = win.subrange(1, m - start as int);
        let v: Value = if m == start + 1 {
            Value::Null
        } else {
            proof {
                assert(childw[0] == (lines@[start + 1].0 as nat, lines@[start + 1].1@));
            }
            let ci = lines[start + 1].0;
            if is_item_exec(&lines[start + 1].1) {
                match parse_list_x(lines, start + 1, m, ci) {
                    Ok(items) => {
                        proof {
                            crate::value::lemma_list_view(items);
                        }
                        Value::List(items)
                    },
                    Err(_) => {
                        return Err(());
                    },
                }
            } else {
                match parse_map_x(lines, start + 1, m, ci) {
                    Ok(es) => {
                        proof {
                            crate::value::lemma_entries_view(es);
                        }
                        Value::Mapping(es)
                    },
                    Err(_) => {
                        return Err(());
                    },
                }
            }
        };
        proof {
            assert(win.skip(m - start as int) =~= lines_view(lines@).subrange(
                m as int,
                end as int,
            ));
        }
        match parse_map_x(lines, m, end, ind) {
            Ok(mut rest) => {
                let ghost prev = crate::value::entries_view(rest@);
                rest.insert(0, (k, v));
                proof {
                    assert(crate::value::entries_view(rest@) =~= seq![(k@, v@)] + prev);
                }
                Ok(rest)
            },
            Err(_) => Err(()),
        }
    } else {
        if start + 1 < end && lines[start + 1].0 > ind {
            proof {
                assert(win[1] == (lines@[start + 1].0 as nat, lines@[start + 1].1@));
            }
            return Err(());
        }
        proof {
            if win.len() > 1 {
                assert(win[1] == (lines@[start + 1].0 as nat, lines@[start + 1].1@));
            }
        }
        let vchars = subrange_chars(&lines[start].1, j + 2, slen);
        let v = scalar_of_chars(&vchars);
        proof {
            assert(win.skip(1) =~= lines_view(lines@).subrange(start + 1, end as int));
        }
        match parse_map_x(lines, start + 1, end, ind) {
            Ok(mut rest) => {
                let ghost prev = crate::value::entries_view(rest@);
                rest.insert(0, (k, v));
                proof {
                    assert(crate::value::entries_view(rest@) =~= seq![(k@, v@)] + prev);
                }
                Ok(rest)
            },
            Err(_) => Err(()),
        }
    }
}

/// Reads the list block that the lines from `start` to `end` spell at the
/// given indent; see `parse_list_s`.
#[verifier::loop_isolation(false)]
pub fn parse_list_x(lines: &Vec<(usize, Vec<char>)>, start: usize, end: usize, ind: usize) -> (r:
    Result<Vec<Value>, ()>)
    requires
        start <= end <= lines@.len(),
        ind <= 600_000_000,
        forall|i: int| start < i < end ==> (#[trigger] lines@[i]).0 <= 600_000_000,
        end > start ==> lines@[start as int].0 <= 600_000_002,
    ensures
        ({
            let win = lines_view(lines@).subrange(start as int, end as int);
            match r {
                Ok(items) => parse_list_s(win, ind as nat) == Some(
                    crate::value::list_view(items@),
                ),
                Err(_) => parse_list_s(win, ind as nat) is None,
            }
        }),
    decreases end - start, 1int,
{
    let ghost win = lines_view(lines@).subrange(start as int, end as int);
    if start == end {
        let out: Vec<Value> = Vec::new();
        proof {
            assert(crate::value::list_view(out@) =~= Seq::<Node>::empty());
            assert(parse_list_s(win, ind as nat) == Some(Seq::<Node>::empty()));
        }
        return Ok(out);
    }
    proof {
        assert(win[0] == (lines@[start as int].0 as nat, lines@[start as int].1@));
    }
    if lines[start].0 != ind || !is_item_exec(&lines[start].1) {
        return Err(());
    }
    let rest_chars: Vec<char> = if lines[start].1.len() >= 2 {
        subrange_chars(&lines[start].1, 2, lines[start].1.len())
    } else {
        Vec::new()
    };
    proof {
        assert(rest_chars@ == item_rest(lines@[start as int].1@));
    }
    let m = first_sib_exec(lines, start, end, ind);
    proof {
        lemma_first_sib(win, ind as nat);
        assert(win.subrange(1, m - start as int) =~= lines_view(lines@).subrange(
            start + 1,
            m as int,
        ));
    }
    let ghost childw = win.subrange(1, m - start as int);
    let item: Value = if rest_chars.len() == 0 {
        if m == start + 1 {
            Value::Null
        } else {
            proof {
                assert(childw[0] == (lines@[start + 1].0 as nat, lines@[start + 1].1@));
            }
            let ci = lines[start + 1].0;
            if is_item_exec(&lines[start + 1].1) {
                match parse_list_x(lines, start + 1, m, ci) {
                    Ok(items) => {
                        proof {
                            crate::value::lemma_list_view(items);
                        }
                        Value::List(items)
                    },
                    Err(_) => {
                        return Err(());
                    },
                }
            } else {
                match parse_map_x(lines, start + 1, m, ci) {
                    Ok(es) => {
                        proof {
                            crate::value::lemma_entries_view(es);
                        }
                        Value::Mapping(es)
                    },
                    Err(_) => {
                        return Err(());
                    },
                }
            }
        }
    } else {
        let j = key_split_exec(&rest_chars);
        proof {
            lemma_key_split(rest_chars@, 0);
        }
        if j > 0 && j < rest_chars.len() {
            // the dash line opens a mapping: read it as if its content stood
            // on a line of its own, two columns deeper
            let mut synth: Vec<(usize, Vec<char>)> = Vec::new();
            synth.push((ind + 2, rest_chars));
            let mut t: usize = start + 1;
            while t < m
                invariant
                    start + 1 <= t <= m,
                    synth@.len() == t - start,
                    lines_view(synth@) == seq![(((ind + 2)) as nat, item_rest(
                        lines@[start as int].1@,
                    ))] + lines_view(lines@).subrange(start + 1, t as int),
                decreases m - t,
            {
                let ghost synth_pre = synth@;
                let ti = lines[t].0;
                let cc = crate::value::clone_chars(&lines[t].1);
                synth.push((ti, cc));
                proof {
                    let lv = lines_view(synth@);
                    let rhs = seq![(((ind + 2)) as nat, item_rest(lines@[start as int].1@))]
                        + lines_view(lines@).subrange(start + 1, t + 1 as int);
                    assert(lv.len() == rhs.len());
                    assert forall|q: int| 0 <= q < lv.len() implies lv[q] == rhs[q] by {
                        if q < lv.len() - 1 {
                            assert(synth@[q] == synth_pre[q]);
                            assert(lines_view(synth_pre)[q] == rhs[q]);
                        } else {
                            assert(synth@[q] == (ti, cc));
                            assert(rhs[q] == lines_view(lines@)[t as int]);
                        }
                    }
                    assert(lv =~= rhs);
                }
                t = t + 1;
            }
            proof {
                assert(lines_view(synth@) =~= seq![(((ind + 2)) as nat, item_rest(
                    lines@[start as int].1@,
                ))] + childw);
                assert(lines_view(synth@).subrange(0, synth@.len() as int) =~= lines_view(
                    synth@,
                ));
                assert forall|q: int| 0 < q < synth@.len() implies (#[trigger] synth@[q]).0
                    <= 600_000_000 by {
                    assert(lines_view(synth@)[q] == (synth@[q].0 as nat, synth@[q].1@));
                    assert(lines_view(synth@)[q] == childw[q - 1]);
                    assert(childw[q - 1] == lines_view(lines@)[start + q]);
                    assert((lines@[start + q]).0 <= 600_000_000);
                }
                assert(lines_view(synth@)[0] == (synth@[0].0 as nat, synth@[0].1@));
                assert(synth@[0].0 == ind + 2);
            }
            match parse_map_x(&synth, 0, synth.len(), ind + 2) {
                Ok(es) => {
                    proof {
                        crate::value::lemma_entries_view(es);
                    }
                    Value::Mapping(es)
                },
                Err(_) => {
                    return Err(());
                },
            }
        } else {
            if m > start + 1 {
                return Err(());
            }
            scalar_of_chars(&rest_chars)
        }
    };
    proof {
        assert(win.skip(m - start as int) =~= lines_view(lines@).subrange(m as int, end as int));
    }
    match parse_list_x(lines, m, end, ind) {
        Ok(mut rest) => {
            let ghost prev = crate::value::list_view(rest@);
            rest.insert(0, item);
            proof {
                assert(crate::value::list_view(rest@) =~= seq![item@] + prev);
            }
            Ok(rest)
        },
        Err(_) => Err(()),
    }
}

/// Reads the digits of `s` starting at `from` as a value capped by the
/// 63-bit range; `None` when the value would exceed it.
#[verifier::loop_isolation(false)]
fn read_digits(s: &Vec<char>, from: usize) -> (r: Option<u64>)
    requires
        from <= s@.len(),
        all_digits(s@.skip(from as int)),
    ensures
        match r {
            Some(x) => x as nat == digits_val(s@.skip(from as int)) && x
                <= 0x7fff_ffff_ffff_ffff,
            None => digits_val(s@.skip(from as int)) > 0x7fff_ffff_ffff_ffff,
        },
{
    let ghost body = s@.skip(from as int);
    let mut acc: u64 = 0;
    let mut i: usize = from;
    while i < s.len()
        invariant
            from <= i <= s@.len(),
            acc <= 0x7fff_ffff_ffff_ffff,
            acc as nat == digits_val(body.take(i - from)),
        decreases s@.len() - i,
    {
        let c = s[i];
        proof {
            assert(body[i - from] == s@[i as int]);
            assert(is_digit(c));
        }
        let d: u64 = ((c as u32) - 48) as u64;
        if acc > (0x7fff_ffff_ffff_ffffu64 - d) / 10 {
            proof {
                assert(acc * 10 + d > 0x7fff_ffff_ffff_ffff) by (nonlinear_arith)
                    requires
                        acc > (0x7fff_ffff_ffff_ffffu64 - d) / 10,
                        d <= 9,
                ;
                assert(body.take(i - from + 1).drop_last() =~= body.take(i - from));
                assert(body.take(i - from + 1).last() == body[i - from]);
                assert(digits_val(body.take(i - from + 1)) == acc * 10 + d);
                lemma_digits_val_prefix(body, i - from + 1);
            }
            return None;
        }
        proof {
            assert(acc * 10 + d <= 0x7fff_ffff_ffff_ffff) by (nonlinear_arith)
                requires
                    acc <= (0x7fff_ffff_ffff_ffffu64 - d) / 10,
                    d <= 9,
            ;
            assert(body.take(i - from + 1).drop_last() =~= body.take(i - from));
            assert(body.take(i - from + 1).last() == body[i - from]);
        }
        acc = acc * 10 + d;
        i = i + 1;
    }
    proof {
        assert(body.take(s@.len() - from) =~= body);
    }
    Some(acc)
}

/// Reads a one-line scalar; see `scalar_of`.
#[verifier::loop_isolation(false)]
pub fn scalar_of_chars(s: &Vec<char>) -> (r: Value)
    ensures
        r@ == scalar_of(s@),
{
    if s.len() == 0 || chars_eq_str(s, "null") || chars_eq_str(s, "~") {
        return Value::Null;
    }
    if chars_eq_str(s, "true") {
        return Value::Bool(true);
    }
    if chars_eq_str(s, "false") {
        return Value::Bool(false);
    }
    if chars_eq_str(s, "{}") {
        let entries: Vec<(Vec<char>, Value)> = Vec::new();
        proof {
            crate::value::lemma_entries_view(entries);
            assert(crate::value::entries_view(entries@) =~= Seq::<(Seq<char>, Node)>::empty());
        }
        return Value::Mapping(entries);
    }
    if chars_eq_str(s, "[]") {
        let items: Vec<Value> = Vec::new();
        proof {
            crate::value::lemma_list_view(items);
            assert(crate::value::list_view(items@) =~= Seq::<Node>::empty());
        }
        return Value::List(items);
    }
    // integer literal?
    let neg = s[0] == '-';
    let from: usize = if neg {
        1
    } else {
        0
    };
    let ghost body = s@.skip(from as int);
    proof {
        if !neg {
            assert(body =~= s@);
        }
    }
    let mut digits_ok = s.len() > from;
    let mut i: usize = from;
    while i < s.len()
        invariant
            from <= i <= s@.len(),
            digits_ok == (s@.len() > from && (forall|j: int|
                from <= j < i ==> is_digit(s@[j]))),
        decreases s@.len() - i,
    {
        if !(s[i] >= '0' && s[i] <= '9') {
            digits_ok = false;
        }
        i = i + 1;
    }
    proof {
        assert(digits_ok == (body.len() > 0 && all_digits(body))) by {
            if digits_ok {
                assert forall|j: int| 0 <= j < body.len() implies is_digit(body[j]) by {
                    assert(body[j] == s@[j + from]);
                }
            } else {
                if body.len() > 0 && all_digits(body) {
                    assert forall|j: int| from <= j < s@.len() implies is_digit(s@[j]) by {
                        assert(s@[j] == body[j - from]);
                    }
                }
            }
        }
    }
    if digits_ok {
        let no_leading_zero = s.len() - from == 1 || s[from] != '0';
        proof {
            assert(body[0] == s@[from as int]);
            assert((body.len() == 1 || body[0] != '0') == no_leading_zero);
        }
        if no_leading_zero {
            match read_digits(s, from) {
                Some(x) => {
                    proof {
                        assert(is_int_literal(s@));
                    }
                    if neg {
                        let v: i64 = -(x as i64);
                        proof {
                            assert(v as int == int_literal_val(s@));
                        }
                        return Value::Int(v);
                    } else {
                        return Value::Int(x as i64);
                    }
                },
                None => {
                    proof {
                        assert(!is_int_literal(s@));
                    }
                },
            }
        }
    }
    proof {
        assert(!is_int_literal(s@) ==> scalar_of(s@) == Node::Str(s@));
    }
    Value::Str(crate::value::clone_chars(s))
}

} // verus!
