//! Character-sequence utilities: the bridge between `String` at the API
//! boundary and the `Vec<char>` buffers the engine works on, and decimal
//! formatting of integers.

use vstd::prelude::*;

verus! {

/// Relies on `String` as `FromIterator<char>`: collecting characters yields
/// the string made of exactly those characters in order.
#[verifier::external_body]
pub fn chars_to_string(v: &Vec<char>) -> (s: String)
    ensures
        s@ == v@,
{
    v.iter().collect()
}

/// Relies on `str::chars`: it yields the characters of the string in order.
#[verifier::external_body]
pub fn str_to_chars(s: &str) -> (v: Vec<char>)
    ensures
        v@ == s@,
{
    s.chars().collect()
}

/// Character-wise equality of two buffers.
pub fn chars_eq(a: &Vec<char>, b: &Vec<char>) -> (r: bool)
    ensures
        r == (a@ == b@),
{
    if a.len() != b.len() {
        return false;
    }
    let mut i: usize = 0;
    while i < a.len()
        invariant
            0 <= i <= a.len(),
            a@.len() == b@.len(),
            forall|j: int| 0 <= j < i ==> a@[j] == b@[j],
        decreases a.len() - i,
    {
        if a[i] != b[i] {
            return false;
        }
        i = i + 1;
    }
    proof {
        assert(a@ =~= b@);
    }
    true
}

/// Whether a buffer equals a string, character by character.
pub fn chars_eq_str(a: &Vec<char>, s: &str) -> (r: bool)
    ensures
        r == (a@ == s@),
{
    let b = str_to_chars(s);
    chars_eq(a, &b)
}

/// The decimal digit character for a value below ten.
pub open spec fn digit_char(d: nat) -> char {
    if d == 0 {
        '0'
    } else if d == 1 {
        '1'
    } else if d == 2 {
        '2'
    } else if d == 3 {
        '3'
    } else if d == 4 {
        '4'
    } else if d == 5 {
        '5'
    } else if d == 6 {
        '6'
    } else if d == 7 {
        '7'
    } else if d == 8 {
        '8'
    } else {
        '9'
    }
}

/// The decimal digits of a natural number, most significant first.
pub open spec fn dec_digits(n: nat) -> Seq<char>
    decreases n,
{
    if n < 10 {
        seq![digit_char(n % 10)]
    } else {
        dec_digits(n / 10).push(digit_char(n % 10))
    }
}

/// The decimal rendering of an integer: a minus sign for negative values,
/// then the digits of the magnitude.
pub open spec fn int_chars(i: int) -> Seq<char> {
    if i >= 0 {
        dec_digits(i as nat)
    } else {
        seq!['-'] + dec_digits((-i) as nat)
    }
}

fn push_digit(d: u64, out: &mut Vec<char>)
    requires
        d < 10,
    ensures
        final(out)@ == old(out)@.push(digit_char(d as nat)),
{
    let c = if d == 0 {
        '0'
    } else if d == 1 {
        '1'
    } else if d == 2 {
        '2'
    } else if d == 3 {
        '3'
    } else if d == 4 {
        '4'
    } else if d == 5 {
        '5'
    } else if d == 6 {
        '6'
    } else if d == 7 {
        '7'
    } else if d == 8 {
        '8'
    } else {
        '9'
    };
    out.push(c);
}

fn push_dec_digits(n: u64, out: &mut Vec<char>)
    ensures
        final(out)@ == old(out)@ + dec_digits(n as nat),
    decreases n,
{
    if n < 10 {
        push_digit(n, out);
        proof {
            assert(out@ =~= old(out)@ + dec_digits(n as nat));
        }
    } else {
        push_dec_digits(n / 10, out);
        push_digit(n % 10, out);
        proof {
            assert(out@ =~= old(out)@ + dec_digits(n as nat));
        }
    }
}

/// Appends the decimal rendering of `n` to `out`.
pub fn push_int_chars(n: i64, out: &mut Vec<char>)
    ensures
        final(out)@ == old(out)@ + int_chars(n as int),
{
    if n >= 0 {
        push_dec_digits(n as u64, out);
    } else {
        let mag: u64 = if n == i64::MIN {
            9223372036854775808u64
        } else {
            (-n) as u64
        };
        proof {
            assert(mag as nat == (-(n as int)) as nat);
        }
        out.push('-');
        push_dec_digits(mag, out);
        proof {
            assert(out@ =~= old(out)@ + int_chars(n as int));
        }
    }
}

/// The digits of a natural number are decimal digits, the first is nonzero
/// unless the number is a single digit, and reading them back yields the
/// number.
pub proof fn lemma_dec_digits_inverse(n: nat)
    ensures
        dec_digits(n).len() >= 1,
        forall|i: int|
            0 <= i < dec_digits(n).len() ==> '0' <= #[trigger] dec_digits(n)[i] && dec_digits(
                n,
            )[i] <= '9',
        n >= 1 ==> dec_digits(n)[0] != '0',
        n >= 10 ==> dec_digits(n).len() >= 2,
        crate::parse::digits_val(dec_digits(n)) == n,
    decreases n,
{
    if n < 10 {
        assert(dec_digits(n) =~= seq![digit_char(n % 10)]);
        assert(dec_digits(n).drop_last() =~= Seq::<char>::empty());
        assert(crate::parse::digits_val(Seq::<char>::empty()) == 0);
    } else {
        lemma_dec_digits_inverse(n / 10);
        let w = dec_digits(n);
        assert(w =~= dec_digits(n / 10).push(digit_char(n % 10)));
        assert(w.drop_last() =~= dec_digits(n / 10));
        assert(w.last() == digit_char(n % 10));
        assert forall|i: int| 0 <= i < w.len() implies '0' <= #[trigger] w[i] && w[i]
            <= '9' by {
            if i < w.len() - 1 {
                assert(w[i] == dec_digits(n / 10)[i]);
            }
        }
    }
}

} // verus!
