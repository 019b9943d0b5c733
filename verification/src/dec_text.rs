//! Decimal digit strings: the value of a sequence of ASCII digits, the
//! canonical decimal rendering of a number, and the executable conversions
//! between octet values and their text, each proved against those
//! specifications.

use vstd::prelude::*;
use vstd::arithmetic::div_mod::lemma_div_denominator;

verus! {

/// Relies on `String::push` from std: it appends the given character to the
/// end of the string, and does nothing else to it.
pub assume_specification[ String::push ](s: &mut String, c: char)
    ensures
        final(s)@ == old(s)@.push(c),
;

/// Is `c` an ASCII decimal digit?
pub open spec fn is_ascii_digit(c: char) -> bool {
    48 <= c as int <= 57
}

/// The numeric value of a single ASCII digit.
pub open spec fn digit_val(c: char) -> int {
    c as int - 48
}

/// The ASCII digit character for a value in `[0, 10)`.
pub open spec fn digit_char(d: int) -> char {
    (d + 48) as char
}

/// Every character of `s` is an ASCII digit.
pub open spec fn all_digits(s: Seq<char>) -> bool {
    forall|i: int| 0 <= i < s.len() ==> is_ascii_digit(#[trigger] s[i])
}

/// The numeric value of a digit string, read most significant digit first.
/// The empty string has value zero.
pub open spec fn dec_value(s: Seq<char>) -> int
    decreases s.len(),
{
    if s.len() == 0 {
        0
    } else {
        dec_value(s.drop_last()) * 10 + digit_val(s.last())
    }
}

/// The canonical decimal rendering of `n >= 0`: no leading zeros, and `0`
/// renders as the single digit `0`.
pub open spec fn dec_repr(n: int) -> Seq<char>
    decreases n,
{
    if n < 10 {
        seq![digit_char(n)]
    } else {
        dec_repr(n / 10).push(digit_char(n % 10))
    }
}

/// A nonempty digit string whose value fits in an octet.
pub open spec fn is_dec_octet_text(s: Seq<char>) -> bool {
    &&& s.len() >= 1
    &&& all_digits(s)
    &&& dec_value(s) <= 255
}

/// A digit string without leading zeros: the canonical form of its value.
pub open spec fn no_leading_zero(s: Seq<char>) -> bool {
    s.len() > 1 ==> s[0] != '0'
}

/// The value of a digit string is non-negative.
pub proof fn lemma_dec_value_nonneg(s: Seq<char>)
    requires
        all_digits(s),
    ensures
        dec_value(s) >= 0,
    decreases s.len(),
{
    if s.len() > 0 {
        assert(all_digits(s.drop_last()));
        lemma_dec_value_nonneg(s.drop_last());
    }
}

/// Reading one more digit multiplies the prefix value by ten and adds the
/// digit.
pub proof fn lemma_dec_value_step(s: Seq<char>, i: int)
    requires
        0 <= i < s.len(),
    ensures
        dec_value(s.subrange(0, i + 1)) == dec_value(s.subrange(0, i)) * 10 + digit_val(s[i]),
{
    let t = s.subrange(0, i + 1);
    assert(t.drop_last() =~= s.subrange(0, i));
    assert(t.last() == s[i]);
}

/// A digit string is worth at least any of its prefixes: appending digits
/// never shrinks the value.
pub proof fn lemma_dec_value_prefix_le(s: Seq<char>, i: int)
    requires
        all_digits(s),
        0 <= i <= s.len(),
    ensures
        dec_value(s.subrange(0, i)) <= dec_value(s),
    decreases s.len() - i,
{
    if i == s.len() {
        assert(s.subrange(0, i) =~= s);
    } else {
        lemma_dec_value_step(s, i);
        assert(all_digits(s.subrange(0, i)));
        lemma_dec_value_nonneg(s.subrange(0, i));
        lemma_dec_value_prefix_le(s, i + 1);
    }
}

/// A digit string whose leading digit is nonzero is worth at least one.
pub proof fn lemma_dec_value_leading_pos(s: Seq<char>)
    requires
        all_digits(s),
        s.len() >= 1,
        digit_val(s[0]) >= 1,
    ensures
        dec_value(s) >= 1,
    decreases s.len(),
{
    if s.len() == 1 {
        assert(s.drop_last() =~= Seq::<char>::empty());
    } else {
        assert(all_digits(s.drop_last()));
        assert(s.drop_last()[0] == s[0]);
        lemma_dec_value_leading_pos(s.drop_last());
    }
}

/// The canonical rendering of `n >= 0` is a nonempty digit string without
/// leading zeros, and it is worth exactly `n`.
pub proof fn lemma_dec_repr_props(n: int)
    requires
        n >= 0,
    ensures
        dec_repr(n).len() >= 1,
        all_digits(dec_repr(n)),
        no_leading_zero(dec_repr(n)),
        dec_value(dec_repr(n)) == n,
        n >= 1 ==> digit_val(dec_repr(n)[0]) >= 1,
    decreases n,
{
    if n < 10 {
        let t = dec_repr(n);
        assert(t =~= seq![digit_char(n)]);
        assert(t[0] == digit_char(n));
        assert(digit_char(n) as int == n + 48);
        assert(t.drop_last() =~= Seq::<char>::empty());
        assert(dec_value(Seq::<char>::empty()) == 0);
        assert(dec_value(t) == digit_val(digit_char(n)));
    } else {
        let q = n / 10;
        let d = n % 10;
        assert(1 <= q < n && 0 <= d < 10);
        lemma_dec_repr_props(q);
        let t = dec_repr(n);
        assert(t == dec_repr(q).push(digit_char(d)));
        assert(t.drop_last() =~= dec_repr(q));
        assert(t.last() == digit_char(d));
        assert(digit_char(d) as int == d + 48);
        assert(dec_value(t) == q * 10 + d);
        assert(q * 10 + d == n);
        assert(t[0] == dec_repr(q)[0]);
        assert(forall|i: int|
            0 <= i < t.len() ==> is_ascii_digit(#[trigger] t[i])) by {
            assert(forall|i: int|
                0 <= i < t.len() - 1 ==> t[i] == #[trigger] dec_repr(q)[i]);
        }
    }
}

/// The canonical rendering is the inverse of the value: a digit string
/// without leading zeros renders back to itself.
pub proof fn lemma_dec_repr_of_value(s: Seq<char>)
    requires
        all_digits(s),
        s.len() >= 1,
        no_leading_zero(s),
    ensures
        dec_repr(dec_value(s)) == s,
    decreases s.len(),
{
    if s.len() == 1 {
        assert(s.drop_last() =~= Seq::<char>::empty());
        assert(dec_value(Seq::<char>::empty()) == 0);
        let d = digit_val(s[0]);
        assert(dec_value(s) == d);
        assert(0 <= d <= 9);
        assert(digit_char(d) == s[0]);
        assert(dec_repr(d) =~= s);
    } else {
        let q = s.drop_last();
        let c = s.last();
        assert(all_digits(q));
        assert(q[0] == s[0]);
        let vq = dec_value(q);
        let v = dec_value(s);
        assert(v == vq * 10 + digit_val(c));
        assert(vq >= 1) by {
            if q[0] == '0' {
                assert(s[0] == '0');
            } else {
                assert(is_ascii_digit(q[0]));
                assert(q[0] as int != 48) by {
                    if q[0] as int == 48 {
                        assert(q[0] == digit_char(0));
                        assert(digit_char(0) == '0');
                    }
                }
                lemma_dec_value_leading_pos(q);
            }
        }
        assert(v >= 10);
        assert(v / 10 == vq && v % 10 == digit_val(c)) by {
            assert(0 <= digit_val(c) < 10);
        }
        lemma_dec_repr_of_value(q);
        assert(dec_repr(v) == dec_repr(vq).push(digit_char(digit_val(c))));
        assert(digit_char(digit_val(c)) == c);
        assert(dec_repr(v) =~= s);
    }
}

/// The numeric value of one character of text, if it is an ASCII digit.
pub fn digit_of_char(c: char) -> (r: Option<u8>)
    ensures
        r is Some <==> is_ascii_digit(c),
        r matches Some(d) ==> d as int == digit_val(c) && d <= 9,
{
    let u = c as u32;
    if 48 <= u && u <= 57 {
        Some((u - 48) as u8)
    } else {
        None
    }
}

/// The ASCII digit character for a value below ten.
pub fn char_of_digit(d: u8) -> (c: char)
    requires
        d <= 9,
    ensures
        c == digit_char(d as int),
        is_ascii_digit(c),
{
    (d + 48) as char
}

/// Parses the characters of `s` between `from` and `to` as an unsigned
/// decimal integer fitting an octet. Returns the value exactly when that
/// range of text is a nonempty run of digits worth at most 255; rejects
/// rather than clamps anything else.
pub fn parse_octet(s: &str, from: usize, to: usize) -> (r: Option<u8>)
    requires
        from <= to <= s@.len(),
    ensures
        r is Some <==> is_dec_octet_text(s@.subrange(from as int, to as int)),
        r matches Some(v) ==> v as int == dec_value(s@.subrange(from as int, to as int)),
{
    let ghost part = s@.subrange(from as int, to as int);
    if from == to {
        return None;
    }
    let mut acc: u32 = 0;
    let mut idx = from;
    while idx < to
        invariant
            from <= idx <= to <= s@.len(),
            all_digits(s@.subrange(from as int, idx as int)),
            acc as int == dec_value(s@.subrange(from as int, idx as int)),
            acc <= 255,
            part == s@.subrange(from as int, to as int),
        decreases to - idx,
    {
        let c = s.get_char(idx);
        match digit_of_char(c) {
            None => {
                proof {
                    assert(part[idx - from] == s@[idx as int]);
                }
                return None;
            },
            Some(d) => {
                acc = acc * 10 + d as u32;
                idx = idx + 1;
                proof {
                    let prefix = s@.subrange(from as int, idx as int);
                    assert(prefix.drop_last() =~= s@.subrange(from as int, idx - 1));
                    assert(prefix.last() == s@[idx - 1]);
                    assert(forall|p: int|
                        0 <= p < prefix.len() - 1 ==> prefix[p] == #[trigger] s@.subrange(
                            from as int,
                            idx - 1,
                        )[p]);
                }
                if acc > 255 {
                    proof {
                        if is_dec_octet_text(part) {
                            assert(part.subrange(0, idx - from) =~= s@.subrange(
                                from as int,
                                idx as int,
                            ));
                            lemma_dec_value_prefix_le(part, idx - from);
                        }
                    }
                    return None;
                }
            },
        }
    }
    proof {
        assert(s@.subrange(from as int, idx as int) =~= part);
    }
    Some(acc as u8)
}

/// Renders an octet value as decimal text: the canonical rendering, with no
/// leading zeros and no surrounding whitespace.
pub fn dec_string(n: u8) -> (r: String)
    ensures
        r@ == dec_repr(n as int),
{
    let mut out = String::new();
    proof {
        lemma_div_denominator(n as int, 10, 10);
    }
    if n >= 100 {
        out.push(char_of_digit(n / 100));
    }
    if n >= 10 {
        out.push(char_of_digit((n / 10) % 10));
    }
    out.push(char_of_digit(n % 10));
    proof {
        let v = n as int;
        if v < 10 {
            assert(out@ =~= dec_repr(v));
        } else if v < 100 {
            assert(dec_repr(v) == dec_repr(v / 10).push(digit_char(v % 10)));
            assert(v / 10 < 10);
            assert((v / 10) % 10 == v / 10);
            assert(out@ =~= dec_repr(v));
        } else {
            assert(dec_repr(v) == dec_repr(v / 10).push(digit_char(v % 10)));
            assert(10 <= v / 10 < 100);
            assert(dec_repr(v / 10) == dec_repr((v / 10) / 10).push(digit_char((v / 10) % 10)));
            assert((v / 10) / 10 == v / 100);
            assert(v / 100 < 10);
            assert(out@ =~= dec_repr(v));
        }
    }
    out
}

} // verus!
