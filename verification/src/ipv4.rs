//! A 32-bit IPv4 address value with lossless conversions between its three
//! representations: four octets, an unsigned 32-bit integer in network byte
//! order, and dotted-decimal text.

use vstd::prelude::*;
use vstd::string::StrSliceExecFns;
use vstd::string::StringExecFns;
use crate::dec_text::{
    is_dec_octet_text,
    is_ascii_digit,
    dec_value,
    dec_repr,
    no_leading_zero,
    lemma_dec_repr_props,
    lemma_dec_repr_of_value,
};
use crate::dec_text;

verus! {

/// The text could not be read as an IPv4 address: it is not four
/// dot-separated decimal integers, each in `[0, 255]`.
#[derive(Debug, Clone, Copy, PartialEq, Eq)]
pub struct ParseError;

/// Positions `i < j < k` cut `s` into a dotted quad: a dot at each of the
/// three positions, and a nonempty run of digits worth at most 255 between
/// them. Every valid dotted-decimal address text is cut this way, at exactly
/// one triple of positions.
pub open spec fn is_split(s: Seq<char>, i: int, j: int, k: int) -> bool {
    &&& 0 <= i < j < k < s.len()
    &&& s[i] == '.'
    &&& s[j] == '.'
    &&& s[k] == '.'
    &&& is_dec_octet_text(s.subrange(0, i))
    &&& is_dec_octet_text(s.subrange(i + 1, j))
    &&& is_dec_octet_text(s.subrange(j + 1, k))
    &&& is_dec_octet_text(s.subrange(k + 1, s.len() as int))
}

/// `s` is a valid dotted-decimal address text.
pub open spec fn is_addr_text(s: Seq<char>) -> bool {
    exists|i: int, j: int, k: int| is_split(s, i, j, k)
}

/// The four parts cut at `i < j < k` are worth exactly the octets of `a`.
pub open spec fn split_matches(s: Seq<char>, i: int, j: int, k: int, a: Ipv4Addr) -> bool {
    &&& a.octets[0] == dec_value(s.subrange(0, i))
    &&& a.octets[1] == dec_value(s.subrange(i + 1, j))
    &&& a.octets[2] == dec_value(s.subrange(j + 1, k))
    &&& a.octets[3] == dec_value(s.subrange(k + 1, s.len() as int))
}

/// The canonical dotted-decimal rendering of an address: the four octets in
/// decimal with no leading zeros, joined by dots.
pub open spec fn addr_text(a: Ipv4Addr) -> Seq<char> {
    dec_repr(a.octets[0] as int) + seq!['.'] + dec_repr(a.octets[1] as int) + seq!['.'] + dec_repr(
        a.octets[2] as int,
    ) + seq!['.'] + dec_repr(a.octets[3] as int)
}

/// In a dotted quad the only dots are the three cut positions: every other
/// character belongs to a part, and parts hold digits only.
pub proof fn lemma_split_dots_only(s: Seq<char>, i: int, j: int, k: int, p: int)
    requires
        is_split(s, i, j, k),
        0 <= p < s.len(),
        s[p] == '.',
    ensures
        p == i || p == j || p == k,
{
    if p != i && p != j && p != k {
        if p < i {
            assert(s.subrange(0, i)[p] == s[p]);
            assert(is_ascii_digit(s[p]));
        } else if p < j {
            assert(s.subrange(i + 1, j)[p - (i + 1)] == s[p]);
            assert(is_ascii_digit(s[p]));
        } else if p < k {
            assert(s.subrange(j + 1, k)[p - (j + 1)] == s[p]);
            assert(is_ascii_digit(s[p]));
        } else {
            assert(s.subrange(k + 1, s.len() as int)[p - (k + 1)] == s[p]);
            assert(is_ascii_digit(s[p]));
        }
        assert(('.' as int) == 46);
        assert(false);
    }
}

/// A dotted quad is cut at exactly one triple of positions: three ordered
/// dots pin the cut.
pub proof fn lemma_split_unique(s: Seq<char>, d1: int, d2: int, d3: int, i: int, j: int, k: int)
    requires
        is_split(s, i, j, k),
        0 <= d1 < d2 < d3 < s.len(),
        s[d1] == '.',
        s[d2] == '.',
        s[d3] == '.',
    ensures
        i == d1 && j == d2 && k == d3,
{
    lemma_split_dots_only(s, i, j, k, d1);
    lemma_split_dots_only(s, i, j, k, d2);
    lemma_split_dots_only(s, i, j, k, d3);
}

/// An IPv4 address stored as four octets in big-endian order.
///
/// The mathematical model (the view) is the big-endian packing of the four
/// octets into a single integer in `[0, 2^32)`.
#[derive(Debug, Clone, Copy, PartialEq, Eq)]
pub struct Ipv4Addr {
    /// The four octets of the IPv4 address, most significant first.
    pub octets: [u8; 4],
}

impl View for Ipv4Addr {
    type V = int;

    open spec fn view(&self) -> int {
        (self.octets[0] as int) * 0x100_0000 + (self.octets[1] as int) * 0x1_0000
            + (self.octets[2] as int) * 0x100 + (self.octets[3] as int)
    }
}

impl Ipv4Addr {
    /// Creates an address from four individual octets; always succeeds and
    /// stores the octets verbatim.
    pub fn new(a: u8, b: u8, c: u8, d: u8) -> (r: Self)
        ensures
            r.octets[0] == a,
            r.octets[1] == b,
            r.octets[2] == c,
            r.octets[3] == d,
            r@ == (a as int) * 0x100_0000 + (b as int) * 0x1_0000 + (c as int) * 0x100 + (
            d as int),
    {
        Self { octets: [a, b, c, d] }
    }

    /// Creates an address from a `u32` in network byte order, most
    /// significant octet first.
    pub fn from_u32(ip: u32) -> (r: Self)
        ensures
            r@ == ip as int,
    {
        let octets = [(ip >> 24) as u8, (ip >> 16) as u8, (ip >> 8) as u8, ip as u8];
        proof {
            assert((((ip >> 24) as u8) as int) * 0x100_0000 + (((ip >> 16) as u8) as int)
                * 0x1_0000 + (((ip >> 8) as u8) as int) * 0x100 + ((ip as u8) as int) == ip as int)
                by (bit_vector);
        }
        Self { octets }
    }

    /// Converts the address to a `u32` in network byte order; the inverse of
    /// `from_u32`.
    pub fn to_u32(&self) -> (r: u32)
        ensures
            r as int == self@,
    {
        let a = self.octets[0];
        let b = self.octets[1];
        let c = self.octets[2];
        let d = self.octets[3];
        let r = ((a as u32) << 24) | ((b as u32) << 16) | ((c as u32) << 8) | (d as u32);
        proof {
            assert(((a as u32) << 24) | ((b as u32) << 16) | ((c as u32) << 8) | (d as u32) == (
            a as int) * 0x100_0000 + (b as int) * 0x1_0000 + (c as int) * 0x100 + (d as int))
                by (bit_vector);
        }
        r
    }

    /// Parses dotted-decimal text, strictly: exactly four parts split on
    /// `.`, each a nonempty run of decimal digits worth at most 255. Signs,
    /// whitespace and out-of-range values are rejected rather than clamped;
    /// on success the octets are the four parts' values in order.
    pub fn parse(s: &str) -> (r: Result<Self, ParseError>)
        ensures
            r is Ok <==> is_addr_text(s@),
            r is Ok ==> forall|i: int, j: int, k: int|
                #[trigger] is_split(s@, i, j, k) ==> split_matches(s@, i, j, k, r->Ok_0),
    {
        let n = s.unicode_len();
        let mut dots: usize = 0;
        let mut d1: usize = 0;
        let mut d2: usize = 0;
        let mut d3: usize = 0;
        let mut idx: usize = 0;
        while idx < n
            invariant
                idx <= n,
                n == s@.len(),
                dots <= 3,
                dots >= 1 ==> d1 < idx && s@[d1 as int] == '.',
                dots >= 2 ==> d1 < d2 && d2 < idx && s@[d2 as int] == '.',
                dots >= 3 ==> d2 < d3 && d3 < idx && s@[d3 as int] == '.',
                forall|p: int|
                    0 <= p < idx && s@[p] == '.' ==> (dots >= 1 && p == d1) || (dots >= 2 && p
                        == d2) || (dots >= 3 && p == d3),
            decreases n - idx,
        {
            let c = s.get_char(idx);
            if c == '.' {
                if dots == 0 {
                    d1 = idx;
                    dots = 1;
                } else if dots == 1 {
                    d2 = idx;
                    dots = 2;
                } else if dots == 2 {
                    d3 = idx;
                    dots = 3;
                } else {
                    proof {
                        if is_addr_text(s@) {
                            let (i, j, k): (int, int, int) = choose|i: int, j: int, k: int|
                                is_split(s@, i, j, k);
                            lemma_split_unique(s@, d1 as int, d2 as int, d3 as int, i, j, k);
                            lemma_split_dots_only(s@, i, j, k, idx as int);
                        }
                    }
                    return Err(ParseError);
                }
            }
            idx = idx + 1;
        }
        if dots != 3 {
            proof {
                if is_addr_text(s@) {
                    let (i, j, k): (int, int, int) = choose|i: int, j: int, k: int|
                        is_split(s@, i, j, k);
                }
            }
            return Err(ParseError);
        }
        let o0 = Self::parse_part(s, 0, d1, Ghost((d1 as int, d2 as int, d3 as int)));
        let o1 = Self::parse_part(s, d1 + 1, d2, Ghost((d1 as int, d2 as int, d3 as int)));
        let o2 = Self::parse_part(s, d2 + 1, d3, Ghost((d1 as int, d2 as int, d3 as int)));
        let o3 = Self::parse_part(s, d3 + 1, n, Ghost((d1 as int, d2 as int, d3 as int)));
        match (o0, o1, o2, o3) {
            (Ok(a), Ok(b), Ok(c), Ok(d)) => {
                let addr = Self::new(a, b, c, d);
                proof {
                    assert(is_split(s@, d1 as int, d2 as int, d3 as int));
                    assert(split_matches(s@, d1 as int, d2 as int, d3 as int, addr));
                    assert forall|i: int, j: int, k: int|
                        #[trigger] is_split(s@, i, j, k) implies split_matches(
                        s@,
                        i,
                        j,
                        k,
                        addr,
                    ) by {
                        lemma_split_unique(s@, d1 as int, d2 as int, d3 as int, i, j, k);
                    }
                }
                Ok(addr)
            },
            _ => Err(ParseError),
        }
    }

    /// Renders the address as dotted-decimal text: each octet in decimal
    /// with no leading zeros, joined by dots, with no surrounding
    /// whitespace. The canonical inverse of `parse`.
    pub fn to_string(&self) -> (r: String)
        ensures
            r@ == addr_text(*self),
    {
        let mut out = dec_text::dec_string(self.octets[0]);
        out.push('.');
        let p1 = dec_text::dec_string(self.octets[1]);
        out.append(p1.as_str());
        out.push('.');
        let p2 = dec_text::dec_string(self.octets[2]);
        out.append(p2.as_str());
        out.push('.');
        let p3 = dec_text::dec_string(self.octets[3]);
        out.append(p3.as_str());
        proof {
            assert(out@ =~= addr_text(*self));
        }
        out
    }

    /// Parses one part of a dotted quad whose three dots stand at the ghost
    /// positions; a failure refutes the whole text, since a valid text is
    /// cut exactly at those dots.
    fn parse_part(s: &str, from: usize, to: usize, Ghost(dots): Ghost<(int, int, int)>) -> (r:
        Result<u8, ParseError>)
        requires
            from <= to <= s@.len(),
            ({
                let (d1, d2, d3) = dots;
                &&& 0 <= d1 < d2 < d3 < s@.len()
                &&& s@[d1] == '.'
                &&& s@[d2] == '.'
                &&& s@[d3] == '.'
                &&& (from == 0 && to == d1) || (from == d1 + 1 && to == d2) || (from == d2 + 1
                    && to == d3) || (from == d3 + 1 && to == s@.len())
            }),
        ensures
            r matches Ok(v) ==> is_dec_octet_text(s@.subrange(from as int, to as int))
                && v as int == dec_value(s@.subrange(from as int, to as int)),
            r is Err ==> !is_addr_text(s@),
    {
        match dec_text::parse_octet(s, from, to) {
            Some(v) => Ok(v),
            None => {
                proof {
                    let (d1, d2, d3) = dots;
                    if is_addr_text(s@) {
                        let (i, j, k): (int, int, int) = choose|i: int, j: int, k: int|
                            is_split(s@, i, j, k);
                        lemma_split_unique(s@, d1, d2, d3, i, j, k);
                    }
                }
                Err(ParseError)
            },
        }
    }
}

/// Formatting and parsing are inverse: the canonical text of an address is
/// a valid dotted quad, and the only address its cuts can match is the
/// address itself. Together with the contract of `parse`, parsing the text
/// of `a` yields exactly `a`.
pub proof fn lemma_format_then_parse(a: Ipv4Addr)
    ensures
        is_addr_text(addr_text(a)),
        forall|i: int, j: int, k: int, b: Ipv4Addr|
            is_split(addr_text(a), i, j, k) && #[trigger] split_matches(addr_text(a), i, j, k, b)
                ==> b == a,
{
    let t0 = dec_repr(a.octets[0] as int);
    let t1 = dec_repr(a.octets[1] as int);
    let t2 = dec_repr(a.octets[2] as int);
    let t3 = dec_repr(a.octets[3] as int);
    lemma_dec_repr_props(a.octets[0] as int);
    lemma_dec_repr_props(a.octets[1] as int);
    lemma_dec_repr_props(a.octets[2] as int);
    lemma_dec_repr_props(a.octets[3] as int);
    let s = addr_text(a);
    let i = t0.len() as int;
    let j = i + 1 + t1.len();
    let k = j + 1 + t2.len();
    assert(s.subrange(0, i) =~= t0);
    assert(s.subrange(i + 1, j) =~= t1);
    assert(s.subrange(j + 1, k) =~= t2);
    assert(s.subrange(k + 1, s.len() as int) =~= t3);
    assert(s[i] == '.' && s[j] == '.' && s[k] == '.');
    assert(is_split(s, i, j, k));
    assert forall|i2: int, j2: int, k2: int, b: Ipv4Addr|
        is_split(s, i2, j2, k2) && #[trigger] split_matches(s, i2, j2, k2, b) implies b == a by {
        lemma_split_unique(s, i, j, k, i2, j2, k2);
        assert(b.octets[0] == a.octets[0]);
        assert(b.octets[1] == a.octets[1]);
        assert(b.octets[2] == a.octets[2]);
        assert(b.octets[3] == a.octets[3]);
        assert(b.octets =~= a.octets);
    }
}

/// Parsing and formatting are inverse on canonical text: a valid dotted
/// quad whose parts carry no leading zeros is exactly the canonical text of
/// the address it matches.
pub proof fn lemma_parse_then_format(s: Seq<char>, i: int, j: int, k: int, a: Ipv4Addr)
    requires
        is_split(s, i, j, k),
        split_matches(s, i, j, k, a),
        no_leading_zero(s.subrange(0, i)),
        no_leading_zero(s.subrange(i + 1, j)),
        no_leading_zero(s.subrange(j + 1, k)),
        no_leading_zero(s.subrange(k + 1, s.len() as int)),
    ensures
        addr_text(a) == s,
{
    lemma_dec_repr_of_value(s.subrange(0, i));
    lemma_dec_repr_of_value(s.subrange(i + 1, j));
    lemma_dec_repr_of_value(s.subrange(j + 1, k));
    lemma_dec_repr_of_value(s.subrange(k + 1, s.len() as int));
    assert(addr_text(a) =~= s);
}

/// The view of every address lies in the 32-bit address space.
pub proof fn lemma_addr_in_range(a: Ipv4Addr)
    ensures
        0 <= a@ <= 0xFFFF_FFFF,
{
}

/// Two addresses with the same integer value have the same octets: the view
/// determines the address.
pub proof fn lemma_addr_injective(a: Ipv4Addr, b: Ipv4Addr)
    requires
        a@ == b@,
    ensures
        a == b,
{
    assert(a.octets[0] == b.octets[0] && a.octets[1] == b.octets[1] && a.octets[2] == b.octets[2]
        && a.octets[3] == b.octets[3]) by {
        let (a0, a1, a2, a3) = (a.octets[0], a.octets[1], a.octets[2], a.octets[3]);
        let (b0, b1, b2, b3) = (b.octets[0], b.octets[1], b.octets[2], b.octets[3]);
        assert((a0 as int) * 0x100_0000 + (a1 as int) * 0x1_0000 + (a2 as int) * 0x100 + (a3 as int)
            == (b0 as int) * 0x100_0000 + (b1 as int) * 0x1_0000 + (b2 as int) * 0x100 + (
        b3 as int) ==> a0 == b0 && a1 == b1 && a2 == b2 && a3 == b3) by (bit_vector);
    }
    assert(a.octets =~= b.octets);
}

} // verus!
