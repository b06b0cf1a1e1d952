//! Pool values and their canonical text.
//!
//! Every value of a pool is kept as text, in the one form that is canonical
//! for its type, so that one table holds the values of all types. This
//! module says what the canonical form of each type is, turns typed values
//! into their text and back, and orders texts as their values are ordered.

use crate::error::ResourcePoolError;
use vstd::prelude::*;
use vstd::string::StrSliceExecFns;

verus! {

/// The type of the values of a pool.
#[derive(Clone, Copy, Debug, PartialEq, Eq, Structural)]
pub enum ValueType {
    /// A signed integer of 64 bits.
    Integer,
    /// An IPv4 address.
    Ipv4,
    /// A token without structure.
    String,
}

/// Whether `c` is one of the ten decimal digits.
pub open spec fn is_digit(c: char) -> bool {
    '0' <= c <= '9'
}

/// The number that the digit `c` stands for.
pub open spec fn digit_value(c: char) -> nat {
    (c as int - 48) as nat
}

/// The digit that stands for `d`, a number below ten.
pub open spec fn digit_char(d: nat) -> char {
    ((d + 48) as u8) as char
}

/// The decimal text of `n`, without leading zeros.
pub open spec fn decimal_text(n: nat) -> Seq<char>
    decreases n,
{
    if n < 10 {
        seq![digit_char(n)]
    } else {
        decimal_text(n / 10).push(digit_char(n % 10))
    }
}

/// Whether every character of `s` is a decimal digit.
pub open spec fn all_digits(s: Seq<char>) -> bool {
    forall|i: int| 0 <= i < s.len() ==> is_digit(#[trigger] s[i])
}

/// Whether `s` is the decimal text of a number: one digit or more, and no
/// zero in front of another digit.
pub open spec fn is_decimal(s: Seq<char>) -> bool {
    &&& s.len() >= 1
    &&& all_digits(s)
    &&& s.len() > 1 ==> s[0] != '0'
}

/// The number that a text of digits stands for.
pub open spec fn decimal_value(s: Seq<char>) -> nat
    decreases s.len(),
{
    if s.len() == 0 {
        0
    } else {
        decimal_value(s.drop_last()) * 10 + digit_value(s.last())
    }
}

/// The decimal text of a number is a decimal text, and it stands for that
/// number.
pub proof fn lemma_decimal_text_value(n: nat)
    ensures
        is_decimal(decimal_text(n)),
        decimal_value(decimal_text(n)) == n,
    decreases n,
{
    if n < 10 {
        let s = decimal_text(n);
        assert(s.drop_last() =~= Seq::<char>::empty());
        assert(decimal_value(s.drop_last()) == 0);
    } else {
        lemma_decimal_text_value(n / 10);
        let p = decimal_text(n / 10);
        let s = p.push(digit_char(n % 10));
        assert(s.drop_last() =~= p);
        assert(s[0] == p[0]);
        if p.len() == 1 {
            assert(p.drop_last() =~= Seq::<char>::empty());
            assert(decimal_value(p.drop_last()) == 0);
            assert(digit_value(p[0]) == n / 10);
        }
    }
}

/// A text of digits that does not begin with a zero stands for a number
/// above zero.
pub proof fn lemma_decimal_value_positive(s: Seq<char>)
    requires
        s.len() >= 1,
        all_digits(s),
        s[0] != '0',
    ensures
        decimal_value(s) > 0,
    decreases s.len(),
{
    if s.len() == 1 {
        assert(s.drop_last() =~= Seq::<char>::empty());
        assert(decimal_value(s.drop_last()) == 0);
    } else {
        assert(s.drop_last()[0] == s[0]);
        lemma_decimal_value_positive(s.drop_last());
    }
}

/// A decimal text is the decimal text of the number it stands for.
pub proof fn lemma_decimal_value_text(s: Seq<char>)
    requires
        is_decimal(s),
    ensures
        decimal_text(decimal_value(s)) == s,
    decreases s.len(),
{
    let p = s.drop_last();
    let c = s.last();
    assert(is_digit(c));
    if s.len() == 1 {
        assert(p =~= Seq::<char>::empty());
        assert(decimal_value(p) == 0);
        assert(decimal_text(decimal_value(s)) =~= s);
    } else {
        assert(p[0] == s[0]);
        assert(is_decimal(p));
        lemma_decimal_value_positive(p);
        lemma_decimal_value_text(p);
        let n = decimal_value(s);
        assert(n == decimal_value(p) * 10 + digit_value(c));
        assert(n / 10 == decimal_value(p));
        assert(n % 10 == digit_value(c));
        assert(decimal_text(n) =~= s);
    }
}

/// The number of a text of digits is no less than that of any of its
/// beginnings.
pub proof fn lemma_decimal_value_grows(s: Seq<char>, k: int)
    requires
        all_digits(s),
        0 <= k <= s.len(),
    ensures
        decimal_value(s.take(k)) <= decimal_value(s),
    decreases s.len() - k,
{
    if k == s.len() {
        assert(s.take(k) =~= s);
    } else {
        lemma_decimal_value_grows(s, k + 1);
        assert(s.take(k + 1).drop_last() =~= s.take(k));
    }
}

/// Reads the characters of `s` from `from` up to `to` as a decimal number.
/// Gives the number where they are a decimal text that stands for no more
/// than `max`, and nothing else.
pub fn parse_decimal(s: &str, from: usize, to: usize, max: u64) -> (r: Option<u64>)
    requires
        s.is_ascii(),
        from <= to <= s@.len(),
    ensures
        r == if is_decimal(s@.subrange(from as int, to as int)) && decimal_value(
            s@.subrange(from as int, to as int),
        ) <= max {
            Some(decimal_value(s@.subrange(from as int, to as int)) as u64)
        } else {
            None::<u64>
        },
{
    let ghost seg = s@.subrange(from as int, to as int);
    if from == to {
        return None;
    }
    if to - from > 1 && s.get_ascii(from) == 48 {
        proof {
            assert(seg[0] == s@[from as int]);
        }
        return None;
    }
    let mut acc: u64 = 0;
    let mut i: usize = from;
    proof {
        assert(seg.take(0) =~= Seq::<char>::empty());
    }
    while i < to
        invariant
            s.is_ascii(),
            from <= i <= to <= s@.len(),
            seg == s@.subrange(from as int, to as int),
            all_digits(seg.take(i - from)),
            acc == decimal_value(seg.take(i - from)),
            acc <= max,
            seg.len() > 1 ==> seg[0] != '0',
        decreases to - i,
    {
        let b = s.get_ascii(i);
        let ghost c = s@[i as int];
        proof {
            assert(seg[i - from] == c);
            assert(seg.take(i - from + 1).drop_last() =~= seg.take(i - from));
            assert(seg.take(i - from + 1).last() == c);
        }
        if b < 48 || b > 57 {
            proof {
                assert(!is_digit(c));
            }
            return None;
        }
        let d: u64 = (b - 48) as u64;
        proof {
            assert(is_digit(c));
            assert(d == digit_value(c));
        }
        if d > max || acc > (max - d) / 10 {
            proof {
                if all_digits(seg) {
                    lemma_decimal_value_grows(seg, i - from + 1);
                }
            }
            return None;
        }
        acc = acc * 10 + d;
        i = i + 1;
        proof {
            assert forall|j: int| 0 <= j < seg.take(i - from).len() implies is_digit(
                #[trigger] seg.take(i - from)[j],
            ) by {
                if j < i - from - 1 {
                    assert(seg.take(i - from)[j] == seg.take(i - from - 1)[j]);
                }
            }
        }
    }
    proof {
        assert(seg.take(to - from) =~= seg);
    }
    Some(acc)
}

/// The digit that stands for `d`.
fn digit_of(d: u64) -> (c: char)
    requires
        d < 10,
    ensures
        c == digit_char(d as nat),
{
    ((d as u8) + 48) as char
}

/// Appends the decimal text of `n` to `out`.
pub fn push_decimal(out: &mut String, n: u64)
    ensures
        final(out)@ == old(out)@ + decimal_text(n as nat),
    decreases n,
{
    if n >= 10 {
        push_decimal(out, n / 10);
    }
    out.push(digit_of(n % 10));
    proof {
        if n >= 10 {
            assert(out@ =~= old(out)@ + decimal_text(n as nat));
        } else {
            assert(out@ =~= old(out)@ + decimal_text(n as nat));
        }
    }
}

/// The canonical text of an integer: its decimal text, with a minus sign in
/// front where it is below zero.
pub open spec fn integer_text(v: int) -> Seq<char> {
    if v < 0 {
        seq!['-'] + decimal_text((-v) as nat)
    } else {
        decimal_text(v as nat)
    }
}

/// The integer that a text is the canonical text of, where it is that of an
/// integer of 64 bits.
pub open spec fn parse_integer(s: Seq<char>) -> Option<int> {
    if s.len() > 0 && s[0] == '-' {
        let m = s.subrange(1, s.len() as int);
        if is_decimal(m) && 0 < decimal_value(m) <= 0x8000_0000_0000_0000 {
            Some(-(decimal_value(m) as int))
        } else {
            None
        }
    } else if is_decimal(s) && decimal_value(s) <= 0x7fff_ffff_ffff_ffff {
        Some(decimal_value(s) as int)
    } else {
        None
    }
}

/// Reading the canonical text of an integer of 64 bits gives the integer.
pub proof fn lemma_integer_text_parses(v: int)
    requires
        -0x8000_0000_0000_0000 <= v <= 0x7fff_ffff_ffff_ffff,
    ensures
        parse_integer(integer_text(v)) == Some(v),
{
    if v < 0 {
        let d = decimal_text((-v) as nat);
        lemma_decimal_text_value((-v) as nat);
        let s = integer_text(v);
        assert(s.subrange(1, s.len() as int) =~= d);
    } else {
        lemma_decimal_text_value(v as nat);
        let s = integer_text(v);
        assert(is_digit(s[0]));
    }
}

/// A text that reads as an integer is the canonical text of that integer.
pub proof fn lemma_parsed_integer_text(s: Seq<char>)
    requires
        parse_integer(s) is Some,
    ensures
        integer_text(parse_integer(s)->Some_0) == s,
        -0x8000_0000_0000_0000 <= parse_integer(s)->Some_0 <= 0x7fff_ffff_ffff_ffff,
{
    if s.len() > 0 && s[0] == '-' {
        let m = s.subrange(1, s.len() as int);
        lemma_decimal_value_text(m);
        assert(seq!['-'] + m =~= s);
    } else {
        lemma_decimal_value_text(s);
    }
}

/// A text that reads as an integer holds ASCII characters only.
pub proof fn lemma_parsed_integer_ascii(s: Seq<char>)
    requires
        parse_integer(s) is Some,
    ensures
        vstd::utf8::is_ascii_chars(s),
{
    assert forall|i: int| 0 <= i < s.len() implies '\0' <= #[trigger] s[i] <= '\u{7f}' by {
        if s[0] == '-' {
            if i > 0 {
                let m = s.subrange(1, s.len() as int);
                assert(m[i - 1] == s[i]);
                assert(is_digit(m[i - 1]));
            }
        } else {
            assert(is_digit(s[i]));
        }
    }
}

/// Reads the canonical text of an integer of 64 bits.
pub fn decode_integer(s: &str) -> (r: Option<i64>)
    ensures
        match r {
            Some(v) => parse_integer(s@) == Some(v as int),
            None => parse_integer(s@) is None,
        },
{
    if !s.is_ascii() {
        proof {
            if parse_integer(s@) is Some {
                lemma_parsed_integer_ascii(s@);
            }
        }
        return None;
    }
    let n = s.unicode_len();
    if n > 0 && s.get_ascii(0) == 45 {
        assert(s@[0] == '-');
        match parse_decimal(s, 1, n, 0x8000_0000_0000_0000) {
            Some(m) => {
                if m == 0 {
                    None
                } else if m == 0x8000_0000_0000_0000 {
                    Some(i64::MIN)
                } else {
                    Some(-(m as i64))
                }
            },
            None => None,
        }
    } else {
        proof {
            assert(s@.subrange(0, n as int) =~= s@);
        }
        match parse_decimal(s, 0, n, 0x7fff_ffff_ffff_ffff) {
            Some(m) => Some(m as i64),
            None => None,
        }
    }
}

/// Writes the canonical text of an integer.
pub fn encode_integer(v: i64) -> (r: String)
    ensures
        r@ == integer_text(v as int),
{
    let mut out = String::new();
    if v < 0 {
        out.push('-');
        let m: u64 = if v == i64::MIN {
            0x8000_0000_0000_0000
        } else {
            (-v) as u64
        };
        push_decimal(&mut out, m);
        proof {
            assert(out@ =~= integer_text(v as int));
        }
    } else {
        push_decimal(&mut out, v as u64);
        proof {
            assert(out@ =~= integer_text(v as int));
        }
    }
    out
}

/// The parts into which the separator `sep` splits the text `s`: one more
/// than `sep` occurs in it, none of them holding `sep`.
pub open spec fn split_on(s: Seq<char>, sep: char) -> Seq<Seq<char>>
    decreases s.len(),
{
    if s.len() == 0 {
        seq![Seq::<char>::empty()]
    } else {
        let parts = split_on(s.drop_last(), sep);
        if s.last() == sep {
            parts.push(Seq::<char>::empty())
        } else {
            parts.update(parts.len() - 1, parts.last().push(s.last()))
        }
    }
}

/// The parts put together again, with `sep` between two of them.
pub open spec fn join_with(parts: Seq<Seq<char>>, sep: char) -> Seq<char>
    decreases parts.len(),
{
    if parts.len() == 0 {
        Seq::<char>::empty()
    } else if parts.len() == 1 {
        parts[0]
    } else {
        join_with(parts.drop_last(), sep) + seq![sep] + parts.last()
    }
}

/// Whether `s` is the decimal text of a number from 0 to 255.
pub open spec fn is_octet(s: Seq<char>) -> bool {
    is_decimal(s) && decimal_value(s) <= 255
}

/// The number whose digits to the base 256 the parts stand for, the first
/// part the most significant.
pub open spec fn octets_value(parts: Seq<Seq<char>>) -> nat
    decreases parts.len(),
{
    if parts.len() == 0 {
        0
    } else {
        octets_value(parts.drop_last()) * 256 + decimal_value(parts.last())
    }
}

/// The canonical text of an IPv4 address: its four octets in decimal, the
/// most significant first, with a dot between two of them.
pub open spec fn ipv4_text(a: nat) -> Seq<char> {
    decimal_text(a / 0x100_0000) + seq!['.'] + decimal_text(a / 0x1_0000 % 256) + seq!['.']
        + decimal_text(a / 0x100 % 256) + seq!['.'] + decimal_text(a % 256)
}

/// The address that a text is the canonical text of, where it is that of an
/// IPv4 address.
pub open spec fn parse_ipv4(s: Seq<char>) -> Option<nat> {
    let p = split_on(s, '.');
    if p.len() == 4 && is_octet(p[0]) && is_octet(p[1]) && is_octet(p[2]) && is_octet(p[3]) {
        Some(octets_value(p))
    } else {
        None
    }
}

/// A text splits into one part at least.
pub proof fn lemma_split_on_len(s: Seq<char>, sep: char)
    ensures
        split_on(s, sep).len() >= 1,
    decreases s.len(),
{
    if s.len() > 0 {
        lemma_split_on_len(s.drop_last(), sep);
    }
}

/// Where `b` does not hold the separator, `a`, the separator and `b` split
/// into the parts of `a` and then `b`.
pub proof fn lemma_split_on_append(a: Seq<char>, b: Seq<char>, sep: char)
    requires
        forall|i: int| 0 <= i < b.len() ==> b[i] != sep,
    ensures
        split_on(a + seq![sep] + b, sep) == split_on(a, sep).push(b),
    decreases b.len(),
{
    let s = a + seq![sep] + b;
    if b.len() == 0 {
        assert(s.drop_last() =~= a);
        assert(b =~= Seq::<char>::empty());
    } else {
        let b1 = b.drop_last();
        lemma_split_on_append(a, b1, sep);
        assert(s.drop_last() =~= a + seq![sep] + b1);
        assert(s.last() == b.last());
        let parts = split_on(a, sep).push(b1);
        assert(parts.update(parts.len() - 1, parts.last().push(b.last())) =~= split_on(a, sep).push(
            b,
        )) by {
            assert(b1.push(b.last()) =~= b);
        }
    }
}

/// A text that does not hold the separator is its own single part.
pub proof fn lemma_split_on_whole(b: Seq<char>, sep: char)
    requires
        forall|i: int| 0 <= i < b.len() ==> b[i] != sep,
    ensures
        split_on(b, sep) == seq![b],
    decreases b.len(),
{
    if b.len() > 0 {
        let b1 = b.drop_last();
        lemma_split_on_whole(b1, sep);
        assert(seq![b1].update(0, b1.push(b.last())) =~= seq![b]) by {
            assert(b1.push(b.last()) =~= b);
        }
    } else {
        assert(b =~= Seq::<char>::empty());
    }
}

/// The parts of a text, put together again, are the text.
pub proof fn lemma_join_split(s: Seq<char>, sep: char)
    ensures
        join_with(split_on(s, sep), sep) == s,
    decreases s.len(),
{
    if s.len() == 0 {
        assert(s =~= Seq::<char>::empty());
    } else {
        let s1 = s.drop_last();
        let parts = split_on(s1, sep);
        lemma_join_split(s1, sep);
        lemma_split_on_len(s1, sep);
        if s.last() == sep {
            let q = parts.push(Seq::<char>::empty());
            assert(q.drop_last() =~= parts);
            assert(join_with(q, sep) =~= s1 + seq![sep]);
            assert(s1 + seq![sep] =~= s);
        } else {
            let q = parts.update(parts.len() - 1, parts.last().push(s.last()));
            if parts.len() == 1 {
                assert(s1 == parts[0]);
                assert(q[0] =~= s);
            } else {
                assert(q.drop_last() =~= parts.drop_last());
                assert(join_with(q, sep) =~= join_with(parts.drop_last(), sep) + seq![sep]
                    + parts.last().push(s.last()));
                assert(join_with(q, sep) =~= s1.push(s.last()));
                assert(s1.push(s.last()) =~= s);
            }
        }
    }
}

proof fn lemma_four_parts(p: Seq<Seq<char>>)
    requires
        p.len() == 4,
    ensures
        join_with(p, '.') == p[0] + seq!['.'] + p[1] + seq!['.'] + p[2] + seq!['.'] + p[3],
        octets_value(p) == ((decimal_value(p[0]) * 256 + decimal_value(p[1])) * 256 + decimal_value(
            p[2],
        )) * 256 + decimal_value(p[3]),
{
    let three = p.drop_last();
    let two = three.drop_last();
    let one = two.drop_last();
    let none = one.drop_last();
    assert(none.len() == 0);
    assert(octets_value(none) == 0);
    assert(octets_value(one) == decimal_value(p[0]));
    assert(octets_value(two) == octets_value(one) * 256 + decimal_value(p[1]));
    assert(octets_value(three) == octets_value(two) * 256 + decimal_value(p[2]));
    assert(join_with(one, '.') == p[0]);
    assert(join_with(two, '.') == p[0] + seq!['.'] + p[1]);
    assert(join_with(three, '.') == join_with(two, '.') + seq!['.'] + p[2]);
}

/// Reading the canonical text of an IPv4 address gives the address.
pub proof fn lemma_ipv4_text_parses(a: nat)
    requires
        a <= 0xffff_ffff,
    ensures
        parse_ipv4(ipv4_text(a)) == Some(a),
{
    let d0 = decimal_text(a / 0x100_0000);
    let d1 = decimal_text(a / 0x1_0000 % 256);
    let d2 = decimal_text(a / 0x100 % 256);
    let d3 = decimal_text(a % 256);
    lemma_decimal_text_value(a / 0x100_0000);
    lemma_decimal_text_value(a / 0x1_0000 % 256);
    lemma_decimal_text_value(a / 0x100 % 256);
    lemma_decimal_text_value(a % 256);
    assert forall|i: int| 0 <= i < d0.len() implies d0[i] != '.' by {
        assert(is_digit(d0[i]));
    }
    assert forall|i: int| 0 <= i < d1.len() implies d1[i] != '.' by {
        assert(is_digit(d1[i]));
    }
    assert forall|i: int| 0 <= i < d2.len() implies d2[i] != '.' by {
        assert(is_digit(d2[i]));
    }
    assert forall|i: int| 0 <= i < d3.len() implies d3[i] != '.' by {
        assert(is_digit(d3[i]));
    }
    lemma_split_on_whole(d0, '.');
    lemma_split_on_append(d0, d1, '.');
    lemma_split_on_append(d0 + seq!['.'] + d1, d2, '.');
    lemma_split_on_append(d0 + seq!['.'] + d1 + seq!['.'] + d2, d3, '.');
    let p = split_on(ipv4_text(a), '.');
    assert(p =~= seq![d0, d1, d2, d3]);
    lemma_four_parts(p);
}

/// A text that reads as an IPv4 address is the canonical text of that
/// address.
pub proof fn lemma_parsed_ipv4_text(s: Seq<char>)
    requires
        parse_ipv4(s) is Some,
    ensures
        ipv4_text(parse_ipv4(s)->Some_0) == s,
        parse_ipv4(s)->Some_0 <= 0xffff_ffff,
{
    let p = split_on(s, '.');
    lemma_join_split(s, '.');
    lemma_four_parts(p);
    lemma_decimal_value_text(p[0]);
    lemma_decimal_value_text(p[1]);
    lemma_decimal_value_text(p[2]);
    lemma_decimal_value_text(p[3]);
    let a = parse_ipv4(s)->Some_0;
    let v0 = decimal_value(p[0]);
    let v1 = decimal_value(p[1]);
    let v2 = decimal_value(p[2]);
    let v3 = decimal_value(p[3]);
    assert(a == ((v0 * 256 + v1) * 256 + v2) * 256 + v3);
    assert(a / 0x100_0000 == v0);
    assert(a / 0x1_0000 % 256 == v1);
    assert(a / 0x100 % 256 == v2);
    assert(a % 256 == v3);
}

/// A text that reads as an IPv4 address holds ASCII characters only.
pub proof fn lemma_parsed_ipv4_ascii(s: Seq<char>)
    requires
        parse_ipv4(s) is Some,
    ensures
        vstd::utf8::is_ascii_chars(s),
{
    lemma_parsed_ipv4_text(s);
    let a = parse_ipv4(s)->Some_0;
    lemma_decimal_text_value(a / 0x100_0000);
    lemma_decimal_text_value(a / 0x1_0000 % 256);
    lemma_decimal_text_value(a / 0x100 % 256);
    lemma_decimal_text_value(a % 256);
    let d0 = decimal_text(a / 0x100_0000);
    let d1 = decimal_text(a / 0x1_0000 % 256);
    let d2 = decimal_text(a / 0x100 % 256);
    let d3 = decimal_text(a % 256);
    assert forall|i: int| 0 <= i < s.len() implies '\0' <= #[trigger] s[i] <= '\u{7f}' by {
        let t = d0 + seq!['.'] + d1 + seq!['.'] + d2 + seq!['.'] + d3;
        assert(t == s);
        if i < d0.len() {
            assert(is_digit(d0[i]));
        } else if i == d0.len() {
        } else if i < d0.len() + 1 + d1.len() {
            assert(is_digit(d1[i - d0.len() - 1]));
        } else if i == d0.len() + 1 + d1.len() {
        } else if i < d0.len() + 1 + d1.len() + 1 + d2.len() {
            assert(is_digit(d2[i - d0.len() - 1 - d1.len() - 1]));
        } else if i == d0.len() + 1 + d1.len() + 1 + d2.len() {
        } else {
            assert(is_digit(d3[i - d0.len() - 1 - d1.len() - 1 - d2.len() - 1]));
        }
    }
}

/// Reads the canonical text of an IPv4 address.
pub fn decode_ipv4(s: &str) -> (r: Option<u32>)
    ensures
        match r {
            Some(a) => parse_ipv4(s@) == Some(a as nat),
            None => parse_ipv4(s@) is None,
        },
{
    if !s.is_ascii() {
        proof {
            if parse_ipv4(s@) is Some {
                lemma_parsed_ipv4_ascii(s@);
            }
        }
        return None;
    }
    let n = s.unicode_len();
    let mut i: usize = 0;
    let mut start: usize = 0;
    let mut count: usize = 0;
    let mut acc: u32 = 0;
    let mut ok = true;
    let ghost mut done: Seq<Seq<char>> = Seq::empty();
    proof {
        assert(s@.take(0) =~= Seq::<char>::empty());
        assert(s@.subrange(0, 0) =~= Seq::<char>::empty());
        assert(split_on(s@.take(0), '.') =~= done.push(s@.subrange(0, 0)));
    }
    while i < n
        invariant
            s.is_ascii(),
            n == s@.len(),
            start <= i <= n,
            count <= i,
            done.len() == count,
            split_on(s@.take(i as int), '.') == done.push(s@.subrange(start as int, i as int)),
            ok ==> count <= 3 && acc == octets_value(done) && (forall|k: int|
                0 <= k < count ==> is_octet(#[trigger] done[k])),
            ok && count == 0 ==> acc == 0,
            ok && count == 1 ==> acc < 0x100,
            ok && count == 2 ==> acc < 0x1_0000,
            ok && count == 3 ==> acc < 0x100_0000,
            !ok ==> count >= 4 || (exists|k: int| 0 <= k < count && !is_octet(#[trigger] done[k])),
        decreases n - i,
    {
        let b = s.get_ascii(i);
        proof {
            assert(s@.take(i + 1).drop_last() =~= s@.take(i as int));
            assert(s@.take(i + 1).last() == s@[i as int]);
        }
        if b == 46 {
            assert(s@[i as int] == '.');
            let ghost seg = s@.subrange(start as int, i as int);
            let ghost old_done = done;
            let ghost was_ok = ok;
            if ok {
                if count >= 3 {
                    ok = false;
                } else {
                    match parse_decimal(s, start, i, 255) {
                        Some(v) => {
                            acc = acc * 256 + v as u32;
                        },
                        None => {
                            ok = false;
                        },
                    }
                }
            }
            proof {
                done = done.push(seg);
                assert(done.drop_last() =~= old_done);
                assert(s@.subrange(i + 1, i + 1) =~= Seq::<char>::empty());
                if !ok {
                    if was_ok {
                        if count < 3 {
                            assert(done[count as int] == seg);
                            assert(!is_octet(done[count as int]));
                        }
                    } else if count < 4 {
                        let k = choose|k: int| 0 <= k < count && !is_octet(#[trigger] old_done[k]);
                        assert(done[k] == old_done[k]);
                    }
                } else {
                    assert forall|k: int| 0 <= k < count + 1 implies is_octet(
                        #[trigger] done[k],
                    ) by {
                        if k < count {
                            assert(done[k] == old_done[k]);
                        }
                    }
                }
            }
            count = count + 1;
            start = i + 1;
        } else {
            proof {
                assert(s@[i as int] != '.');
                assert(s@.subrange(start as int, i as int).push(s@[i as int]) =~= s@.subrange(
                    start as int,
                    i + 1,
                ));
                assert(done.push(s@.subrange(start as int, i as int)).update(
                    count as int,
                    s@.subrange(start as int, i + 1),
                ) =~= done.push(s@.subrange(start as int, i + 1)));
            }
        }
        i = i + 1;
    }
    let ghost last = s@.subrange(start as int, n as int);
    let ghost parts = done.push(last);
    proof {
        assert(s@.take(n as int) =~= s@);
        assert(parts == split_on(s@, '.'));
        if parts.len() == 4 {
            lemma_four_parts(parts);
            assert(parts.drop_last() =~= done);
        }
    }
    if ok && count == 3 {
        match parse_decimal(s, start, n, 255) {
            Some(v) => Some(acc * 256 + v as u32),
            None => None,
        }
    } else {
        None
    }
}

/// Writes the canonical text of an IPv4 address.
pub fn encode_ipv4(a: u32) -> (r: String)
    ensures
        r@ == ipv4_text(a as nat),
{
    let mut out = String::new();
    push_decimal(&mut out, (a / 0x100_0000) as u64);
    out.push('.');
    push_decimal(&mut out, (a / 0x1_0000 % 256) as u64);
    out.push('.');
    push_decimal(&mut out, (a / 0x100 % 256) as u64);
    out.push('.');
    push_decimal(&mut out, (a % 256) as u64);
    proof {
        assert(out@ =~= ipv4_text(a as nat));
    }
    out
}

/// A value of a pool, as what it is rather than as its text.
#[derive(Debug, Clone, PartialEq, Eq)]
pub enum TypedValue {
    Integer(i64),
    Ipv4(u32),
    String(String),
}

/// A value of a pool as mathematics has it.
pub enum ValueView {
    Integer(int),
    Ipv4(nat),
    String(Seq<char>),
}

impl View for TypedValue {
    type V = ValueView;

    open spec fn view(&self) -> ValueView {
        match *self {
            TypedValue::Integer(v) => ValueView::Integer(v as int),
            TypedValue::Ipv4(a) => ValueView::Ipv4(a as nat),
            TypedValue::String(t) => ValueView::String(t@),
        }
    }
}

impl ValueView {
    /// The type of the value.
    pub open spec fn value_type(self) -> ValueType {
        match self {
            ValueView::Integer(_) => ValueType::Integer,
            ValueView::Ipv4(_) => ValueType::Ipv4,
            ValueView::String(_) => ValueType::String,
        }
    }

    /// Whether the value is one that a pool can hold: an integer of 64
    /// bits, an address of 32 bits, or a token that is not empty.
    pub open spec fn in_range(self) -> bool {
        match self {
            ValueView::Integer(v) => -0x8000_0000_0000_0000 <= v <= 0x7fff_ffff_ffff_ffff,
            ValueView::Ipv4(a) => a <= 0xffff_ffff,
            ValueView::String(t) => t.len() > 0,
        }
    }

    /// The text of the value, canonical where the value is in range.
    pub open spec fn text(self) -> Seq<char> {
        match self {
            ValueView::Integer(v) => integer_text(v),
            ValueView::Ipv4(a) => ipv4_text(a),
            ValueView::String(t) => t,
        }
    }

    /// Whether the value comes before `other` in the order of their type:
    /// numbers as numbers, tokens as in a dictionary. Values of two types
    /// are not ordered.
    pub open spec fn less_than(self, other: ValueView) -> bool {
        match (self, other) {
            (ValueView::Integer(x), ValueView::Integer(y)) => x < y,
            (ValueView::Ipv4(x), ValueView::Ipv4(y)) => x < y,
            (ValueView::String(x), ValueView::String(y)) => text_lt(x, y),
            _ => false,
        }
    }
}

/// The value of type `vt` whose canonical text `s` is, where there is one.
pub open spec fn parse_value(vt: ValueType, s: Seq<char>) -> Option<ValueView> {
    match vt {
        ValueType::Integer => match parse_integer(s) {
            Some(v) => Some(ValueView::Integer(v)),
            None => None,
        },
        ValueType::Ipv4 => match parse_ipv4(s) {
            Some(a) => Some(ValueView::Ipv4(a)),
            None => None,
        },
        ValueType::String => if s.len() > 0 {
            Some(ValueView::String(s))
        } else {
            None
        },
    }
}

/// Whether `s` is the canonical text of a value of type `vt`.
pub open spec fn is_canonical(vt: ValueType, s: Seq<char>) -> bool {
    parse_value(vt, s) is Some
}

/// Whether the text `a` comes before the text `b` as in a dictionary: at
/// the first place where they differ `a` has the lesser character, or `a`
/// ends there and `b` goes on.
pub open spec fn text_lt(a: Seq<char>, b: Seq<char>) -> bool
    decreases a.len(),
{
    if b.len() == 0 {
        false
    } else if a.len() == 0 {
        true
    } else if a[0] != b[0] {
        a[0] < b[0]
    } else {
        text_lt(a.skip(1), b.skip(1))
    }
}

/// Whether, of two canonical texts of type `vt`, the value of `a` comes
/// before that of `b`. A text that is not canonical is not ordered.
pub open spec fn natural_lt(vt: ValueType, a: Seq<char>, b: Seq<char>) -> bool {
    match (parse_value(vt, a), parse_value(vt, b)) {
        (Some(x), Some(y)) => x.less_than(y),
        _ => false,
    }
}

/// A canonical text, read and written again, is the same text.
pub proof fn lemma_parse_then_text(vt: ValueType, s: Seq<char>)
    requires
        is_canonical(vt, s),
    ensures
        parse_value(vt, s)->Some_0.text() == s,
        parse_value(vt, s)->Some_0.in_range(),
        parse_value(vt, s)->Some_0.value_type() == vt,
{
    match vt {
        ValueType::Integer => {
            lemma_parsed_integer_text(s);
        },
        ValueType::Ipv4 => {
            lemma_parsed_ipv4_text(s);
        },
        ValueType::String => {},
    }
}

/// A value in range, written and read again, is the same value.
pub proof fn lemma_text_then_parse(v: ValueView)
    requires
        v.in_range(),
    ensures
        parse_value(v.value_type(), v.text()) == Some(v),
{
    match v {
        ValueView::Integer(x) => {
            lemma_integer_text_parses(x);
        },
        ValueView::Ipv4(a) => {
            lemma_ipv4_text_parses(a);
        },
        ValueView::String(t) => {},
    }
}

/// No text comes before itself.
pub proof fn lemma_text_lt_irreflexive(a: Seq<char>)
    ensures
        !text_lt(a, a),
    decreases a.len(),
{
    if a.len() > 0 {
        lemma_text_lt_irreflexive(a.skip(1));
    }
}

/// The order of texts is transitive.
pub proof fn lemma_text_lt_transitive(a: Seq<char>, b: Seq<char>, c: Seq<char>)
    requires
        text_lt(a, b),
        text_lt(b, c),
    ensures
        text_lt(a, c),
    decreases a.len(),
{
    if a.len() > 0 && a[0] == b[0] && b[0] == c[0] {
        lemma_text_lt_transitive(a.skip(1), b.skip(1), c.skip(1));
    }
}

/// Of two different texts one comes before the other.
pub proof fn lemma_text_lt_total(a: Seq<char>, b: Seq<char>)
    requires
        a != b,
    ensures
        text_lt(a, b) || text_lt(b, a),
    decreases a.len(),
{
    if a.len() > 0 && b.len() > 0 && a[0] == b[0] {
        if a.skip(1) == b.skip(1) {
            assert(a =~= seq![a[0]] + a.skip(1));
            assert(b =~= seq![b[0]] + b.skip(1));
        }
        lemma_text_lt_total(a.skip(1), b.skip(1));
    } else if a.len() == 0 && b.len() == 0 {
        assert(a =~= b);
    }
}

/// No canonical text comes before itself.
pub proof fn lemma_natural_lt_irreflexive(vt: ValueType, a: Seq<char>)
    ensures
        !natural_lt(vt, a, a),
{
    lemma_text_lt_irreflexive(a);
}

/// The order of canonical texts is transitive.
pub proof fn lemma_natural_lt_transitive(vt: ValueType, a: Seq<char>, b: Seq<char>, c: Seq<char>)
    requires
        natural_lt(vt, a, b),
        natural_lt(vt, b, c),
    ensures
        natural_lt(vt, a, c),
{
    if vt == ValueType::String {
        lemma_text_lt_transitive(a, b, c);
    }
}

/// Of two different canonical texts of one type one comes before the other.
pub proof fn lemma_natural_lt_total(vt: ValueType, a: Seq<char>, b: Seq<char>)
    requires
        is_canonical(vt, a),
        is_canonical(vt, b),
        a != b,
    ensures
        natural_lt(vt, a, b) || natural_lt(vt, b, a),
{
    lemma_parse_then_text(vt, a);
    lemma_parse_then_text(vt, b);
    if vt == ValueType::String {
        lemma_text_lt_total(a, b);
    }
}

/// Whether the text `a` comes before the text `b` as in a dictionary.
pub fn text_less(a: &str, b: &str) -> (r: bool)
    ensures
        r == text_lt(a@, b@),
{
    let la = a.unicode_len();
    let lb = b.unicode_len();
    let mut i: usize = 0;
    proof {
        assert(a@.skip(0) =~= a@);
        assert(b@.skip(0) =~= b@);
    }
    while i < la && i < lb
        invariant
            la == a@.len(),
            lb == b@.len(),
            i <= la,
            i <= lb,
            text_lt(a@, b@) == text_lt(a@.skip(i as int), b@.skip(i as int)),
        decreases la - i,
    {
        let ca = a.get_char(i);
        let cb = b.get_char(i);
        proof {
            assert(a@.skip(i as int)[0] == ca);
            assert(b@.skip(i as int)[0] == cb);
            assert(a@.skip(i as int).skip(1) =~= a@.skip(i + 1));
            assert(b@.skip(i as int).skip(1) =~= b@.skip(i + 1));
        }
        if ca != cb {
            return (ca as u32) < (cb as u32);
        }
        i = i + 1;
    }
    i < lb
}

/// Writes the canonical text of a value.
pub fn encode(v: &TypedValue) -> (r: String)
    ensures
        r@ == v@.text(),
{
    match v {
        TypedValue::Integer(x) => encode_integer(*x),
        TypedValue::Ipv4(a) => encode_ipv4(*a),
        TypedValue::String(t) => t.clone(),
    }
}

/// Reads a canonical text as a value of type `vt`. A text that is not the
/// canonical text of a value of that type is refused.
pub fn decode(s: &str, vt: ValueType) -> (r: Result<TypedValue, ResourcePoolError>)
    ensures
        match r {
            Ok(v) => parse_value(vt, s@) == Some(v@),
            Err(e) => e == ResourcePoolError::InvalidValue && parse_value(vt, s@) is None,
        },
{
    match vt {
        ValueType::Integer => match decode_integer(s) {
            Some(v) => Ok(TypedValue::Integer(v)),
            None => Err(ResourcePoolError::InvalidValue),
        },
        ValueType::Ipv4 => match decode_ipv4(s) {
            Some(a) => Ok(TypedValue::Ipv4(a)),
            None => Err(ResourcePoolError::InvalidValue),
        },
        ValueType::String => {
            if s.unicode_len() > 0 {
                Ok(TypedValue::String(s.to_owned()))
            } else {
                Err(ResourcePoolError::InvalidValue)
            }
        },
    }
}

/// Whether `s` is the canonical text of a value of type `vt`.
pub fn check_canonical(s: &str, vt: ValueType) -> (r: bool)
    ensures
        r == is_canonical(vt, s@),
{
    match vt {
        ValueType::Integer => decode_integer(s).is_some(),
        ValueType::Ipv4 => decode_ipv4(s).is_some(),
        ValueType::String => s.unicode_len() > 0,
    }
}

/// Whether, of two texts, the value of `a` comes before that of `b` in the
/// order of the type `vt`.
pub fn natural_less(vt: ValueType, a: &str, b: &str) -> (r: bool)
    ensures
        r == natural_lt(vt, a@, b@),
{
    match vt {
        ValueType::Integer => match (decode_integer(a), decode_integer(b)) {
            (Some(x), Some(y)) => x < y,
            _ => false,
        },
        ValueType::Ipv4 => match (decode_ipv4(a), decode_ipv4(b)) {
            (Some(x), Some(y)) => x < y,
            _ => false,
        },
        ValueType::String => a.unicode_len() > 0 && b.unicode_len() > 0 && text_less(a, b),
    }
}

} // verus!
