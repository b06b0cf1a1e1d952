//! The values that a pool definition stands for.
//!
//! A range stands for the values from its start up to, and not including,
//! its end. A prefix stands for the addresses of its block from the first
//! up to, and not including, the last, which is the broadcast address.

use crate::definition::{Range, RangeView, Seed, SeedView};
use crate::value::{
    decode_integer, decode_ipv4, decimal_value, encode_integer, encode_ipv4, integer_text,
    ipv4_text, is_decimal, lemma_join_split, lemma_parsed_ipv4_ascii, lemma_split_on_append,
    lemma_split_on_whole, parse_decimal, parse_integer, parse_ipv4, split_on, ValueType,
};
use vstd::arithmetic::power2::{lemma2_to64, lemma_pow2_pos, lemma_pow2_unfold, pow2};
use vstd::prelude::*;
use vstd::string::StrSliceExecFns;

verus! {

/// The canonical texts of the `count` integers from `start` on.
pub open spec fn integer_run(start: int, count: nat) -> Seq<Seq<char>> {
    Seq::new(count, |k: int| integer_text(start + k))
}

/// The canonical texts of the `count` addresses from `start` on.
pub open spec fn ipv4_run(start: nat, count: nat) -> Seq<Seq<char>> {
    Seq::new(count, |k: int| ipv4_text((start + k) as nat))
}

/// The values of a range of a pool of type `vt`, in their order: from the
/// start up to, and not including, the end. There are none where the two
/// ends are the same. Nothing where an end is not the canonical text of a
/// value of the type, where the end comes before the start, or where the
/// type is one whose values cannot be counted through.
pub open spec fn range_values(vt: ValueType, r: RangeView) -> Option<Seq<Seq<char>>> {
    match vt {
        ValueType::Integer => match (parse_integer(r.start), parse_integer(r.end)) {
            (Some(a), Some(b)) => if a <= b {
                Some(integer_run(a, (b - a) as nat))
            } else {
                None
            },
            _ => None,
        },
        ValueType::Ipv4 => match (parse_ipv4(r.start), parse_ipv4(r.end)) {
            (Some(a), Some(b)) => if a <= b {
                Some(ipv4_run(a, (b - a) as nat))
            } else {
                None
            },
            _ => None,
        },
        ValueType::String => None,
    }
}

/// The values of a list of ranges: those of the first range, then those of
/// the second, and so on. Nothing where one of the ranges has none to give.
pub open spec fn ranges_values(vt: ValueType, ranges: Seq<RangeView>) -> Option<Seq<Seq<char>>>
    decreases ranges.len(),
{
    if ranges.len() == 0 {
        Some(Seq::empty())
    } else {
        match (ranges_values(vt, ranges.drop_last()), range_values(vt, ranges.last())) {
            (Some(front), Some(last)) => Some(front + last),
            _ => None,
        }
    }
}

/// The values of a prefix, an address and a length from 0 to 32 with a
/// slash between them: the addresses of the block of that length in which
/// the address lies, from the first up to, and not including, the last.
/// Nothing where the pool is not one of addresses or the text is not a
/// prefix.
pub open spec fn prefix_values(vt: ValueType, prefix: Seq<char>) -> Option<Seq<Seq<char>>> {
    let parts = split_on(prefix, '/');
    if vt == ValueType::Ipv4 && parts.len() == 2 && parse_ipv4(parts[0]) is Some && is_decimal(
        parts[1],
    ) && decimal_value(parts[1]) <= 32 {
        let address = parse_ipv4(parts[0])->Some_0;
        let size = pow2((32 - decimal_value(parts[1])) as nat);
        Some(ipv4_run((address - address % size) as nat, (size - 1) as nat))
    } else {
        None
    }
}

/// The values that a seed stands for.
pub open spec fn seed_values(vt: ValueType, seed: SeedView) -> Option<Seq<Seq<char>>> {
    match seed {
        SeedView::Ranges(ranges) => ranges_values(vt, ranges),
        SeedView::Prefix(prefix) => prefix_values(vt, prefix),
    }
}

/// How often `sep` occurs in `s`.
pub open spec fn count_of(s: Seq<char>, sep: char) -> nat
    decreases s.len(),
{
    if s.len() == 0 {
        0
    } else {
        count_of(s.drop_last(), sep) + if s.last() == sep {
            1nat
        } else {
            0nat
        }
    }
}

/// A text has one part more than it has separators.
pub proof fn lemma_split_on_count(s: Seq<char>, sep: char)
    ensures
        split_on(s, sep).len() == count_of(s, sep) + 1,
    decreases s.len(),
{
    if s.len() > 0 {
        lemma_split_on_count(s.drop_last(), sep);
    }
}

/// Appends the integers from `start` up to, and not including, `end`.
fn push_integers(out: &mut Vec<String>, start: i64, end: i64)
    requires
        start <= end,
    ensures
        final(out).deep_view() == old(out).deep_view() + integer_run(
            start as int,
            (end - start) as nat,
        ),
{
    let mut cur: i64 = start;
    proof {
        assert(old(out).deep_view() + integer_run(start as int, 0) =~= old(out).deep_view());
    }
    while cur < end
        invariant
            start <= cur <= end,
            out.deep_view() == old(out).deep_view() + integer_run(start as int, (cur - start) as nat),
        decreases end - cur,
    {
        let ghost before = out.deep_view();
        let text = encode_integer(cur);
        out.push(text);
        proof {
            assert(out.deep_view() =~= before.push(integer_text(cur as int)));
            assert(before.push(integer_text(cur as int)) =~= old(out).deep_view() + integer_run(
                start as int,
                (cur + 1 - start) as nat,
            ));
        }
        cur = cur + 1;
    }
}

/// Appends the `count` addresses from `start` on.
fn push_addresses(out: &mut Vec<String>, start: u32, count: u64)
    requires
        start + count <= 0x1_0000_0000,
    ensures
        final(out).deep_view() == old(out).deep_view() + ipv4_run(start as nat, count as nat),
{
    let mut k: u64 = 0;
    proof {
        assert(old(out).deep_view() + ipv4_run(start as nat, 0) =~= old(out).deep_view());
    }
    while k < count
        invariant
            k <= count,
            start + count <= 0x1_0000_0000,
            out.deep_view() == old(out).deep_view() + ipv4_run(start as nat, k as nat),
        decreases count - k,
    {
        let ghost before = out.deep_view();
        let text = encode_ipv4((start as u64 + k) as u32);
        out.push(text);
        proof {
            assert(out.deep_view() =~= before.push(ipv4_text((start + k) as nat)));
            assert(before.push(ipv4_text((start + k) as nat)) =~= old(out).deep_view() + ipv4_run(
                start as nat,
                (k + 1) as nat,
            ));
        }
        k = k + 1;
    }
}

/// Appends the values of a range of a pool of type `vt`. Says whether the
/// range has values to give; where it has not, nothing is appended.
pub fn push_range(out: &mut Vec<String>, vt: ValueType, range: &Range) -> (ok: bool)
    ensures
        ok == range_values(vt, range.deep_view()) is Some,
        final(out).deep_view() == match range_values(vt, range.deep_view()) {
            Some(values) => old(out).deep_view() + values,
            None => old(out).deep_view(),
        },
{
    match vt {
        ValueType::Integer => match (
            decode_integer(range.start.as_str()),
            decode_integer(range.end.as_str()),
        ) {
            (Some(a), Some(b)) => {
                if a <= b {
                    push_integers(out, a, b);
                    true
                } else {
                    false
                }
            },
            _ => false,
        },
        ValueType::Ipv4 => match (decode_ipv4(range.start.as_str()), decode_ipv4(range.end.as_str())) {
            (Some(a), Some(b)) => {
                if a <= b {
                    push_addresses(out, a, (b - a) as u64);
                    true
                } else {
                    false
                }
            },
            _ => false,
        },
        ValueType::String => false,
    }
}

/// The place of the one slash of `s`, where it has exactly one.
fn find_slash(s: &str) -> (r: Option<usize>)
    requires
        s.is_ascii(),
    ensures
        match r {
            Some(k) => k < s@.len() && split_on(s@, '/') == seq![
                s@.subrange(0, k as int),
                s@.subrange(k + 1, s@.len() as int),
            ],
            None => split_on(s@, '/').len() != 2,
        },
{
    let n = s.unicode_len();
    let mut found: Option<usize> = None;
    let mut i: usize = 0;
    proof {
        assert(s@.take(0) =~= Seq::<char>::empty());
    }
    while i < n
        invariant
            s.is_ascii(),
            n == s@.len(),
            i <= n,
            match found {
                Some(k) => k < i && s@[k as int] == '/' && count_of(s@.take(i as int), '/') == 1
                    && forall|j: int| 0 <= j < i && j != k ==> s@[j] != '/',
                None => count_of(s@.take(i as int), '/') == 0,
            },
        decreases n - i,
    {
        proof {
            assert(s@.take(i + 1).drop_last() =~= s@.take(i as int));
            assert(s@.take(i + 1).last() == s@[i as int]);
        }
        if s.get_ascii(i) == 47 {
            assert(s@[i as int] == '/');
            match found {
                Some(_) => {
                    proof {
                        lemma_count_grows(s@, i + 1);
                        lemma_split_on_count(s@, '/');
                    }
                    return None;
                },
                None => {
                    proof {
                        assert forall|j: int| 0 <= j < i implies s@[j] != '/' by {
                            lemma_count_zero(s@.take(i as int), '/', j);
                        }
                    }
                    found = Some(i);
                },
            }
        } else {
            assert(s@[i as int] != '/');
        }
        i = i + 1;
    }
    proof {
        assert(s@.take(n as int) =~= s@);
        lemma_split_on_count(s@, '/');
        match found {
            Some(k) => {
                let a = s@.subrange(0, k as int);
                let b = s@.subrange(k + 1, n as int);
                assert(s@ =~= a + seq!['/'] + b);
                lemma_split_on_whole(a, '/');
                lemma_split_on_append(a, b, '/');
                assert(seq![a].push(b) =~= seq![a, b]);
            },
            None => {},
        }
    }
    found
}

/// A text in which the separator does not occur holds it nowhere.
proof fn lemma_count_zero(s: Seq<char>, sep: char, j: int)
    requires
        count_of(s, sep) == 0,
        0 <= j < s.len(),
    ensures
        s[j] != sep,
    decreases s.len(),
{
    if j < s.len() - 1 {
        lemma_count_zero(s.drop_last(), sep, j);
    }
}

/// A text holds a separator no less often than any of its beginnings.
proof fn lemma_count_grows(s: Seq<char>, k: int)
    requires
        0 <= k <= s.len(),
    ensures
        count_of(s.take(k), '/') <= count_of(s, '/'),
    decreases s.len() - k,
{
    if k == s.len() {
        assert(s.take(k) =~= s);
    } else {
        lemma_count_grows(s, k + 1);
        assert(s.take(k + 1).drop_last() =~= s.take(k));
    }
}

/// Two to the power of `e`, for an `e` up to 32.
fn power_of_two(e: u64) -> (r: u64)
    requires
        e <= 32,
    ensures
        r == pow2(e as nat),
        0 < r <= 0x1_0000_0000,
        r * pow2((32 - e) as nat) == 0x1_0000_0000,
{
    let mut r: u64 = 1;
    let mut j: u64 = 0;
    proof {
        lemma2_to64();
    }
    while j < e
        invariant
            j <= e <= 32,
            r == pow2(j as nat),
            r * pow2((32 - j) as nat) == 0x1_0000_0000,
            0 < r <= 0x1_0000_0000,
        decreases e - j,
    {
        proof {
            lemma_pow2_unfold((j + 1) as nat);
            lemma_pow2_unfold((32 - j) as nat);
            lemma_pow2_pos((32 - j - 1) as nat);
            let q = pow2((32 - j - 1) as nat);
            assert(r * (2 * q) == 0x1_0000_0000);
            assert((2 * r) * q == 0x1_0000_0000) by (nonlinear_arith)
                requires
                    r * (2 * q) == 0x1_0000_0000,
            ;
            assert(2 * r <= 0x1_0000_0000) by (nonlinear_arith)
                requires
                    (2 * r) * q == 0x1_0000_0000,
                    q > 0,
                    r > 0,
            ;
        }
        r = r * 2;
        j = j + 1;
    }
    r
}

/// Appends the values of a prefix of a pool of type `vt`. Says whether the
/// prefix has values to give; where it has not, nothing is appended.
pub fn push_prefix(out: &mut Vec<String>, vt: ValueType, prefix: &str) -> (ok: bool)
    ensures
        ok == prefix_values(vt, prefix@) is Some,
        final(out).deep_view() == match prefix_values(vt, prefix@) {
            Some(values) => old(out).deep_view() + values,
            None => old(out).deep_view(),
        },
{
    let ghost parts = split_on(prefix@, '/');
    if vt != ValueType::Ipv4 {
        return false;
    }
    if !prefix.is_ascii() {
        proof {
            if prefix_values(vt, prefix@) is Some {
                lemma_join_split(prefix@, '/');
                lemma_parsed_ipv4_ascii(parts[0]);
                assert(crate::value::join_with(parts, '/') == parts[0] + seq!['/'] + parts[1]) by {
                    assert(parts.drop_last().len() == 1);
                    assert(parts.drop_last()[0] == parts[0]);
                    assert(crate::value::join_with(parts.drop_last(), '/') == parts[0]);
                }
                assert(vstd::utf8::is_ascii_chars(prefix@)) by {
                    assert forall|i: int| 0 <= i < prefix@.len() implies '\0' <= #[trigger] prefix@[i]
                        <= '\u{7f}' by {
                        let t = parts[0] + seq!['/'] + parts[1];
                        assert(t == prefix@);
                        if i < parts[0].len() {
                        } else if i == parts[0].len() {
                        } else {
                            assert(crate::value::is_digit(parts[1][i - parts[0].len() - 1]));
                        }
                    }
                }
            }
        }
        return false;
    }
    let n = prefix.unicode_len();
    let k = match find_slash(prefix) {
        Some(k) => k,
        None => {
            return false;
        },
    };
    let address = match decode_ipv4(prefix.substring_ascii(0, k)) {
        Some(a) => a,
        None => {
            return false;
        },
    };
    let length = match parse_decimal(prefix, k + 1, n, 32) {
        Some(l) => l,
        None => {
            return false;
        },
    };
    let size = power_of_two(32 - length);
    proof {
        vstd::arithmetic::div_mod::lemma_mod_decreases(address as nat, size as nat);
    }
    let network: u64 = address as u64 - address as u64 % size;
    proof {
        let q = pow2(length as nat);
        lemma_pow2_pos(length as nat);
        assert(network + size <= 0x1_0000_0000) by (nonlinear_arith)
            requires
                size > 0,
                q > 0,
                size * q == 0x1_0000_0000,
                0 <= address < 0x1_0000_0000,
                network == (address as int) - (address as int) % (size as int),
        ;
    }
    push_addresses(out, network as u32, size - 1);
    true
}

/// The values that a seed of a pool of type `vt` stands for, in their
/// order, or nothing where it stands for none.
pub fn expand(vt: ValueType, seed: &Seed) -> (r: Option<Vec<String>>)
    ensures
        r.deep_view() == seed_values(vt, seed.deep_view()),
{
    let mut out: Vec<String> = Vec::new();
    match seed {
        Seed::Prefix(prefix) => {
            proof {
                match prefix_values(vt, prefix@) {
                    Some(values) => {
                        assert(Seq::<Seq<char>>::empty() + values =~= values);
                    },
                    None => {},
                }
            }
            if push_prefix(&mut out, vt, prefix.as_str()) {
                Some(out)
            } else {
                None
            }
        },
        Seed::Ranges(ranges) => {
            let ghost rv = ranges.deep_view();
            let mut i: usize = 0;
            proof {
                assert(rv.take(0) =~= Seq::<RangeView>::empty());
            }
            while i < ranges.len()
                invariant
                    i <= ranges.len(),
                    rv == ranges.deep_view(),
                    seed.deep_view() == SeedView::Ranges(rv),
                    ranges_values(vt, rv.take(i as int)) == Some(out.deep_view()),
                decreases ranges.len() - i,
            {
                proof {
                    assert(rv.take(i + 1).drop_last() =~= rv.take(i as int));
                    assert(rv.take(i + 1).last() == rv[i as int]);
                }
                if !push_range(&mut out, vt, &ranges[i]) {
                    proof {
                        assert(range_values(vt, rv[i as int]) is None);
                        assert(ranges_values(vt, rv.take(i + 1)) is None);
                        lemma_ranges_values_fail(vt, rv, i + 1);
                    }
                    return None;
                }
                i = i + 1;
            }
            proof {
                assert(rv.take(ranges.len() as int) =~= rv);
            }
            Some(out)
        },
    }
}

/// Where the first `k` ranges of a list have no values to give, the list
/// has none.
proof fn lemma_ranges_values_fail(vt: ValueType, ranges: Seq<RangeView>, k: int)
    requires
        0 <= k <= ranges.len(),
        ranges_values(vt, ranges.take(k)) is None,
    ensures
        ranges_values(vt, ranges) is None,
    decreases ranges.len() - k,
{
    if k == ranges.len() {
        assert(ranges.take(k) =~= ranges);
    } else {
        assert(ranges.take(k + 1).drop_last() =~= ranges.take(k));
        lemma_ranges_values_fail(vt, ranges, k + 1);
    }
}

} // verus!
