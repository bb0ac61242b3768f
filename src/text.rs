//! Characters, integers and their decimal spelling.
use vstd::prelude::*;
use vstd::string::*;

verus! {

/// The characters that separate tokens: those with the Unicode
/// `White_Space` property.
pub open spec fn is_space(c: char) -> bool {
    let u = c as u32;
    (0x09 <= u && u <= 0x0D) || u == 0x20 || u == 0x85 || u == 0xA0 || u == 0x1680
        || (0x2000 <= u && u <= 0x200A) || u == 0x2028 || u == 0x2029 || u == 0x202F
        || u == 0x205F || u == 0x3000
}

pub fn space(c: char) -> (r: bool)
    ensures
        r == is_space(c),
{
    let u = c as u32;
    (0x09 <= u && u <= 0x0D) || u == 0x20 || u == 0x85 || u == 0xA0 || u == 0x1680
        || (0x2000 <= u && u <= 0x200A) || u == 0x2028 || u == 0x2029 || u == 0x202F
        || u == 0x205F || u == 0x3000
}

pub open spec fn is_digit(c: char) -> bool {
    '0' <= c && c <= '9'
}

pub open spec fn digit_value(c: char) -> int {
    (c as u32) as int - ('0' as u32) as int
}

pub open spec fn all_digits(d: Seq<char>) -> bool {
    forall|i: int| 0 <= i < d.len() ==> is_digit(#[trigger] d[i])
}

/// The number that a string of decimal digits spells.
pub open spec fn digits_value(d: Seq<char>) -> int
    decreases d.len(),
{
    if d.len() == 0 {
        0
    } else {
        digits_value(d.drop_last()) * 10 + digit_value(d.last())
    }
}

/// The integer that `s` spells: an optional `+` or `-`, then at least one
/// decimal digit, and nothing else.
pub open spec fn integer_of(s: Seq<char>) -> Option<int> {
    if s.len() > 1 && s[0] == '-' && all_digits(s.drop_first()) {
        Some(-digits_value(s.drop_first()))
    } else if s.len() > 1 && s[0] == '+' && all_digits(s.drop_first()) {
        Some(digits_value(s.drop_first()))
    } else if s.len() > 0 && all_digits(s) {
        Some(digits_value(s))
    } else {
        None
    }
}

/// What parsing `s` as an `i32` gives: its integer, where that fits.
pub open spec fn i32_of(s: Seq<char>) -> Option<int> {
    match integer_of(s) {
        Some(v) => if i32::MIN <= v && v <= i32::MAX {
            Some(v)
        } else {
            None
        },
        None => None,
    }
}

proof fn lemma_digits_nonneg(d: Seq<char>)
    requires
        all_digits(d),
    ensures
        digits_value(d) >= 0,
    decreases d.len(),
{
    if d.len() > 0 {
        assert(is_digit(d[d.len() - 1]));
        lemma_digits_nonneg(d.drop_last());
    }
}

/// A longer string of digits spells at least as much as its prefixes.
proof fn lemma_digits_prefix(d: Seq<char>, k: int)
    requires
        all_digits(d),
        0 <= k <= d.len(),
    ensures
        digits_value(d.take(k)) <= digits_value(d),
    decreases d.len(),
{
    if k < d.len() {
        assert(is_digit(d[d.len() - 1]));
        assert(d.drop_last().take(k) =~= d.take(k));
        lemma_digits_prefix(d.drop_last(), k);
        lemma_digits_nonneg(d.drop_last());
    } else {
        assert(d.take(k) =~= d);
    }
}

/// Parses `t[from..to]` as an `i32`, as `str::parse::<i32>` does.
pub fn parse_i32(t: &Vec<char>, from: usize, to: usize) -> (r: Option<i32>)
    requires
        from <= to <= t@.len(),
    ensures
        r matches Some(v) ==> i32_of(t@.subrange(from as int, to as int)) == Some(v as int),
        r is None ==> i32_of(t@.subrange(from as int, to as int)) is None,
{
    let ghost s = t@.subrange(from as int, to as int);
    if from == to {
        return None;
    }
    let mut start = from;
    let mut negative = false;
    if t[from] == '-' || t[from] == '+' {
        negative = t[from] == '-';
        start = from + 1;
        if start == to {
            return None;
        }
    }
    let ghost d = t@.subrange(start as int, to as int);
    assert(start > from ==> d =~= s.drop_first());
    assert(start == from ==> d =~= s);
    let mut acc: i64 = 0;
    let mut k: usize = start;
    while k < to
        invariant
            from <= start <= k <= to <= t@.len(),
            s == t@.subrange(from as int, to as int),
            d == t@.subrange(start as int, to as int),
            start == from ==> d == s && s[0] != '-' && s[0] != '+',
            start == from + 1 ==> d == s.drop_first() && (s[0] == '-' || s[0] == '+'),
            start == from || start == from + 1,
            negative == (start == from + 1 && s[0] == '-'),
            all_digits(d.take(k - start)),
            acc == digits_value(d.take(k - start)),
            0 <= acc <= 0x8000_0000,
        decreases to - k,
    {
        let c = t[k];
        if !('0' <= c && c <= '9') {
            assert(d[k - start] == c);
            assert(!all_digits(d));
            assert(!all_digits(s)) by {
                if start == from {
                    assert(s[k - from] == c);
                } else {
                    assert(!is_digit(s[0]));
                }
            }
            return None;
        }
        let ghost before = d.take(k - start);
        assert(d.take(k + 1 - start).drop_last() =~= before);
        acc = acc * 10 + (c as u32 - '0' as u32) as i64;
        k = k + 1;
        assert(all_digits(d.take(k - start))) by {
            assert forall|i: int| 0 <= i < k - start implies is_digit(#[trigger] d.take(k - start)[i]) by {
                if i < k - 1 - start {
                    assert(d.take(k - start)[i] == before[i]);
                }
            }
        }
        if acc > 0x8000_0000 {
            proof {
                if all_digits(d) {
                    lemma_digits_prefix(d, k - start);
                }
                if start == from + 1 {
                    assert(!is_digit(s[0]));
                }
            }
            return None;
        }
    }
    assert(d.take(k - start) =~= d);
    if negative {
        Some((0 - acc) as i32)
    } else if acc > 0x7fff_ffff {
        None
    } else {
        Some(acc as i32)
    }
}

/// The character of a decimal digit.
pub open spec fn digit_char(d: nat) -> char {
    seq!['0', '1', '2', '3', '4', '5', '6', '7', '8', '9'][d as int]
}

/// The decimal spelling of `n`, without leading zeros.
pub open spec fn decimal(n: nat) -> Seq<char>
    decreases n,
{
    if n < 10 {
        seq![digit_char(n)]
    } else {
        decimal(n / 10).push(digit_char(n % 10))
    }
}

/// The decimal spelling of `v`, with a `-` in front where it is negative.
pub open spec fn signed_decimal(v: int) -> Seq<char> {
    if v < 0 {
        seq!['-'] + decimal((-v) as nat)
    } else {
        decimal(v as nat)
    }
}

fn digit_str(d: u64) -> (r: &'static str)
    requires
        d < 10,
    ensures
        r@ == seq![digit_char(d as nat)],
{
    proof {
        reveal_strlit("0");
        reveal_strlit("1");
        reveal_strlit("2");
        reveal_strlit("3");
        reveal_strlit("4");
        reveal_strlit("5");
        reveal_strlit("6");
        reveal_strlit("7");
        reveal_strlit("8");
        reveal_strlit("9");
    }
    match d {
        0 => "0",
        1 => "1",
        2 => "2",
        3 => "3",
        4 => "4",
        5 => "5",
        6 => "6",
        7 => "7",
        8 => "8",
        _ => "9",
    }
}

/// Appends the decimal spelling of `n` to `out`.
pub fn push_decimal(out: &mut String, n: u64)
    ensures
        final(out)@ == old(out)@ + decimal(n as nat),
    decreases n,
{
    if n >= 10 {
        push_decimal(out, n / 10);
    }
    out.append(digit_str(n % 10));
    assert(out@ =~= old(out)@ + decimal(n as nat));
}

/// Appends the decimal spelling of `v`, with its sign, to `out`.
pub fn push_signed(out: &mut String, v: i64)
    ensures
        final(out)@ == old(out)@ + signed_decimal(v as int),
{
    proof {
        reveal_strlit("-");
    }
    if v < 0 {
        out.append("-");
        let m: u64 = if v == i64::MIN {
            0x8000_0000_0000_0000
        } else {
            (0 - v) as u64
        };
        push_decimal(out, m);
        assert(out@ =~= old(out)@ + signed_decimal(v as int));
    } else {
        push_decimal(out, v as u64);
    }
}

} // verus!
