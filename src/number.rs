//! The number syntaxes a telemetry line carries: unsigned decimal integers
//! (as `u8` and `u32` read them from text) and decimal floating-point literals.
use vstd::prelude::*;
use crate::text::{find, find_exec};

verus! {

pub open spec fn is_digit(c: char) -> bool {
    '0' <= c && c <= '9'
}

pub open spec fn all_digits(s: Seq<char>) -> bool {
    forall|i: int| 0 <= i < s.len() ==> is_digit(#[trigger] s[i])
}

/// The value of a string of decimal digits.
pub open spec fn digits_value(s: Seq<char>) -> nat
    decreases s.len(),
{
    if s.len() == 0 {
        0
    } else {
        digits_value(s.drop_last()) * 10 + ((s.last() as u32) - ('0' as u32)) as nat
    }
}

/// `s` without one leading `+`.
pub open spec fn unsigned_digits(s: Seq<char>) -> Seq<char> {
    if s.len() > 0 && s[0] == '+' {
        s.skip(1)
    } else {
        s
    }
}

/// The unsigned integer that `s` spells: an optional `+`, then one or more
/// decimal digits.
pub open spec fn nat_of(s: Seq<char>) -> Option<nat> {
    let d = unsigned_digits(s);
    if d.len() > 0 && all_digits(d) {
        Some(digits_value(d))
    } else {
        None
    }
}

pub open spec fn u32_of(s: Seq<char>) -> Option<u32> {
    match nat_of(s) {
        Some(v) => if v <= u32::MAX {
            Some(v as u32)
        } else {
            None
        },
        None => None,
    }
}

pub open spec fn u8_of(s: Seq<char>) -> Option<u8> {
    match nat_of(s) {
        Some(v) => if v <= u8::MAX {
            Some(v as u8)
        } else {
            None
        },
        None => None,
    }
}

/// `s` without one leading `+` or `-`.
pub open spec fn unsigned_part(s: Seq<char>) -> Seq<char> {
    if s.len() > 0 && (s[0] == '+' || s[0] == '-') {
        s.skip(1)
    } else {
        s
    }
}

/// `s` equals the lower-case ASCII word `w`, ignoring ASCII case.
pub open spec fn equals_ignoring_case(s: Seq<char>, w: Seq<char>) -> bool {
    s.len() == w.len() && forall|i: int|
        0 <= i < s.len() ==> (#[trigger] s[i] == w[i] || ('A' <= s[i] <= 'Z' && (s[i] as u32) + 32
            == (w[i] as u32)))
}

/// One or more digits with at most one `.` among them.
pub open spec fn is_mantissa(s: Seq<char>) -> bool {
    match find(s, seq!['.']) {
        None => s.len() > 0 && all_digits(s),
        Some(k) => s.len() >= 2 && all_digits(s.take(k)) && all_digits(s.skip(k + 1)),
    }
}

/// An optional sign, then one or more digits.
pub open spec fn is_exponent(s: Seq<char>) -> bool {
    let d = unsigned_part(s);
    d.len() > 0 && all_digits(d)
}

pub open spec fn is_exp_mark(c: char) -> bool {
    c == 'e' || c == 'E'
}

/// The first index at or after `i` of an exponent mark.
pub open spec fn exp_mark_from(s: Seq<char>, i: int) -> Option<int>
    decreases s.len() - i,
{
    if i < 0 || i >= s.len() {
        None
    } else if is_exp_mark(s[i]) {
        Some(i)
    } else {
        exp_mark_from(s, i + 1)
    }
}

/// A decimal number: a mantissa, then optionally `e` and an exponent.
pub open spec fn is_decimal(s: Seq<char>) -> bool {
    match exp_mark_from(s, 0) {
        None => is_mantissa(s),
        Some(k) => is_mantissa(s.take(k)) && is_exponent(s.skip(k + 1)),
    }
}

/// The texts that a floating-point number is read from: an optional sign, then
/// `inf`, `infinity`, `nan` (in any case) or a decimal number.
pub open spec fn is_float_text(s: Seq<char>) -> bool {
    let b = unsigned_part(s);
    equals_ignoring_case(b, seq!['i', 'n', 'f']) || equals_ignoring_case(
        b,
        seq!['i', 'n', 'f', 'i', 'n', 'i', 't', 'y'],
    ) || equals_ignoring_case(b, seq!['n', 'a', 'n']) || is_decimal(b)
}

proof fn lemma_digits_value_grows(s: Seq<char>, k: int)
    requires
        0 <= k <= s.len(),
        all_digits(s),
    ensures
        digits_value(s.take(k)) <= digits_value(s),
    decreases s.len() - k,
{
    if k < s.len() {
        lemma_digits_value_grows(s, k + 1);
        assert(s.take(k + 1).drop_last() =~= s.take(k));
    } else {
        assert(s.take(k) =~= s);
    }
}

/// The value of the unsigned integer `s` spells, where it is at most `max`.
pub fn parse_bounded(s: &[char], max: u32) -> (r: Option<u32>)
    ensures
        match r {
            Some(v) => nat_of(s@) == Some(v as nat) && v <= max,
            None => nat_of(s@) is None || nat_of(s@)->0 > max,
        },
{
    let start: usize = if s.len() > 0 && s[0] == '+' {
        1
    } else {
        0
    };
    let ghost d = unsigned_digits(s@);
    assert(d =~= s@.skip(start as int));
    if start >= s.len() {
        return None;
    }
    let mut acc: u64 = 0;
    let mut i = start;
    while i < s.len()
        invariant
            start <= i <= s@.len(),
            start < s@.len(),
            d == s@.skip(start as int),
            d == unsigned_digits(s@),
            acc <= max,
            all_digits(d.take(i - start)),
            acc == digits_value(d.take(i - start)),
        decreases s@.len() - i,
    {
        let c = s[i];
        if !('0' <= c && c <= '9') {
            assert(d[i - start] == c);
            assert(!is_digit(d[i - start]));
            assert(!all_digits(d));
            return None;
        }
        let ghost k = i - start;
        assert(d.take(k + 1).drop_last() =~= d.take(k));
        assert(d.take(k + 1).last() == c);
        acc = acc * 10 + ((c as u32) - ('0' as u32)) as u64;
        i = i + 1;
        assert(all_digits(d.take(i - start)));
        if acc > max as u64 {
            proof {
                if all_digits(d) {
                    lemma_digits_value_grows(d, i - start);
                    assert(nat_of(s@) == Some(digits_value(d)));
                }
            }
            return None;
        }
    }
    assert(d.take(i - start) =~= d);
    Some(acc as u32)
}

pub fn parse_u32(s: &[char]) -> (r: Option<u32>)
    ensures
        r == u32_of(s@),
{
    parse_bounded(s, u32::MAX)
}

pub fn parse_u8(s: &[char]) -> (r: Option<u8>)
    ensures
        r == u8_of(s@),
{
    match parse_bounded(s, 255) {
        Some(v) => Some(v as u8),
        None => None,
    }
}

fn all_digits_exec(s: &[char], lo: usize, hi: usize) -> (r: bool)
    requires
        lo <= hi <= s@.len(),
    ensures
        r == all_digits(s@.subrange(lo as int, hi as int)),
{
    let mut i = lo;
    while i < hi
        invariant
            lo <= i <= hi <= s@.len(),
            all_digits(s@.subrange(lo as int, i as int)),
        decreases hi - i,
    {
        if !('0' <= s[i] && s[i] <= '9') {
            assert(s@.subrange(lo as int, hi as int)[i - lo] == s@[i as int]);
            return false;
        }
        i = i + 1;
        assert(forall|j: int|
            0 <= j < i - lo ==> s@.subrange(lo as int, i as int)[j] == s@.subrange(
                lo as int,
                i - 1,
            )[j] || j == i - 1 - lo);
    }
    true
}

fn is_mantissa_exec(s: &[char]) -> (r: bool)
    ensures
        r == is_mantissa(s@),
{
    let dot: [char; 1] = ['.'];
    let p: &[char] = &dot;
    assert(p@ =~= seq!['.']);
    assert(s@.subrange(0, s@.len() as int) =~= s@);
    match find_exec(s, p) {
        None => s.len() > 0 && all_digits_exec(s, 0, s.len()),
        Some(k) => {
            assert(s@.subrange(0, k as int) =~= s@.take(k as int));
            assert(s@.subrange(k + 1, s@.len() as int) =~= s@.skip(k + 1));
            s.len() >= 2 && all_digits_exec(s, 0, k) && all_digits_exec(s, k + 1, s.len())
        },
    }
}

fn is_exponent_exec(s: &[char]) -> (r: bool)
    ensures
        r == is_exponent(s@),
{
    let start: usize = if s.len() > 0 && (s[0] == '+' || s[0] == '-') {
        1
    } else {
        0
    };
    assert(unsigned_part(s@) =~= s@.subrange(start as int, s@.len() as int));
    start < s.len() && all_digits_exec(s, start, s.len())
}

fn is_decimal_exec(s: &[char]) -> (r: bool)
    ensures
        r == is_decimal(s@),
{
    let mut i: usize = 0;
    while i < s.len()
        invariant
            i <= s@.len(),
            exp_mark_from(s@, i as int) == exp_mark_from(s@, 0),
        decreases s@.len() - i,
    {
        if s[i] == 'e' || s[i] == 'E' {
            let head = crate::text::copy_range(s, 0, i);
            let tail = crate::text::copy_range(s, i + 1, s.len());
            assert(head@ =~= s@.take(i as int));
            assert(tail@ =~= s@.skip(i + 1));
            return is_mantissa_exec(head.as_slice()) && is_exponent_exec(tail.as_slice());
        }
        i = i + 1;
    }
    is_mantissa_exec(s)
}

fn equals_ignoring_case_exec(s: &[char], lo: usize, w: &[char]) -> (r: bool)
    requires
        lo <= s@.len(),
    ensures
        r == equals_ignoring_case(s@.skip(lo as int), w@),
{
    if s.len() - lo != w.len() {
        return false;
    }
    let mut i: usize = 0;
    while i < w.len()
        invariant
            lo <= s.len(),
            s.len() - lo == w.len(),
            i <= w@.len(),
            forall|j: int|
                0 <= j < i ==> (s@.skip(lo as int)[j] == w@[j] || ('A' <= s@.skip(lo as int)[j]
                    <= 'Z' && (s@.skip(lo as int)[j] as u32) + 32 == (w@[j] as u32))),
        decreases w@.len() - i,
    {
        let c = s[lo + i];
        let x = w[i];
        if !(c == x || ('A' <= c && c <= 'Z' && (c as u32) + 32 == (x as u32))) {
            assert(s@.skip(lo as int)[i as int] == c);
            return false;
        }
        i = i + 1;
    }
    true
}

/// Whether `s` is a text that a floating-point number is read from.
pub fn float_text(s: &[char]) -> (r: bool)
    ensures
        r == is_float_text(s@),
{
    let start: usize = if s.len() > 0 && (s[0] == '+' || s[0] == '-') {
        1
    } else {
        0
    };
    assert(unsigned_part(s@) =~= s@.skip(start as int));
    let inf: [char; 3] = ['i', 'n', 'f'];
    let infinity: [char; 8] = ['i', 'n', 'f', 'i', 'n', 'i', 't', 'y'];
    let nan: [char; 3] = ['n', 'a', 'n'];
    let inf_s: &[char] = &inf;
    let infinity_s: &[char] = &infinity;
    let nan_s: &[char] = &nan;
    assert(inf_s@ =~= seq!['i', 'n', 'f']);
    assert(infinity_s@ =~= seq!['i', 'n', 'f', 'i', 'n', 'i', 't', 'y']);
    assert(nan_s@ =~= seq!['n', 'a', 'n']);
    if equals_ignoring_case_exec(s, start, inf_s) || equals_ignoring_case_exec(s, start, infinity_s)
        || equals_ignoring_case_exec(s, start, nan_s) {
        return true;
    }
    let rest = crate::text::copy_range(s, start, s.len());
    assert(rest@ =~= s@.skip(start as int));
    is_decimal_exec(rest.as_slice())
}

} // verus!
