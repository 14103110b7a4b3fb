//! Filters applied to every directory entry: size bounds, modification
//! date bounds and accepted extensions; and the parser for human sizes.

use vstd::prelude::*;
use vstd::arithmetic::div_mod::{lemma_div_denominator, lemma_hoist_over_denominator};
use crate::text::{
    chars_of, string_of, trim_chars, trim_spec, to_uppercase, uppercase_of,
    eq_ignore_ascii_case, eq_ignore_ascii_case_spec,
};
use crate::outside::{parse_ymd, chrono_ymd, path_extension, path_extension_of, local_stamp, stamp_ok,
    civil_stamp};
use crate::text::{decimal, digit_char, decimal_string, push_char, is_ascii_seq, ascii_lower, ascii_upper, is_space,
    trim_start_spec, trim_end_spec};

verus! {

/// Whether a file of `file_size` bytes lies within the optional bounds
/// (both bounds inclusive).
pub fn passes_size_filter(file_size: u64, size_min: Option<u64>, size_max: Option<u64>) -> (r: bool)
    ensures
        r == ((match size_min {
            Some(min) => file_size >= min,
            None => true,
        }) && (match size_max {
            Some(max) => file_size <= max,
            None => true,
        })),
{
    if let Some(min) = size_min {
        if file_size < min {
            return false;
        }
    }
    if let Some(max) = size_max {
        if file_size > max {
            return false;
        }
    }
    true
}

/// Calendar order on (year, month, day).
pub open spec fn date_before(a: (i32, u32, u32), b: (i32, u32, u32)) -> bool {
    a.0 < b.0 || (a.0 == b.0 && (a.1 < b.1 || (a.1 == b.1 && a.2 < b.2)))
}

pub fn date_earlier(a: (i32, u32, u32), b: (i32, u32, u32)) -> (r: bool)
    ensures
        r == date_before(a, b),
{
    a.0 < b.0 || (a.0 == b.0 && (a.1 < b.1 || (a.1 == b.1 && a.2 < b.2)))
}

/// What the date filter decides for a file last modified on `modified`
/// (local calendar date; `None` when the time could not be read).
/// A bound that does not parse as `YYYY-MM-DD` is ignored.
pub open spec fn date_filter_spec(
    modified: Option<(i32, u32, u32)>,
    after: Option<Seq<char>>,
    before: Option<Seq<char>>,
) -> bool {
    match modified {
        None => true,
        Some(m) => {
            &&& (match after {
                Some(a) => match chrono_ymd(a) {
                    Some(ad) => !date_before(m, ad),
                    None => true,
                },
                None => true,
            })
            &&& (match before {
                Some(b) => match chrono_ymd(b) {
                    Some(bd) => !date_before(bd, m),
                    None => true,
                },
                None => true,
            })
        },
    }
}

pub open spec fn opt_view(s: Option<&str>) -> Option<Seq<char>> {
    match s {
        Some(t) => Some(t@),
        None => None,
    }
}

/// Keeps a file modified on `modified` when it is not before `after` and
/// not after `before` (both inclusive).
pub fn passes_date_filter(modified: Option<(i32, u32, u32)>, after: Option<&str>, before: Option<&str>) -> (r: bool)
    ensures
        r == date_filter_spec(modified, opt_view(after), opt_view(before)),
{
    let m = match modified {
        Some(m) => m,
        None => return true,
    };
    if let Some(after_str) = after {
        if let Some(after_date) = parse_ymd(after_str) {
            if date_earlier(m, after_date) {
                return false;
            }
        }
    }
    if let Some(before_str) = before {
        if let Some(before_date) = parse_ymd(before_str) {
            if date_earlier(before_date, m) {
                return false;
            }
        }
    }
    true
}

/// Some entry of `exts` equals `e` up to ASCII case.
pub open spec fn ext_listed(exts: Seq<String>, e: Seq<char>) -> bool {
    exists|i: int| 0 <= i < exts.len() && eq_ignore_ascii_case_spec(#[trigger] exts[i]@, e)
}

pub fn ext_in_list(exts: &[String], e: &str) -> (r: bool)
    ensures
        r == ext_listed(exts@, e@),
{
    let mut i: usize = 0;
    while i < exts.len()
        invariant
            i <= exts@.len(),
            forall|j: int| 0 <= j < i ==> !eq_ignore_ascii_case_spec(#[trigger] exts@[j]@, e@),
        decreases exts.len() - i,
    {
        if eq_ignore_ascii_case(exts[i].as_str(), e) {
            return true;
        }
        i = i + 1;
    }
    false
}

/// What the extension filter decides for `path`: everything passes when no
/// extension is asked for; otherwise the path's extension must be one of
/// them, ignoring ASCII case.
pub open spec fn ext_filter_spec(path: Seq<char>, exts: Seq<String>) -> bool {
    exts.len() == 0 || match path_extension_of(path) {
        Some(e) => ext_listed(exts, e),
        None => false,
    }
}

pub fn passes_ext_filter(path: &str, extensions: &[String]) -> (r: bool)
    ensures
        r == ext_filter_spec(path@, extensions@),
{
    if extensions.len() == 0 {
        return true;
    }
    match path_extension(path) {
        Some(ext) => ext_in_list(extensions, ext.as_str()),
        None => false,
    }
}

// ---------------------------------------------------------------------
// Human-readable sizes
// ---------------------------------------------------------------------

pub open spec fn is_digit(c: char) -> bool {
    '0' <= c && c <= '9'
}

/// Characters that may belong to the number of a size.
pub open spec fn number_char(c: char) -> bool {
    is_digit(c) || c == '.'
}

pub open spec fn all_digits(s: Seq<char>) -> bool {
    forall|i: int| 0 <= i < s.len() ==> is_digit(#[trigger] s[i])
}

pub open spec fn digit_value(c: char) -> nat {
    ((c as u32) - 48) as nat
}

/// Value of a run of decimal digits.
pub open spec fn digits_value(s: Seq<char>) -> nat
    decreases s.len(),
{
    if s.len() == 0 {
        0
    } else {
        digits_value(s.drop_last()) * 10 + digit_value(s.last())
    }
}

pub open spec fn pow10(k: nat) -> nat
    decreases k,
{
    if k == 0 {
        1
    } else {
        pow10((k - 1) as nat) * 10
    }
}

/// Position of the first character that is neither a digit nor a dot.
pub open spec fn unit_start(u: Seq<char>) -> Option<int> {
    if exists|i: int| 0 <= i < u.len() && !number_char(#[trigger] u[i]) {
        Some(choose|i: int| 0 <= i < u.len() && !number_char(#[trigger] u[i]) && forall|j: int|
            0 <= j < i ==> number_char(#[trigger] u[j]))
    } else {
        None
    }
}

/// A number made of digits and dots, split at its dot: accepted when it
/// is digits with at most one dot and at least one digit (the forms that
/// `str::parse::<f64>` takes among such strings).
pub open spec fn number_parts(num: Seq<char>) -> Option<(Seq<char>, Seq<char>)> {
    if all_digits(num) {
        if num.len() > 0 {
            Some((num, Seq::<char>::empty()))
        } else {
            None
        }
    } else if num.len() > 1 && exists|d: int|
        0 <= d < num.len() && #[trigger] num[d] == '.' && all_digits(num.take(d)) && all_digits(
            num.skip(d + 1),
        ) {
        let d = choose|d: int|
            0 <= d < num.len() && #[trigger] num[d] == '.' && all_digits(num.take(d)) && all_digits(
                num.skip(d + 1),
            );
        Some((num.take(d), num.skip(d + 1)))
    } else {
        None
    }
}

/// Bytes per unit for the accepted unit names.
pub open spec fn unit_multiplier(unit: Seq<char>) -> Option<u64> {
    if unit == seq!['B'] || unit.len() == 0 {
        Some(1)
    } else if unit == seq!['K', 'B'] || unit == seq!['K'] {
        Some(1024)
    } else if unit == seq!['M', 'B'] || unit == seq!['M'] {
        Some(1048576)
    } else if unit == seq!['G', 'B'] || unit == seq!['G'] {
        Some(1073741824)
    } else {
        None
    }
}

/// `int.frac` times `mult`, rounded down, capped at `u64::MAX`.
pub open spec fn scaled_size(int_part: Seq<char>, frac_part: Seq<char>, mult: nat) -> u64 {
    let p = pow10(frac_part.len());
    let v = (digits_value(int_part) * p + digits_value(frac_part)) * mult / p;
    if v > u64::MAX {
        u64::MAX
    } else {
        v as u64
    }
}

/// What a size such as `10KB`, `1.5 mb` or `500B` denotes, in bytes.
/// The text is trimmed and upper-cased; the number runs up to the first
/// character that is neither a digit nor a dot (without such a character
/// there is no unit and no size); the rest, trimmed, is the unit.
/// Upper-casing as `str::to_uppercase` does it: on ASCII text, plain
/// ASCII upper-casing.
pub open spec fn upper_text(t: Seq<char>) -> Seq<char> {
    if is_ascii_seq(t) {
        t.map_values(|c: char| ascii_upper(c))
    } else {
        uppercase_of(t)
    }
}

pub open spec fn parse_size_spec(s: Seq<char>) -> Option<u64> {
    let u = upper_text(trim_spec(s));
    match unit_start(u) {
        None => None,
        Some(k) => match (number_parts(u.take(k)), unit_multiplier(trim_spec(u.skip(k)))) {
            (Some(parts), Some(m)) => Some(scaled_size(parts.0, parts.1, m as nat)),
            _ => None,
        },
    }
}

proof fn lemma_pow10_positive(k: nat)
    ensures
        pow10(k) >= 1,
    decreases k,
{
    if k > 0 {
        lemma_pow10_positive((k - 1) as nat);
    }
}

/// Splitting off the leading digit of a run of digits.
proof fn lemma_digits_first(s: Seq<char>)
    requires
        s.len() > 0,
    ensures
        digits_value(s) == digit_value(s[0]) * pow10((s.len() - 1) as nat) + digits_value(
            s.drop_first(),
        ),
    decreases s.len(),
{
    if s.len() == 1 {
        assert(s.drop_first().len() == 0);
        assert(s.drop_last().len() == 0);
        assert(s.last() == s[0]);
        assert(digits_value(s.drop_last()) == 0);
        assert(digits_value(s.drop_first()) == 0);
        assert(pow10(0) == 1);
        assert(digits_value(s) == digit_value(s[0]));
        assert(digit_value(s[0]) * pow10((s.len() - 1) as nat) == digit_value(s[0]));
    } else {
        let dl = s.drop_last();
        lemma_digits_first(dl);
        assert(dl[0] == s[0]);
        assert(s.drop_first().drop_last() == dl.drop_first());
        assert(s.drop_first().last() == s.last());
        let a = digit_value(s[0]) as int;
        let p = pow10((s.len() - 2) as nat) as int;
        let b = digits_value(dl.drop_first()) as int;
        assert(pow10((s.len() - 1) as nat) == p * 10);
        assert(digits_value(dl) == a * p + b);
        assert(digits_value(s.drop_first()) == b * 10 + digit_value(s.last()));
        assert(digits_value(s) == digits_value(dl) * 10 + digit_value(s.last()));
        assert((a * p + b) * 10 == a * (p * 10) + b * 10) by (nonlinear_arith);
        assert(a * pow10((s.len() - 1) as nat) == a * (p * 10));
    }
}

/// One step of the right-to-left product of a fraction's digits with `m`.
proof fn lemma_fraction_step(d: nat, v: nat, p: nat, m: nat)
    requires
        p > 0,
    ensures
        ((d * p + v) * m) / (p * 10) == (d * m + (v * m) / p) / 10,
{
    let x = ((d * p + v) * m) as int;
    assert(x == (v * m) as int + ((d * m) as int) * (p as int)) by (nonlinear_arith)
        requires x == ((d * p + v) * m) as int;
    assert(x >= 0);
    lemma_hoist_over_denominator((v * m) as int, (d * m) as int, p);
    lemma_div_denominator(x, p as int, 10);
}

/// `(a p + b) m / p = a m + b m / p`.
proof fn lemma_split_scaled(a: nat, b: nat, p: nat, m: nat)
    requires
        p > 0,
    ensures
        ((a * p + b) * m) / p == a * m + (b * m) / p,
{
    assert((a * p + b) * m == (b * m) as int + ((a * m) as int) * (p as int)) by (nonlinear_arith);
    lemma_hoist_over_denominator((b * m) as int, (a * m) as int, p);
}

fn digit_val(c: char) -> (r: u64)
    requires
        is_digit(c),
    ensures
        r == digit_value(c),
        r < 10,
{
    ((c as u32) - 48) as u64
}

/// Bytes per unit for the unit text of a size.
fn multiplier_of(unit: &Vec<char>) -> (r: Option<u64>)
    ensures
        r == unit_multiplier(unit@),
{
    let n = unit.len();
    if n == 0 {
        return Some(1);
    }
    if n > 2 {
        return None;
    }
    let c0 = unit[0];
    if n == 2 && unit[1] != 'B' {
        assert(unit@ != seq!['K', 'B'] && unit@ != seq!['M', 'B'] && unit@ != seq!['G', 'B']) by {
            assert(seq!['K', 'B'][1] == 'B');
            assert(seq!['M', 'B'][1] == 'B');
            assert(seq!['G', 'B'][1] == 'B');
        }
        return None;
    }
    if n == 1 && c0 == 'B' {
        assert(unit@ =~= seq!['B']);
        return Some(1);
    }
    if c0 == 'K' {
        if n == 1 { assert(unit@ =~= seq!['K']); } else { assert(unit@ =~= seq!['K', 'B']); }
        Some(1024)
    } else if c0 == 'M' {
        if n == 1 { assert(unit@ =~= seq!['M']); } else { assert(unit@ =~= seq!['M', 'B']); }
        Some(1048576)
    } else if c0 == 'G' {
        if n == 1 { assert(unit@ =~= seq!['G']); } else { assert(unit@ =~= seq!['G', 'B']); }
        Some(1073741824)
    } else {
        assert(unit@[0] == c0);
        assert(seq!['B'][0] == 'B');
        assert(seq!['K', 'B'][0] == 'K');
        assert(seq!['K'][0] == 'K');
        assert(seq!['M', 'B'][0] == 'M');
        assert(seq!['M'][0] == 'M');
        assert(seq!['G', 'B'][0] == 'G');
        assert(seq!['G'][0] == 'G');
        None
    }
}


fn number_char_exec(c: char) -> (r: bool)
    ensures
        r == number_char(c),
{
    ('0' <= c && c <= '9') || c == '.'
}

/// `min(digits_value(v[a..b]), 2^64)`.
fn integer_part_capped(v: &Vec<char>, a: usize, b: usize) -> (r: u128)
    requires
        a <= b <= v.len(),
        all_digits(v@.subrange(a as int, b as int)),
    ensures
        r == if digits_value(v@.subrange(a as int, b as int)) >= 0x1_0000_0000_0000_0000 {
            0x1_0000_0000_0000_0000
        } else {
            digits_value(v@.subrange(a as int, b as int))
        },
{
    let cap: u128 = 0x1_0000_0000_0000_0000;
    let mut acc: u128 = 0;
    let mut i: usize = a;
    while i < b
        invariant
            a <= i <= b <= v.len(),
            all_digits(v@.subrange(a as int, b as int)),
            cap == 0x1_0000_0000_0000_0000u128,
            acc == if digits_value(v@.subrange(a as int, i as int)) >= cap {
                cap as nat
            } else {
                digits_value(v@.subrange(a as int, i as int))
            },
        decreases b - i,
    {
        let ghost pre = v@.subrange(a as int, i as int);
        let ghost nxt = v@.subrange(a as int, i + 1);
        assert(v@.subrange(a as int, b as int)[i - a] == v@[i as int]);
        assert(nxt.drop_last() =~= pre);
        assert(nxt.last() == v@[i as int]);
        let d = digit_val(v[i]) as u128;
        assert(digits_value(nxt) == digits_value(pre) * 10 + d);
        if acc >= cap {
            acc = cap;
        } else {
            let next = acc * 10 + d;
            if next >= cap {
                acc = cap;
            } else {
                acc = next;
            }
        }
        i = i + 1;
    }
    acc
}

/// `digits_value(v[a..b]) * m / 10^(b-a)`, computed right to left.
fn fraction_scaled(v: &Vec<char>, a: usize, b: usize, m: u64) -> (r: u64)
    requires
        a <= b <= v.len(),
        all_digits(v@.subrange(a as int, b as int)),
        1 <= m <= 1073741824,
    ensures
        r as nat == digits_value(v@.subrange(a as int, b as int)) * (m as nat) / pow10((b - a) as nat),
        r < m,
{
    let mut x: u64 = 0;
    let mut i: usize = b;
    proof {
        assert(v@.subrange(b as int, b as int).len() == 0);
        assert(pow10(0) == 1);
        assert(0 * (m as nat) / 1 == 0) by (nonlinear_arith);
    }
    while i > a
        invariant
            a <= i <= b <= v.len(),
            all_digits(v@.subrange(a as int, b as int)),
            1 <= m <= 1073741824,
            x < m,
            x as nat == digits_value(v@.subrange(i as int, b as int)) * (m as nat) / pow10((b - i) as nat),
        decreases i,
    {
        let ghost g = v@.subrange(i - 1, b as int);
        let ghost g2 = v@.subrange(i as int, b as int);
        assert(v@.subrange(a as int, b as int)[i - 1 - a] == v@[i - 1]);
        let d = digit_val(v[i - 1]);
        proof {
            lemma_digits_first(g);
            assert(g.drop_first() =~= g2);
            assert(g[0] == v@[i - 1]);
            lemma_pow10_positive((b - i) as nat);
            lemma_fraction_step(d as nat, digits_value(g2), pow10((b - i) as nat), m as nat);
            assert(pow10((b - i + 1) as nat) == pow10((b - i) as nat) * 10);
            assert(d * m + x < 10 * m) by (nonlinear_arith)
                requires d < 10, x < m;
            assert((d * m + x) / 10 < m) by (nonlinear_arith)
                requires d * m + x < 10 * m;
        }
        x = (d * m + x) / 10;
        i = i - 1;
    }
    x
}

/// Parses a human size such as `10KB`, `1.5MB`, `0.5 g` or `500B` into
/// bytes. Units B, K/KB, M/MB, G/GB (powers of 1024), any case; the text
/// must hold a unit character (`500` alone is not a size); the result is
/// rounded down and capped at `u64::MAX`.
pub fn parse_size(s: &str) -> (r: Option<u64>)
    ensures
        r == parse_size_spec(s@),
{
    let v = chars_of(s);
    let t = trim_chars(&v);
    let ts = string_of(&t);
    let up = to_uppercase(ts.as_str());
    let u = chars_of(up.as_str());
    let ghost us = u@;
    assert(us == upper_text(trim_spec(s@)));
    let mut k: usize = 0;
    while k < u.len() && number_char_exec(u[k])
        invariant
            u@ == us,
            k <= u.len(),
            forall|j: int| 0 <= j < k ==> number_char(#[trigger] us[j]),
        decreases u.len() - k,
    {
        k = k + 1;
    }
    if k == u.len() {
        assert(unit_start(us) is None);
        return None;
    }
    proof {
        assert(!number_char(us[k as int]));
        let c = choose|i: int| 0 <= i < us.len() && !number_char(#[trigger] us[i]) && forall|j: int|
            0 <= j < i ==> number_char(#[trigger] us[j]);
        if c < k {
            assert(number_char(us[c]));
        }
        if c > k {
            assert(number_char(us[k as int]));
        }
        assert(unit_start(us) == Some(k as int));
    }
    let ghost num = us.take(k as int);
    let rest = slice_from(&u, k);
    let unit = trim_chars(&rest);
    let mult = match multiplier_of(&unit) {
        Some(m) => m,
        None => {
            assert(rest@ == us.skip(k as int));
            return None;
        },
    };
    assert(rest@ == us.skip(k as int));
    // Locate the dots of the number.
    let mut first_dot: Option<usize> = None;
    let mut two_dots = false;
    let mut i: usize = 0;
    while i < k
        invariant
            u@ == us,
            k < u.len(),
            i <= k,
            forall|j: int| 0 <= j < k ==> number_char(#[trigger] us[j]),
            !two_dots ==> match first_dot {
                Some(d) => d < i && us[d as int] == '.' && forall|j: int| 0 <= j < i && j != d ==> us[j] != '.',
                None => forall|j: int| 0 <= j < i ==> us[j] != '.',
            },
            two_dots ==> exists|d1: int, d2: int| 0 <= d1 < d2 < k && us[d1] == '.' && us[d2] == '.',
        decreases k - i,
    {
        if u[i] == '.' {
            match first_dot {
                Some(d) => {
                    if !two_dots {
                        assert(us[d as int] == '.' && us[i as int] == '.');
                    }
                    two_dots = true;
                },
                None => {
                    first_dot = Some(i);
                },
            }
        }
        i = i + 1;
    }
    if two_dots {
        proof {
            let (d1, d2) = choose|d1: int, d2: int| 0 <= d1 < d2 < k && us[d1] == '.' && us[d2] == '.';
            assert(num[d1] == '.');
            assert(!all_digits(num));
            if exists|d: int|
                0 <= d < num.len() && #[trigger] num[d] == '.' && all_digits(num.take(d)) && all_digits(
                    num.skip(d + 1),
                ) {
                let d = choose|d: int|
                    0 <= d < num.len() && #[trigger] num[d] == '.' && all_digits(num.take(d))
                        && all_digits(num.skip(d + 1));
                if d < d2 {
                    assert(num.skip(d + 1)[d2 - d - 1] == '.');
                } else if d > d1 {
                    assert(num.take(d)[d1] == '.');
                } else {
                    assert(num.skip(d + 1)[d2 - d - 1] == '.');
                }
            }
            assert(number_parts(num) is None);
        }
        return None;
    }
    let (ia, ib, fa, fb): (usize, usize, usize, usize) = match first_dot {
        None => {
            if k == 0 {
                assert(all_digits(num));
                return None;
            }
            assert(all_digits(num)) by {
                assert forall|j: int| 0 <= j < num.len() implies is_digit(#[trigger] num[j]) by {
                    assert(number_char(us[j]));
                }
            }
            assert(number_parts(num) == Some((num, Seq::<char>::empty())));
            (0, k, k, k)
        },
        Some(d) => {
            assert(num[d as int] == '.');
            assert(!all_digits(num));
            if k <= 1 {
                return None;
            }
            assert(all_digits(num.take(d as int))) by {
                assert forall|j: int| 0 <= j < d implies is_digit(#[trigger] num.take(d as int)[j]) by {
                    assert(number_char(us[j]));
                }
            }
            assert(all_digits(num.skip(d + 1))) by {
                assert forall|j: int| 0 <= j < k - d - 1 implies is_digit(#[trigger] num.skip(d + 1)[j]) by {
                    assert(number_char(us[d + 1 + j]));
                    assert(us[d + 1 + j] != '.');
                }
            }
            let ghost dd = choose|dd: int|
                0 <= dd < num.len() && #[trigger] num[dd] == '.' && all_digits(num.take(dd)) && all_digits(
                    num.skip(dd + 1),
                );
            assert(dd == d) by {
                if dd != d {
                    assert(us[dd] != '.');
                }
            }
            assert(number_parts(num) == Some((num.take(d as int), num.skip(d + 1))));
            (0, d, d + 1, k)
        },
    };
    assert(u@.subrange(ia as int, ib as int) == number_parts(num).unwrap().0);
    assert(u@.subrange(fa as int, fb as int) == number_parts(num).unwrap().1);
    let ip = integer_part_capped(&u, ia, ib);
    let fp = fraction_scaled(&u, fa, fb, mult);
    proof {
        let a = digits_value(u@.subrange(ia as int, ib as int));
        let b = digits_value(u@.subrange(fa as int, fb as int));
        let p = pow10((fb - fa) as nat);
        lemma_pow10_positive((fb - fa) as nat);
        lemma_split_scaled(a, b, p, mult as nat);
        if a >= 0x1_0000_0000_0000_0000 {
            assert(a * mult >= a) by (nonlinear_arith)
                requires mult >= 1;
        }
    }
    assert(1 <= mult <= 1073741824);
    assert(ip * (mult as u128) <= 0x1_0000_0000_0000_0000u128 * 1073741824u128) by (nonlinear_arith)
        requires ip <= 0x1_0000_0000_0000_0000u128, mult <= 1073741824u64;
    let total: u128 = ip * (mult as u128) + (fp as u128);
    if total > 0xFFFF_FFFF_FFFF_FFFFu128 {
        Some(u64::MAX)
    } else {
        Some(total as u64)
    }
}

/// The characters of `v` from position `a` on.
fn slice_from(v: &Vec<char>, a: usize) -> (r: Vec<char>)
    requires
        a <= v.len(),
    ensures
        r@ == v@.skip(a as int),
{
    let mut r: Vec<char> = Vec::new();
    let mut i: usize = a;
    while i < v.len()
        invariant
            a <= i <= v.len(),
            r@ == v@.subrange(a as int, i as int),
        decreases v.len() - i,
    {
        r.push(v[i]);
        assert(v@.subrange(a as int, i + 1) == v@.subrange(a as int, i as int).push(v@[i as int]));
        i = i + 1;
    }
    r
}

// ---------------------------------------------------------------------
// Laws of the date and extension filters
// ---------------------------------------------------------------------

/// `date_before` is the calendar order: a strict total order in which the
/// year counts first, then the month, then the day. A later year, or a
/// later month of the same year, is never before, whatever the days.
pub proof fn lemma_date_before_is_calendar_order(a: (i32, u32, u32), b: (i32, u32, u32), c: (i32, u32, u32))
    ensures
        !date_before(a, a),
        date_before(a, b) ==> !date_before(b, a),
        a != b ==> date_before(a, b) || date_before(b, a),
        date_before(a, b) && date_before(b, c) ==> date_before(a, c),
        a.0 < b.0 ==> date_before(a, b),
        a.0 == b.0 && a.1 < b.1 ==> date_before(a, b),
        a.0 == b.0 && a.1 == b.1 ==> (date_before(a, b) <==> a.2 < b.2),
{
}

/// With a readable `--after` date, a file is kept by it exactly when it was
/// modified on that day or later; with a readable `--before` date, exactly
/// when it was modified on that day or earlier.
pub proof fn lemma_date_filter_bounds(m: (i32, u32, u32), bound: Seq<char>)
    requires
        chrono_ymd(bound) is Some,
    ensures
        date_filter_spec(Some(m), Some(bound), None) <==> (m == chrono_ymd(bound).unwrap() || date_before(
            chrono_ymd(bound).unwrap(),
            m,
        )),
        date_filter_spec(Some(m), None, Some(bound)) <==> (m == chrono_ymd(bound).unwrap() || date_before(
            m,
            chrono_ymd(bound).unwrap(),
        )),
        date_filter_spec(Some(m), Some(bound), Some(bound)) <==> m == chrono_ymd(bound).unwrap(),
{
    lemma_date_before_is_calendar_order(m, chrono_ymd(bound).unwrap(), m);
}

/// The extension test is membership in the list: an extension is accepted
/// exactly when some entry of the list, wherever it stands, equals it up to
/// ASCII case; in particular an entry equal to it, or to its ASCII lower- or
/// upper-cased form, makes it accepted.
pub proof fn lemma_ext_listed_is_membership(exts: Seq<String>, e: Seq<char>, i: int)
    requires
        0 <= i < exts.len(),
    ensures
        eq_ignore_ascii_case_spec(exts[i]@, e) ==> ext_listed(exts, e),
        exts[i]@ == e ==> ext_listed(exts, e),
        exts[i]@ == e.map_values(|c: char| ascii_lower(c)) ==> ext_listed(exts, e),
        exts[i]@ == e.map_values(|c: char| ascii_upper(c)) ==> ext_listed(exts, e),
        ext_listed(exts, e) ==> exists|j: int| 0 <= j < exts.len() && eq_ignore_ascii_case_spec(#[trigger] exts[j]@, e),
{
    let lo = e.map_values(|c: char| ascii_lower(c));
    let up = e.map_values(|c: char| ascii_upper(c));
    assert forall|k: int| 0 <= k < e.len() implies ascii_lower(#[trigger] lo[k]) == ascii_lower(e[k])
        && ascii_lower(up[k]) == ascii_lower(e[k]) by {
        lemma_case_char(e[k]);
        assert(ascii_lower(ascii_lower(e[k])) == ascii_lower(e[k]));
        assert(ascii_lower(ascii_upper(e[k])) == ascii_lower(e[k]));
    }
    if exts[i]@ == lo {
        assert forall|k: int| 0 <= k < exts[i]@.len() implies ascii_lower(#[trigger] exts[i]@[k]) == ascii_lower(e[k]) by {
            assert(lo[k] == exts[i]@[k]);
        }
    }
    if exts[i]@ == up {
        assert forall|k: int| 0 <= k < exts[i]@.len() implies ascii_lower(#[trigger] exts[i]@[k]) == ascii_lower(e[k]) by {
            assert(up[k] == exts[i]@[k]);
        }
    }
    if eq_ignore_ascii_case_spec(exts[i]@, e) {
        assert(ext_listed(exts, e));
    }
}

/// With extensions asked for, a path passes the extension filter exactly
/// when it has an extension and some listed extension equals it up to
/// ASCII case, wherever that one stands in the list.
pub proof fn lemma_ext_filter_membership(path: Seq<char>, exts: Seq<String>, i: int)
    requires
        0 <= i < exts.len(),
    ensures
        path_extension_of(path) matches Some(x) && eq_ignore_ascii_case_spec(exts[i]@, x) ==> ext_filter_spec(path, exts),
        ext_filter_spec(path, exts) ==> path_extension_of(path) is Some && exists|j: int|
            0 <= j < exts.len() && eq_ignore_ascii_case_spec(#[trigger] exts[j]@, path_extension_of(path).unwrap()),
{
    if let Some(x) = path_extension_of(path) {
        lemma_ext_listed_is_membership(exts, x, i);
    }
}

// ---------------------------------------------------------------------
// Laws of the size parser
// ---------------------------------------------------------------------

/// ASCII case changes leave whitespace alone and keep text ASCII.
proof fn lemma_case_char(c: char)
    ensures
        is_space(ascii_lower(c)) == is_space(c),
        is_space(ascii_upper(c)) == is_space(c),
        (c as u32) < 128 ==> (ascii_lower(c) as u32) < 128 && (ascii_upper(c) as u32) < 128,
        ascii_upper(ascii_lower(c)) == ascii_upper(c),
        ascii_upper(ascii_upper(c)) == ascii_upper(c),
{
}

proof fn lemma_trim_start_map_lower(s: Seq<char>)
    ensures
        trim_start_spec(s.map_values(|c: char| ascii_lower(c))) == trim_start_spec(s).map_values(
            |c: char| ascii_lower(c),
        ),
    decreases s.len(),
{
    let m = s.map_values(|c: char| ascii_lower(c));
    if s.len() > 0 {
        lemma_case_char(s[0]);
        assert(m[0] == ascii_lower(s[0]));
        if is_space(s[0]) {
            assert(m.drop_first() =~= s.drop_first().map_values(|c: char| ascii_lower(c)));
            lemma_trim_start_map_lower(s.drop_first());
        }
    } else {
        assert(m =~= s);
    }
}

proof fn lemma_trim_end_map_lower(s: Seq<char>)
    ensures
        trim_end_spec(s.map_values(|c: char| ascii_lower(c))) == trim_end_spec(s).map_values(
            |c: char| ascii_lower(c),
        ),
    decreases s.len(),
{
    let m = s.map_values(|c: char| ascii_lower(c));
    if s.len() > 0 {
        lemma_case_char(s.last());
        assert(m.last() == ascii_lower(s.last()));
        if is_space(s.last()) {
            assert(m.drop_last() =~= s.drop_last().map_values(|c: char| ascii_lower(c)));
            lemma_trim_end_map_lower(s.drop_last());
        }
    } else {
        assert(m =~= s);
    }
}

proof fn lemma_trim_start_map_upper(s: Seq<char>)
    ensures
        trim_start_spec(s.map_values(|c: char| ascii_upper(c))) == trim_start_spec(s).map_values(
            |c: char| ascii_upper(c),
        ),
    decreases s.len(),
{
    let m = s.map_values(|c: char| ascii_upper(c));
    if s.len() > 0 {
        lemma_case_char(s[0]);
        assert(m[0] == ascii_upper(s[0]));
        if is_space(s[0]) {
            assert(m.drop_first() =~= s.drop_first().map_values(|c: char| ascii_upper(c)));
            lemma_trim_start_map_upper(s.drop_first());
        }
    } else {
        assert(m =~= s);
    }
}

proof fn lemma_trim_end_map_upper(s: Seq<char>)
    ensures
        trim_end_spec(s.map_values(|c: char| ascii_upper(c))) == trim_end_spec(s).map_values(
            |c: char| ascii_upper(c),
        ),
    decreases s.len(),
{
    let m = s.map_values(|c: char| ascii_upper(c));
    if s.len() > 0 {
        lemma_case_char(s.last());
        assert(m.last() == ascii_upper(s.last()));
        if is_space(s.last()) {
            assert(m.drop_last() =~= s.drop_last().map_values(|c: char| ascii_upper(c)));
            lemma_trim_end_map_upper(s.drop_last());
        }
    } else {
        assert(m =~= s);
    }
}

/// Trimming keeps text ASCII.
proof fn lemma_trim_ascii(s: Seq<char>)
    requires
        is_ascii_seq(s),
    ensures
        is_ascii_seq(trim_start_spec(s)),
        is_ascii_seq(trim_end_spec(s)),
        is_ascii_seq(trim_spec(s)),
    decreases s.len(),
{
    if s.len() > 0 {
        assert(is_ascii_seq(s.drop_first())) by {
            assert forall|i: int| 0 <= i < s.drop_first().len() implies (#[trigger] s.drop_first()[i] as u32) < 128 by {
                assert(s.drop_first()[i] == s[i + 1]);
            }
        }
        assert(is_ascii_seq(s.drop_last())) by {
            assert forall|i: int| 0 <= i < s.drop_last().len() implies (#[trigger] s.drop_last()[i] as u32) < 128 by {
                assert(s.drop_last()[i] == s[i]);
            }
        }
        lemma_trim_ascii(s.drop_first());
        lemma_trim_ascii(s.drop_last());
    }
    lemma_trim_end_ascii(trim_start_spec(s));
}

proof fn lemma_trim_end_ascii(s: Seq<char>)
    requires
        is_ascii_seq(s),
    ensures
        is_ascii_seq(trim_end_spec(s)),
    decreases s.len(),
{
    if s.len() > 0 {
        assert(is_ascii_seq(s.drop_last())) by {
            assert forall|i: int| 0 <= i < s.drop_last().len() implies (#[trigger] s.drop_last()[i] as u32) < 128 by {
                assert(s.drop_last()[i] == s[i]);
            }
        }
        lemma_trim_end_ascii(s.drop_last());
    }
}

/// Leading whitespace of `x + y` comes from `x` alone unless `x` is all
/// whitespace.
proof fn lemma_trim_start_concat(x: Seq<char>, y: Seq<char>)
    ensures
        trim_start_spec(x).len() > 0 ==> trim_start_spec(x + y) == trim_start_spec(x) + y,
        trim_start_spec(x).len() == 0 ==> trim_start_spec(x + y) == trim_start_spec(y),
    decreases x.len(),
{
    if x.len() == 0 {
        assert(x + y =~= y);
    } else {
        assert((x + y)[0] == x[0]);
        if is_space(x[0]) {
            assert((x + y).drop_first() =~= x.drop_first() + y);
            lemma_trim_start_concat(x.drop_first(), y);
        }
    }
}

/// Upper-casing ASCII text after an ASCII case change is upper-casing it.
proof fn lemma_upper_after_case(t: Seq<char>)
    ensures
        t.map_values(|c: char| ascii_lower(c)).map_values(|c: char| ascii_upper(c))
            == t.map_values(|c: char| ascii_upper(c)),
        t.map_values(|c: char| ascii_upper(c)).map_values(|c: char| ascii_upper(c))
            == t.map_values(|c: char| ascii_upper(c)),
{
    let l = t.map_values(|c: char| ascii_lower(c));
    let u = t.map_values(|c: char| ascii_upper(c));
    let lu = l.map_values(|c: char| ascii_upper(c));
    let uu = u.map_values(|c: char| ascii_upper(c));
    assert forall|i: int| 0 <= i < t.len() implies #[trigger] lu[i] == u[i] && uu[i] == u[i] by {
        lemma_case_char(t[i]);
    }
    assert(lu =~= u);
    assert(uu =~= u);
}

proof fn lemma_map_ascii(t: Seq<char>)
    requires
        is_ascii_seq(t),
    ensures
        is_ascii_seq(t.map_values(|c: char| ascii_lower(c))),
        is_ascii_seq(t.map_values(|c: char| ascii_upper(c))),
{
    let l = t.map_values(|c: char| ascii_lower(c));
    let u = t.map_values(|c: char| ascii_upper(c));
    assert forall|i: int| 0 <= i < t.len() implies (#[trigger] l[i] as u32) < 128 && (u[i] as u32) < 128 by {
        lemma_case_char(t[i]);
    }
    assert forall|i: int| 0 <= i < t.len() implies (#[trigger] u[i] as u32) < 128 by {
        lemma_case_char(t[i]);
    }
}

/// The size parser ignores ASCII case and the blanks around the size:
/// lower-casing or upper-casing an ASCII size, or surrounding it with
/// spaces and a tab, gives the same answer.
pub proof fn lemma_parse_size_ignores_case_and_blanks(s: Seq<char>)
    requires
        is_ascii_seq(s),
    ensures
        parse_size_spec(s.map_values(|c: char| ascii_lower(c))) == parse_size_spec(s),
        parse_size_spec(s.map_values(|c: char| ascii_upper(c))) == parse_size_spec(s),
        parse_size_spec(seq![' ', ' '] + s + seq!['\t']) == parse_size_spec(s),
{
    let t = trim_spec(s);
    lemma_trim_ascii(s);
    // lower-casing
    let sl = s.map_values(|c: char| ascii_lower(c));
    lemma_trim_start_map_lower(s);
    lemma_trim_end_map_lower(trim_start_spec(s));
    assert(trim_spec(sl) == t.map_values(|c: char| ascii_lower(c)));
    lemma_map_ascii(t);
    lemma_upper_after_case(t);
    assert(upper_text(trim_spec(sl)) == upper_text(t));
    // upper-casing
    let su = s.map_values(|c: char| ascii_upper(c));
    lemma_trim_start_map_upper(s);
    lemma_trim_end_map_upper(trim_start_spec(s));
    assert(trim_spec(su) == t.map_values(|c: char| ascii_upper(c)));
    assert(upper_text(trim_spec(su)) == upper_text(t));
    // blanks
    let w = seq![' ', ' '] + s + seq!['\t'];
    let tab = seq!['\t'];
    assert(w[0] == ' ');
    assert(w.drop_first()[0] == ' ');
    assert(w.drop_first().drop_first() =~= s + tab);
    assert(is_space(' '));
    assert(trim_start_spec(w) == trim_start_spec(w.drop_first()));
    assert(trim_start_spec(w.drop_first()) == trim_start_spec(w.drop_first().drop_first()));
    assert(trim_start_spec(w) == trim_start_spec(s + tab));
    lemma_trim_start_concat(s, tab);
    if trim_start_spec(s).len() > 0 {
        let x = trim_start_spec(s) + tab;
        assert(x.last() == '\t');
        assert(x.drop_last() =~= trim_start_spec(s));
        assert(trim_end_spec(x) == trim_end_spec(trim_start_spec(s)));
    } else {
        assert(tab[0] == '\t');
        assert(tab.drop_first().len() == 0);
        assert(trim_start_spec(tab) == trim_start_spec(tab.drop_first()));
        assert(trim_start_spec(tab.drop_first()).len() == 0);
        assert(trim_end_spec(trim_start_spec(s)) == trim_start_spec(s));
    }
    assert(trim_spec(w) == t);
}

/// A size name accepted with a unit character: B, K, KB, M, MB, G, GB.
pub open spec fn unit_name(u: Seq<char>) -> bool {
    u.len() > 0 && unit_multiplier(u) is Some
}

/// A run of digits followed by a unit name denotes that many units.
#[verifier::spinoff_prover]
#[verifier::rlimit(40)]
proof fn lemma_parse_digits_unit(a: Seq<char>, u: Seq<char>)
    requires
        a.len() > 0,
        all_digits(a),
        unit_name(u),
    ensures
        parse_size_spec(a + u) == Some(
            if digits_value(a) * (unit_multiplier(u).unwrap() as nat) > u64::MAX {
                u64::MAX
            } else {
                (digits_value(a) * (unit_multiplier(u).unwrap() as nat)) as u64
            },
        ),
{
    let x = a + u;
    // the unit names are made of upper-case letters
    assert(forall|i: int| 0 <= i < u.len() ==> 'A' <= #[trigger] u[i] <= 'Z') by {
        if u == seq!['B'] || u == seq!['K'] || u == seq!['M'] || u == seq!['G'] {
        } else {
            assert(u == seq!['K', 'B'] || u == seq!['M', 'B'] || u == seq!['G', 'B']);
        }
    }
    assert(forall|i: int| 0 <= i < x.len() ==> (#[trigger] x[i] as u32) < 128 && !is_space(x[i])
        && ascii_upper(x[i]) == x[i]) by {
        assert forall|i: int| 0 <= i < x.len() implies (#[trigger] x[i] as u32) < 128 && !is_space(x[i])
            && ascii_upper(x[i]) == x[i] by {
            if i < a.len() {
                assert(x[i] == a[i]);
                assert(is_digit(a[i]));
            } else {
                assert(x[i] == u[i - a.len()]);
            }
        }
    }
    // no blanks to trim
    assert(trim_start_spec(x) == x);
    assert(trim_end_spec(x) == x);
    assert(trim_spec(x) == x);
    assert(trim_start_spec(u) == u) by {
        assert(u[0] == x[a.len() as int]);
    }
    assert(trim_end_spec(u) == u) by {
        assert(u.last() == x.last());
    }
    assert(is_ascii_seq(x));
    assert(x.map_values(|c: char| ascii_upper(c)) =~= x);
    assert(upper_text(trim_spec(x)) == x);
    // the number ends where the unit starts
    let k = a.len() as int;
    assert(!number_char(x[k])) by {
        assert(x[k] == u[0]);
    }
    assert forall|j: int| 0 <= j < k implies number_char(#[trigger] x[j]) by {
        assert(x[j] == a[j]);
        assert(is_digit(a[j]));
    }
    let c = choose|i: int| 0 <= i < x.len() && !number_char(#[trigger] x[i]) && forall|j: int|
        0 <= j < i ==> number_char(#[trigger] x[j]);
    if c < k {
        assert(number_char(x[c]));
    }
    if c > k {
        assert(number_char(x[k]));
    }
    assert(unit_start(x) == Some(k));
    assert(x.take(k) =~= a);
    assert(x.skip(k) =~= u);
    assert(number_parts(a) == Some((a, Seq::<char>::empty())));
    let m = unit_multiplier(u).unwrap() as nat;
    assert(pow10(0) == 1);
    assert(digits_value(Seq::<char>::empty()) == 0);
    assert((digits_value(a) * 1 + 0) * m / 1 == digits_value(a) * m) by (nonlinear_arith);
}

/// The size parser is monotone: for runs of digits `a` and `b` and unit
/// names `u` and `v`, a smaller number of the same unit, or the same
/// number of a smaller unit, never denotes more bytes.
pub proof fn lemma_parse_size_monotone(a: Seq<char>, b: Seq<char>, u: Seq<char>, v: Seq<char>)
    requires
        a.len() > 0,
        b.len() > 0,
        all_digits(a),
        all_digits(b),
        digits_value(a) <= digits_value(b),
        unit_name(u),
        unit_name(v),
        unit_multiplier(u).unwrap() <= unit_multiplier(v).unwrap(),
    ensures
        parse_size_spec(a + u) is Some,
        parse_size_spec(b + u) is Some,
        parse_size_spec(a + v) is Some,
        parse_size_spec(a + u).unwrap() <= parse_size_spec(b + u).unwrap(),
        parse_size_spec(a + u).unwrap() <= parse_size_spec(a + v).unwrap(),
{
    lemma_parse_digits_unit(a, u);
    lemma_parse_digits_unit(b, u);
    lemma_parse_digits_unit(a, v);
    let mu = unit_multiplier(u).unwrap() as nat;
    let mv = unit_multiplier(v).unwrap() as nat;
    let va = digits_value(a);
    let vb = digits_value(b);
    assert(va * mu <= vb * mu) by (nonlinear_arith)
        requires va <= vb;
    assert(va * mu <= va * mv) by (nonlinear_arith)
        requires mu <= mv;
}

// ---------------------------------------------------------------------
// Modification times
// ---------------------------------------------------------------------

/// `k` zero digits.
pub open spec fn zeros(k: nat) -> Seq<char> {
    Seq::new(k, |i: int| '0')
}

/// Decimal digits of `n`, padded with leading zeros to width `w`.
pub open spec fn padded(n: nat, w: nat) -> Seq<char> {
    let d = decimal(n);
    if d.len() < w {
        zeros((w - d.len()) as nat) + d
    } else {
        d
    }
}

/// chrono's `%Y`: four digits, zero-padded, for years 0 to 9999; other
/// years with their sign and at least four digits.
pub open spec fn year_text(y: int) -> Seq<char> {
    if 0 <= y <= 9999 {
        padded(y as nat, 4)
    } else if y < 0 {
        seq!['-'] + padded((-y) as nat, 4)
    } else {
        seq!['+'] + padded(y as nat, 4)
    }
}

/// A local time written as chrono's `%Y-%m-%d %H:%M`.
pub open spec fn stamp_text(t: (i32, u32, u32, u32, u32)) -> Seq<char> {
    year_text(t.0 as int) + seq!['-'] + padded(t.1 as nat, 2) + seq!['-'] + padded(t.2 as nat, 2)
        + seq![' '] + padded(t.3 as nat, 2) + seq![':'] + padded(t.4 as nat, 2)
}

fn padded_string(n: u64, w: usize) -> (s: String)
    ensures
        s@ == padded(n as nat, w as nat),
{
    let d = decimal_string(n);
    let dl = chars_of(d.as_str()).len();
    let mut s = String::new();
    if dl < w {
        let mut k: usize = 0;
        while k < w - dl
            invariant
                dl < w,
                k <= w - dl,
                s@ == zeros(k as nat),
            decreases w - dl - k,
        {
            push_char(&mut s, '0');
            assert(zeros((k + 1) as nat) =~= zeros(k as nat).push('0'));
            k = k + 1;
        }
    }
    s.append(d.as_str());
    proof {
        if dl >= w {
            assert(s@ =~= d@);
        }
    }
    s
}

/// Writes a local time as `%Y-%m-%d %H:%M`.
pub fn format_stamp(t: (i32, u32, u32, u32, u32)) -> (s: String)
    ensures
        s@ == stamp_text(t),
{
    let y = t.0;
    let mut s = String::new();
    if 0 <= y && y <= 9999 {
        let p = padded_string(y as u64, 4);
        s.append(p.as_str());
    } else if y < 0 {
        push_char(&mut s, '-');
        let v: i64 = -(y as i64);
        let p = padded_string(v as u64, 4);
        s.append(p.as_str());
    } else {
        push_char(&mut s, '+');
        let p = padded_string(y as u64, 4);
        s.append(p.as_str());
    }
    assert(s@ =~= year_text(y as int));
    push_char(&mut s, '-');
    let mo = padded_string(t.1 as u64, 2);
    s.append(mo.as_str());
    push_char(&mut s, '-');
    let da = padded_string(t.2 as u64, 2);
    s.append(da.as_str());
    push_char(&mut s, ' ');
    let ho = padded_string(t.3 as u64, 2);
    s.append(ho.as_str());
    push_char(&mut s, ':');
    let mi = padded_string(t.4 as u64, 2);
    s.append(mi.as_str());
    assert(s@ =~= stamp_text(t));
    s
}

proof fn lemma_digits_push(s: Seq<char>, c: char)
    ensures
        digits_value(s.push(c)) == digits_value(s) * 10 + digit_value(c),
{
    assert(s.push(c).drop_last() =~= s);
}

/// The decimal text of `n` is a run of digits whose value is `n`.
proof fn lemma_decimal_value(n: nat)
    ensures
        decimal(n).len() >= 1,
        all_digits(decimal(n)),
        digits_value(decimal(n)) == n,
    decreases n,
{
    if n < 10 {
        assert(decimal(n) == seq![digit_char(n)]);
        assert(seq![digit_char(n)] =~= Seq::<char>::empty().push(digit_char(n)));
        lemma_digits_push(Seq::<char>::empty(), digit_char(n));
    } else {
        lemma_decimal_value(n / 10);
        lemma_digits_push(decimal(n / 10), digit_char(n % 10));
        let d = decimal(n);
        assert forall|i: int| 0 <= i < d.len() implies is_digit(#[trigger] d[i]) by {
            if i < d.len() - 1 {
                assert(d[i] == decimal(n / 10)[i]);
            }
        }
    }
}

/// A number below `10^w` has at most `w` decimal digits.
proof fn lemma_decimal_len(n: nat, w: nat)
    requires
        w >= 1,
        n < pow10(w),
    ensures
        decimal(n).len() <= w,
    decreases n,
{
    if n >= 10 {
        let w1 = (w - 1) as nat;
        if w == 1 {
            assert(pow10(1) == 10) by {
                assert(pow10(0) == 1);
            }
        }
        assert(pow10(w) == pow10(w1) * 10);
        assert(n / 10 < pow10(w1)) by (nonlinear_arith)
            requires n < pow10(w1) * 10;
        lemma_decimal_len(n / 10, w1);
    }
}

/// Digits before a run count by the run's length.
proof fn lemma_concat_value(a: Seq<char>, b: Seq<char>)
    ensures
        digits_value(a + b) == digits_value(a) * pow10(b.len()) + digits_value(b),
    decreases b.len(),
{
    if b.len() == 0 {
        assert(a + b =~= a);
        assert(digits_value(b) == 0);
        assert(pow10(0) == 1);
        assert(digits_value(a) * 1 == digits_value(a));
    } else {
        let b1 = b.drop_last();
        lemma_concat_value(a, b1);
        assert((a + b).drop_last() =~= a + b1);
        assert((a + b).last() == b.last());
        assert(b1.push(b.last()) =~= b);
        lemma_digits_push(b1, b.last());
        let x = digits_value(a) as int;
        let p = pow10(b1.len()) as int;
        let y = digits_value(b1) as int;
        assert(digits_value(b) == y * 10 + digit_value(b.last()));
        assert(digits_value(a + b) == digits_value(a + b1) * 10 + digit_value(b.last()));
        assert(pow10(b.len()) == p * 10);
        assert((x * p + y) * 10 == x * (p * 10) + y * 10) by (nonlinear_arith);
    }
}

proof fn lemma_zeros_value(k: nat)
    ensures
        all_digits(zeros(k)),
        digits_value(zeros(k)) == 0,
    decreases k,
{
    if k > 0 {
        lemma_zeros_value((k - 1) as nat);
        assert(zeros(k) =~= zeros((k - 1) as nat).push('0'));
        lemma_digits_push(zeros((k - 1) as nat), '0');
    }
}

/// A zero-padded number is a run of at least `w` digits whose value is
/// the number, and exactly `w` when the number is below `10^w`.
proof fn lemma_padded(n: nat, w: nat)
    ensures
        padded(n, w).len() >= w,
        all_digits(padded(n, w)),
        digits_value(padded(n, w)) == n,
        w >= 1 && n < pow10(w) ==> padded(n, w).len() == w,
{
    let d = decimal(n);
    lemma_decimal_value(n);
    if w >= 1 && n < pow10(w) {
        lemma_decimal_len(n, w);
    }
    if d.len() < w {
        let z = zeros((w - d.len()) as nat);
        lemma_zeros_value((w - d.len()) as nat);
        lemma_concat_value(z, d);
        assert(0 * pow10(d.len()) == 0);
        assert forall|i: int| 0 <= i < (z + d).len() implies is_digit(#[trigger] (z + d)[i]) by {
            if i < z.len() {
                assert((z + d)[i] == z[i]);
            } else {
                assert((z + d)[i] == d[i - z.len()]);
            }
        }
    }
}

/// The run of characters of `s` from `a` to `b` is the decimal text of `v`.
pub open spec fn reads_as(s: Seq<char>, a: int, b: int, v: int) -> bool {
    &&& 0 <= a <= b <= s.len()
    &&& all_digits(s.subrange(a, b))
    &&& digits_value(s.subrange(a, b)) == v
}

/// A written modification time reads back as the time it was written
/// from: after the year come `-`, two-digit month, `-`, two-digit day,
/// a space, two-digit hour, `:` and two-digit minute; a year from 0 to
/// 9999 is four digits, another year its sign and at least four digits.
pub proof fn lemma_stamp_text_reads_back(t: (i32, u32, u32, u32, u32))
    requires
        stamp_ok(t),
    ensures
        ({
            let s = stamp_text(t);
            let l = year_text(t.0 as int).len() as int;
            &&& s.len() == l + 12
            &&& s[l] == '-' && s[l + 3] == '-' && s[l + 6] == ' ' && s[l + 9] == ':'
            &&& reads_as(s, l + 1, l + 3, t.1 as int)
            &&& reads_as(s, l + 4, l + 6, t.2 as int)
            &&& reads_as(s, l + 7, l + 9, t.3 as int)
            &&& reads_as(s, l + 10, l + 12, t.4 as int)
            &&& (0 <= t.0 <= 9999 ==> l == 4 && reads_as(s, 0, 4, t.0 as int))
            &&& (t.0 < 0 ==> l >= 5 && s[0] == '-' && reads_as(s, 1, l, -(t.0 as int)))
            &&& (t.0 > 9999 ==> l >= 5 && s[0] == '+' && reads_as(s, 1, l, t.0 as int))
        }),
{
    let y = t.0 as int;
    let yt = year_text(y);
    let l = yt.len() as int;
    assert(pow10(0) == 1);
    assert(pow10(1) == 10);
    assert(pow10(2) == 100);
    assert(pow10(3) == 1000);
    assert(pow10(4) == 10000);
    lemma_padded(t.1 as nat, 2);
    lemma_padded(t.2 as nat, 2);
    lemma_padded(t.3 as nat, 2);
    lemma_padded(t.4 as nat, 2);
    let mo = padded(t.1 as nat, 2);
    let da = padded(t.2 as nat, 2);
    let ho = padded(t.3 as nat, 2);
    let mi = padded(t.4 as nat, 2);
    let s = stamp_text(t);
    assert(s =~= yt + seq!['-'] + mo + seq!['-'] + da + seq![' '] + ho + seq![':'] + mi);
    assert(s.subrange(l + 1, l + 3) =~= mo);
    assert(s.subrange(l + 4, l + 6) =~= da);
    assert(s.subrange(l + 7, l + 9) =~= ho);
    assert(s.subrange(l + 10, l + 12) =~= mi);
    if 0 <= y <= 9999 {
        lemma_padded(y as nat, 4);
        assert(s.subrange(0, 4) =~= yt);
    } else if y < 0 {
        lemma_padded((-y) as nat, 4);
        assert(s.subrange(1, l) =~= padded((-y) as nat, 4));
    } else {
        lemma_padded(y as nat, 4);
        assert(s.subrange(1, l) =~= padded(y as nat, 4));
    }
}

/// The last modification of a file, `secs` seconds and `nanos`
/// nanoseconds after the Unix epoch, as local `YYYY-MM-DD HH:MM`; `None`
/// when the instant cannot be represented.
pub fn modified_text(secs: i64, nanos: u32) -> (r: Option<String>)
    ensures
        r matches Some(s) ==> exists|t: (i32, u32, u32, u32, u32)| stamp_ok(t) && s@ == stamp_text(t),
        r matches Some(s) ==> exists|o: int|
            -86400 < o < 86400 && s@ == stamp_text(#[trigger] civil_stamp(secs + o)),
{
    match local_stamp(secs, nanos) {
        Some(t) => {
            let s = format_stamp(t);
            assert(stamp_ok(t) && s@ == stamp_text(t));
            proof {
                let o = choose|o: int| -86400 < o < 86400 && t == #[trigger] civil_stamp(secs + o);
                assert(s@ == stamp_text(civil_stamp(secs + o)));
            }
            Some(s)
        },
        None => None,
    }
}

/// The local calendar date of the last modification of a file, `secs`
/// seconds and `nanos` nanoseconds after the Unix epoch, as (year, month,
/// day); `None` when the instant cannot be represented.
pub fn modified_day(secs: i64, nanos: u32) -> (r: Option<(i32, u32, u32)>)
    ensures
        r matches Some(d) ==> 1 <= d.1 <= 12 && 1 <= d.2 <= 31,
        r matches Some(d) ==> exists|o: int|
            -86400 < o < 86400 && #[trigger] civil_stamp(secs + o).0 == d.0 && civil_stamp(secs + o).1 == d.1
                && civil_stamp(secs + o).2 == d.2,
{
    match local_stamp(secs, nanos) {
        Some(t) => {
            proof {
                let o = choose|o: int| -86400 < o < 86400 && t == #[trigger] civil_stamp(secs + o);
                assert(civil_stamp(secs + o).0 == t.0);
            }
            Some((t.0, t.1, t.2))
        },
        None => None,
    }
}

} // verus!
