//! Amount text: parsing and rendering of non-negative fixed-point decimals.
//!
//! An amount is held as an integer count of ten-thousandths of a unit. The
//! accepted grammar is one or more digits, optionally followed by a dot and
//! one to four fraction digits; anything else fails to parse, and the engine
//! then freezes the dependent derived value.

use vstd::prelude::*;
use vstd::arithmetic::div_mod::lemma_div_denominator;
use vstd::arithmetic::div_mod::lemma_fundamental_div_mod;
use vstd::arithmetic::mul::lemma_mul_inequality;
use vstd::string::StrSliceExecFns;

verus! {

/// Number of fixed-point units in one whole unit: four decimal places.
pub const SCALE: u64 = 10000;

/// Exclusive upper bound, in fixed-point units, on any amount the parser
/// accepts (`MAX_WHOLE * SCALE`).
pub const MAX_UNITS: u64 = 1000000000000000;

/// Exclusive upper bound on the whole part of a parsed amount.
pub const MAX_WHOLE: u64 = 100000000000;

pub open spec fn is_digit(c: char) -> bool {
    ('0' as u32) <= (c as u32) && (c as u32) <= ('9' as u32)
}

pub open spec fn digit_val(c: char) -> nat
    recommends
        is_digit(c),
{
    ((c as u32) - ('0' as u32)) as nat
}

pub open spec fn all_digits(s: Seq<char>) -> bool {
    forall|i: int| 0 <= i < s.len() ==> is_digit(#[trigger] s[i])
}

/// Value of a digit string, most significant digit first.
pub open spec fn digits_val(s: Seq<char>) -> nat
    decreases s.len(),
{
    if s.len() == 0 {
        0
    } else {
        digits_val(s.drop_last()) * 10 + digit_val(s.last())
    }
}

/// Index of the first `'.'` in `s`, if any.
pub open spec fn first_dot(s: Seq<char>) -> Option<int>
    decreases s.len(),
{
    if s.len() == 0 {
        None
    } else if s[0] == '.' {
        Some(0)
    } else {
        match first_dot(s.drop_first()) {
            Some(i) => Some(i + 1),
            None => None,
        }
    }
}

pub open spec fn pow10(k: nat) -> nat
    decreases k,
{
    if k == 0 {
        1
    } else {
        10 * pow10((k - 1) as nat)
    }
}

/// Fixed-point value denoted by integer part `ip` and fraction part `fp`.
pub open spec fn split_units(ip: Seq<char>, fp: Seq<char>) -> nat
    recommends
        fp.len() <= 4,
{
    digits_val(ip) * (SCALE as nat) + digits_val(fp) * pow10((4 - fp.len()) as nat)
}

/// The amount grammar and its value: one or more digits, optionally followed
/// by a dot and one to four fraction digits, whole part below `MAX_WHOLE`.
pub open spec fn parse_spec(s: Seq<char>) -> Option<u64> {
    match first_dot(s) {
        None => {
            if s.len() >= 1 && all_digits(s) && digits_val(s) < (MAX_WHOLE as nat) {
                Some((digits_val(s) * (SCALE as nat)) as u64)
            } else {
                None
            }
        },
        Some(i) => {
            let ip = s.subrange(0, i);
            let fp = s.subrange(i + 1, s.len() as int);
            if 1 <= i && all_digits(ip) && 1 <= fp.len() <= 4 && all_digits(fp) && digits_val(ip)
                < (MAX_WHOLE as nat) {
                Some(split_units(ip, fp) as u64)
            } else {
                None
            }
        },
    }
}

pub open spec fn digit_char(d: nat) -> char
    recommends
        d < 10,
{
    if d == 0 {
        '0'
    } else if d == 1 {
        '1'
    } else if d == 2 {
        '2'
    } else if d == 3 {
        '3'
    } else if d == 4 {
        '4'
    } else if d == 5 {
        '5'
    } else if d == 6 {
        '6'
    } else if d == 7 {
        '7'
    } else if d == 8 {
        '8'
    } else {
        '9'
    }
}

/// Decimal digits of `n`, most significant first, no leading zeros.
pub open spec fn dec_digits(n: nat) -> Seq<char>
    decreases n,
{
    if n < 10 {
        seq![digit_char(n)]
    } else {
        dec_digits(n / 10).push(digit_char(n % 10))
    }
}

/// Exactly `w` decimal digits of `n`, zero padded, most significant first.
pub open spec fn pad_digits(n: nat, w: nat) -> Seq<char>
    decreases w,
{
    if w == 0 {
        Seq::empty()
    } else {
        pad_digits(n / 10, (w - 1) as nat).push(digit_char(n % 10))
    }
}

/// Canonical text of a fixed-point value: the whole part, then a dot and four
/// fraction digits when the value is not whole.
pub open spec fn format_spec(u: nat) -> Seq<char> {
    if u % (SCALE as nat) == 0 {
        dec_digits(u / (SCALE as nat))
    } else {
        dec_digits(u / (SCALE as nat)).push('.') + pad_digits(u % (SCALE as nat), 4)
    }
}

pub proof fn lemma_digit_char_val(d: nat)
    requires
        d < 10,
    ensures
        is_digit(digit_char(d)),
        digit_val(digit_char(d)) == d,
        digit_char(d) != '.',
{
}

/// `first_dot` finds a dot, and the first one.
pub proof fn lemma_first_dot(s: Seq<char>)
    ensures
        match first_dot(s) {
            Some(k) => 0 <= k < s.len() && s[k] == '.' && (forall|j: int|
                0 <= j < k ==> s[j] != '.'),
            None => forall|j: int| 0 <= j < s.len() ==> s[j] != '.',
        },
    decreases s.len(),
{
    if s.len() > 0 && s[0] != '.' {
        lemma_first_dot(s.drop_first());
        assert forall|j: int| 1 <= j < s.len() implies s[j] == s.drop_first()[j - 1] by {}
    }
}

/// One scanning step: extending a digit-run window by one character.
pub proof fn lemma_digits_val_snoc(s: Seq<char>, a: int, b: int)
    requires
        0 <= a <= b < s.len(),
    ensures
        digits_val(s.subrange(a, b + 1)) == digits_val(s.subrange(a, b)) * 10 + digit_val(s[b]),
{
    let w = s.subrange(a, b + 1);
    assert(w.drop_last() =~= s.subrange(a, b));
    assert(w.last() == s[b]);
}

/// A digit-run prefix never exceeds a longer one in value.
pub proof fn lemma_digits_val_prefix(s: Seq<char>, x: int, y: int)
    requires
        0 <= x <= y <= s.len(),
    ensures
        digits_val(s.subrange(0, x)) <= digits_val(s.subrange(0, y)),
    decreases y - x,
{
    if x < y {
        lemma_digits_val_prefix(s, x, y - 1);
        lemma_digits_val_snoc(s, 0, y - 1);
        assert(digits_val(s.subrange(0, y - 1)) * 10 >= digits_val(s.subrange(0, y - 1)) * 1);
    } else {
        assert(s.subrange(0, x) =~= s.subrange(0, y));
    }
}

/// A string of `w` digits denotes a value below `pow10(w)`.
pub proof fn lemma_digits_val_bound(s: Seq<char>)
    requires
        all_digits(s),
    ensures
        digits_val(s) < pow10(s.len()),
    decreases s.len(),
{
    if s.len() > 0 {
        assert(all_digits(s.drop_last())) by {
            assert(forall|i: int|
                0 <= i < s.len() - 1 ==> s.drop_last()[i] == s[i]);
        }
        lemma_digits_val_bound(s.drop_last());
        assert(is_digit(s.last()));
        assert(digit_val(s.last()) <= 9);
        let p = pow10((s.len() - 1) as nat);
        assert(digits_val(s.drop_last()) * 10 + 9 < p * 10) by {
            assert(digits_val(s.drop_last()) + 1 <= p);
            lemma_mul_inequality((digits_val(s.drop_last()) + 1) as int, p as int, 10);
        }
        assert(pow10(s.len()) == 10 * p);
    }
}

/// `dec_digits` renders exactly the digits of its argument.
pub proof fn lemma_dec_digits(n: nat)
    ensures
        dec_digits(n).len() >= 1,
        all_digits(dec_digits(n)),
        forall|j: int| 0 <= j < dec_digits(n).len() ==> dec_digits(n)[j] != '.',
        digits_val(dec_digits(n)) == n,
    decreases n,
{
    if n < 10 {
        lemma_digit_char_val(n);
        let s = dec_digits(n);
        assert(s.drop_last() =~= Seq::<char>::empty());
        assert(s.last() == digit_char(n));
        assert(digits_val(s) == digits_val(s.drop_last()) * 10 + digit_val(s.last()));
        assert(digits_val(s.drop_last()) == 0);
    } else {
        lemma_dec_digits(n / 10);
        lemma_digit_char_val(n % 10);
        let s = dec_digits(n);
        assert(s.drop_last() =~= dec_digits(n / 10));
        assert(s.last() == digit_char(n % 10));
        lemma_fundamental_div_mod(n as int, 10);
        assert forall|j: int| 0 <= j < s.len() implies is_digit(s[j]) && s[j] != '.' by {
            if j < s.len() - 1 {
                assert(s[j] == dec_digits(n / 10)[j]);
            }
        }
    }
}

/// `pad_digits` renders exactly the digits of its argument when it fits.
pub proof fn lemma_pad_digits(n: nat, w: nat)
    requires
        n < pow10(w),
    ensures
        pad_digits(n, w).len() == w,
        all_digits(pad_digits(n, w)),
        forall|j: int| 0 <= j < w ==> pad_digits(n, w)[j] != '.',
        digits_val(pad_digits(n, w)) == n,
    decreases w,
{
    if w > 0 {
        assert(n / 10 < pow10((w - 1) as nat)) by {
            assert(pow10(w) == 10 * pow10((w - 1) as nat));
            lemma_div_bound_helper(n, pow10((w - 1) as nat));
        }
        lemma_pad_digits(n / 10, (w - 1) as nat);
        lemma_digit_char_val(n % 10);
        let s = pad_digits(n, w);
        assert(s.drop_last() =~= pad_digits(n / 10, (w - 1) as nat));
        lemma_fundamental_div_mod(n as int, 10);
        assert forall|j: int| 0 <= j < s.len() implies is_digit(s[j]) && s[j] != '.' by {
            if j < s.len() - 1 {
                assert(s[j] == pad_digits(n / 10, (w - 1) as nat)[j]);
            }
        }
    } else {
        assert(pad_digits(n, 0) =~= Seq::<char>::empty());
    }
}

/// If `n < 10 * m` then `n / 10 < m`.
proof fn lemma_div_bound_helper(n: nat, m: nat)
    requires
        n < 10 * m,
    ensures
        n / 10 < m,
{
    lemma_fundamental_div_mod(n as int, 10);
}

/// Rendering a value below `MAX_UNITS` and parsing it back returns the value.
pub proof fn lemma_parse_format(u: nat)
    requires
        u < MAX_UNITS,
    ensures
        parse_spec(format_spec(u)) == Some(u as u64),
{
    let sc = SCALE as nat;
    let whole = u / sc;
    let frac = u % sc;
    lemma_fundamental_div_mod(u as int, sc as int);
    assert(whole < MAX_WHOLE) by {
        if whole >= MAX_WHOLE {
            lemma_mul_inequality(MAX_WHOLE as int, whole as int, sc as int);
        }
    }
    lemma_dec_digits(whole);
    let dd = dec_digits(whole);
    if frac == 0 {
        let s = format_spec(u);
        assert(s == dd);
        lemma_first_dot(s);
        if first_dot(s) is Some {
            let k = first_dot(s)->Some_0;
            assert(s[k] != '.');
        }
        assert(parse_spec(s) == Some((whole * sc) as u64));
        assert(whole * sc == u);
    } else {
        assert(frac < pow10(4)) by {
            lemma_pow10_4();
        }
        lemma_pad_digits(frac, 4);
        let pd = pad_digits(frac, 4);
        let s = format_spec(u);
        assert(s == dd.push('.') + pd);
        let k = dd.len() as int;
        assert(s.len() == k + 5);
        assert(s[k] == '.');
        assert(forall|j: int| 0 <= j < k ==> s[j] == dd[j]);
        assert(forall|j: int| k + 1 <= j < s.len() ==> s[j] == pd[j - k - 1]);
        lemma_first_dot(s);
        match first_dot(s) {
            None => {
                assert(false);
            },
            Some(fd) => {
                assert(fd == k) by {
                    if fd < k {
                        assert(s[fd] == dd[fd]);
                    }
                    if fd > k {
                        assert(s[k] == '.');
                    }
                }
                let ip = s.subrange(0, k);
                let fp = s.subrange(k + 1, s.len() as int);
                assert(ip =~= dd);
                assert(fp =~= pd);
                assert(fp.len() == 4);
                assert(pow10((4 - fp.len()) as nat) == 1);
                assert(split_units(ip, fp) == whole * sc + frac);
                assert(whole * sc + frac == u);
                assert(parse_spec(s) == Some(u as u64));
            },
        }
    }
}

pub proof fn lemma_pow10_4()
    ensures
        pow10(0) == 1,
        pow10(1) == 10,
        pow10(2) == 100,
        pow10(3) == 1000,
        pow10(4) == 10000,
{
    assert(pow10(0) == 1);
    assert(pow10(1) == 10);
    assert(pow10(2) == 100);
    assert(pow10(3) == 1000);
    assert(pow10(4) == 10000);
}

/// A parsed amount is always below `MAX_UNITS`.
pub proof fn lemma_parse_bound(s: Seq<char>)
    ensures
        parse_spec(s) matches Some(v) ==> v < MAX_UNITS,
{
    match first_dot(s) {
        None => {
            if s.len() >= 1 && all_digits(s) && digits_val(s) < (MAX_WHOLE as nat) {
                lemma_mul_inequality(
                    digits_val(s) as int,
                    MAX_WHOLE as int - 1,
                    SCALE as int,
                );
            }
        },
        Some(i) => {
            let ip = s.subrange(0, i);
            let fp = s.subrange(i + 1, s.len() as int);
            if 1 <= i && all_digits(ip) && 1 <= fp.len() <= 4 && all_digits(fp) && digits_val(ip)
                < (MAX_WHOLE as nat) {
                lemma_mul_inequality(digits_val(ip) as int, MAX_WHOLE as int - 1, SCALE as int);
                lemma_digits_val_bound(fp);
                lemma_pow10_4();
                lemma_frac_bound(digits_val(fp), fp.len() as nat);
            }
        },
    }
}

/// A fraction of `w <= 4` digits scaled to four places stays below `SCALE`.
proof fn lemma_frac_bound(v: nat, w: nat)
    requires
        1 <= w <= 4,
        v < pow10(w),
    ensures
        v * pow10((4 - w) as nat) < (SCALE as nat),
{
    lemma_pow10_4();
    assert((v + 1) * pow10((4 - w) as nat) <= pow10(w) * pow10((4 - w) as nat)) by {
        lemma_mul_inequality((v + 1) as int, pow10(w) as int, pow10((4 - w) as nat) as int);
    }
    assert(pow10(w) * pow10((4 - w) as nat) == 10000) by {
        if w == 1 {
            assert(pow10(w) == 10 && pow10((4 - w) as nat) == 1000);
            assert(pow10(w) * pow10((4 - w) as nat) == 10 * 1000) by (nonlinear_arith)
                requires pow10(w) == 10 && pow10((4 - w) as nat) == 1000;
        } else if w == 2 {
            assert(pow10(w) == 100 && pow10((4 - w) as nat) == 100);
            assert(pow10(w) * pow10((4 - w) as nat) == 100 * 100) by (nonlinear_arith)
                requires pow10(w) == 100 && pow10((4 - w) as nat) == 100;
        } else if w == 3 {
            assert(pow10(w) == 1000 && pow10((4 - w) as nat) == 10);
            assert(pow10(w) * pow10((4 - w) as nat) == 1000 * 10) by (nonlinear_arith)
                requires pow10(w) == 1000 && pow10((4 - w) as nat) == 10;
        } else {
            assert(pow10(w) == 10000 && pow10((4 - w) as nat) == 1);
            assert(pow10(w) * pow10((4 - w) as nat) == 10000 * 1) by (nonlinear_arith)
                requires pow10(w) == 10000 && pow10((4 - w) as nat) == 1;
        }
    }
    assert(v * pow10((4 - w) as nat) + pow10((4 - w) as nat) == (v + 1) * pow10((4 - w) as nat))
        by {
        lemma_mul_basics_helper(v, pow10((4 - w) as nat));
    }
}

proof fn lemma_mul_basics_helper(v: nat, p: nat)
    ensures
        v * p + p == (v + 1) * p,
{
    assert(v * p + p == (v + 1) * p) by (nonlinear_arith);
}

pub(crate) fn exec_digit(c: char) -> (r: Option<u64>)
    ensures
        r matches Some(d) ==> is_digit(c) && d == digit_val(c) && d < 10,
        r is None ==> !is_digit(c),
{
    let u = c as u32;
    if ('0' as u32) <= u && u <= ('9' as u32) {
        Some((u - ('0' as u32)) as u64)
    } else {
        None
    }
}

/// Parse non-negative fixed-point amount text; `None` on any other input.
pub fn parse_amount(s: &str) -> (r: Option<u64>)
    ensures
        r == parse_spec(s@),
{
    let n = s.unicode_len();
    let ghost sv = s@;
    let mut i: usize = 0;
    let mut intv: u64 = 0;
    loop
        invariant
            n as nat == sv.len(),
            sv == s@,
            i <= n,
            forall|j: int| 0 <= j < i ==> is_digit(#[trigger] sv[j]),
            intv == digits_val(sv.subrange(0, i as int)),
            intv < MAX_WHOLE,
        ensures
            i <= n,
            i == n || !is_digit(sv[i as int]),
            forall|j: int| 0 <= j < i ==> is_digit(#[trigger] sv[j]),
            intv == digits_val(sv.subrange(0, i as int)),
            intv < MAX_WHOLE,
        decreases n - i,
    {
        if i >= n {
            break;
        }
        let c = s.get_char(i);
        match exec_digit(c) {
            None => {
                break;
            },
            Some(d) => {
                proof {
                    lemma_digits_val_snoc(sv, 0, i as int);
                }
                let next = intv * 10 + d;
                if next >= MAX_WHOLE {
                    proof {
                        lemma_whole_too_large(sv, i as int);
                    }
                    return None;
                }
                intv = next;
                i = i + 1;
            },
        }
    }
    // Here every character before `i` is a digit and either the text ends at
    // `i` or the character at `i` is not a digit.
    assert(i == n || !is_digit(sv[i as int]));
    if i == 0 {
        proof {
            lemma_no_leading_digit(sv);
        }
        return None;
    }
    if i == n {
        proof {
            lemma_first_dot(sv);
            if first_dot(sv) is Some {
                let k = first_dot(sv)->Some_0;
                assert(is_digit(sv[k]));
            }
            assert(sv.subrange(0, n as int) =~= sv);
            lemma_mul_inequality(intv as int, MAX_WHOLE as int - 1, SCALE as int);
        }
        return Some(intv * SCALE);
    }
    let c = s.get_char(i);
    if !(c == '.') {
        proof {
            lemma_not_dot_not_digit(sv, i as int);
        }
        return None;
    }
    // Fraction part.
    proof {
        lemma_first_dot_here(sv, i as int);
    }
    let mut j: usize = i + 1;
    let mut fracv: u64 = 0;
    loop
        invariant
            n as nat == sv.len(),
            sv == s@,
            0 < i < n,
            sv[i as int] == '.',
            i + 1 <= j <= n,
            j - i - 1 <= 4,
            forall|t: int| 0 <= t < i ==> is_digit(#[trigger] sv[t]),
            forall|t: int| i + 1 <= t < j ==> is_digit(#[trigger] sv[t]),
            fracv == digits_val(sv.subrange(i + 1, j as int)),
            first_dot(sv) == Some(i as int),
            intv == digits_val(sv.subrange(0, i as int)),
            intv < MAX_WHOLE,
        ensures
            i + 1 <= j <= n,
            j == n || !is_digit(sv[j as int]),
            j - i - 1 <= 4,
            forall|t: int| i + 1 <= t < j ==> is_digit(#[trigger] sv[t]),
            fracv == digits_val(sv.subrange(i + 1, j as int)),
        decreases n - j,
    {
        if j >= n {
            break;
        }
        let c2 = s.get_char(j);
        match exec_digit(c2) {
            None => {
                break;
            },
            Some(d) => {
                if j - i >= 5 {
                    // a fifth fraction digit: the fraction part is too long
                    proof {
                        let fp = sv.subrange(i + 1, n as int);
                        assert(fp.len() >= 5);
                    }
                    return None;
                }
                proof {
                    lemma_digits_val_snoc(sv, i + 1, j as int);
                    lemma_pow10_4();
                    lemma_digits_val_bound_sub(sv, i + 1, j as int);
                }
                fracv = fracv * 10 + d;
                j = j + 1;
            },
        }
    }
    let ghost fp = sv.subrange(i + 1, n as int);
    if j < n {
        // non-digit inside the fraction part
        proof {
            assert(fp[j - i - 1] == sv[j as int]);
            assert(!is_digit(fp[j - i - 1]));
        }
        return None;
    }
    if j == i + 1 {
        // dot with no fraction digits
        proof {
            assert(fp.len() == 0);
        }
        return None;
    }
    let fcount = j - i - 1;
    let mult: u64 = if fcount == 1 {
        1000
    } else if fcount == 2 {
        100
    } else if fcount == 3 {
        10
    } else {
        1
    };
    proof {
        assert(fp =~= sv.subrange(i + 1, j as int));
        lemma_pow10_4();
        assert(mult == pow10((4 - fp.len()) as nat));
        lemma_digits_val_bound(fp);
        lemma_frac_bound(fracv as nat, fp.len() as nat);
        lemma_mul_inequality(intv as int, MAX_WHOLE as int - 1, SCALE as int);
        assert(split_units(sv.subrange(0, i as int), fp) == intv * SCALE + fracv * mult);
    }
    Some(intv * SCALE + fracv * mult)
}

/// `digits_val` of a window of all digits is bounded by `pow10` of its width.
pub(crate) proof fn lemma_digits_val_bound_sub(s: Seq<char>, a: int, b: int)
    requires
        0 <= a <= b <= s.len(),
        forall|t: int| a <= t < b ==> is_digit(#[trigger] s[t]),
    ensures
        digits_val(s.subrange(a, b)) < pow10((b - a) as nat),
{
    let w = s.subrange(a, b);
    assert(all_digits(w)) by {
        assert(forall|t: int| 0 <= t < w.len() ==> w[t] == s[a + t]);
    }
    lemma_digits_val_bound(w);
}

/// When an over-large digit prefix is read, no parse of the text exists.
proof fn lemma_whole_too_large(s: Seq<char>, i: int)
    requires
        0 <= i < s.len(),
        forall|j: int| 0 <= j <= i ==> is_digit(#[trigger] s[j]),
        digits_val(s.subrange(0, i + 1)) >= MAX_WHOLE,
    ensures
        parse_spec(s) is None,
{
    lemma_first_dot(s);
    match first_dot(s) {
        None => {
            lemma_digits_val_prefix(s, i + 1, s.len() as int);
            assert(s.subrange(0, s.len() as int) =~= s);
        },
        Some(k) => {
            assert(k > i) by {
                assert(is_digit(s[k]) ==> s[k] != '.') by {
                    assert(('.' as u32) < ('0' as u32));
                }
                if k <= i {
                    assert(is_digit(s[k]));
                }
            }
            lemma_digits_val_prefix(s, i + 1, k);
        },
    }
}

/// A text whose first character is not a digit never parses.
proof fn lemma_no_leading_digit(s: Seq<char>)
    requires
        s.len() == 0 || !is_digit(s[0]),
    ensures
        parse_spec(s) is None,
{
    lemma_first_dot(s);
    if s.len() > 0 {
        match first_dot(s) {
            None => {},
            Some(k) => {
                if k >= 1 {
                    assert(s.subrange(0, k)[0] == s[0]);
                }
            },
        }
    }
}

/// A digit run stopped by something that is neither digit nor dot: no parse.
proof fn lemma_not_dot_not_digit(s: Seq<char>, i: int)
    requires
        0 < i < s.len(),
        forall|j: int| 0 <= j < i ==> is_digit(#[trigger] s[j]),
        !is_digit(s[i]),
        s[i] != '.',
    ensures
        parse_spec(s) is None,
{
    lemma_first_dot(s);
    match first_dot(s) {
        None => {
            assert(!all_digits(s));
        },
        Some(k) => {
            assert(k != i);
            assert(k > i) by {
                if k < i {
                    assert(is_digit(s[k]));
                    assert(('.' as u32) < ('0' as u32));
                }
            }
            assert(s.subrange(0, k)[i] == s[i]);
            assert(!all_digits(s.subrange(0, k)));
        },
    }
}

/// All of a digit run before a dot: the dot is the first one.
proof fn lemma_first_dot_here(s: Seq<char>, i: int)
    requires
        0 <= i < s.len(),
        forall|j: int| 0 <= j < i ==> is_digit(#[trigger] s[j]),
        s[i] == '.',
    ensures
        first_dot(s) == Some(i),
{
    lemma_first_dot(s);
    match first_dot(s) {
        None => {
            assert(false);
        },
        Some(k) => {
            if k < i {
                assert(is_digit(s[k]));
                assert(('.' as u32) < ('0' as u32));
            }
            if k > i {
                assert(s[i] != '.');
            }
        },
    }
}

pub(crate) fn digit_char_of(d: u64) -> (c: char)
    requires
        d < 10,
    ensures
        c == digit_char(d as nat),
{
    if d == 0 {
        '0'
    } else if d == 1 {
        '1'
    } else if d == 2 {
        '2'
    } else if d == 3 {
        '3'
    } else if d == 4 {
        '4'
    } else if d == 5 {
        '5'
    } else if d == 6 {
        '6'
    } else if d == 7 {
        '7'
    } else if d == 8 {
        '8'
    } else {
        '9'
    }
}

fn fmt_nat(n: u128) -> (r: Vec<char>)
    ensures
        r@ == dec_digits(n as nat),
    decreases n,
{
    let d = (n % 10) as u64;
    if n < 10 {
        let mut v: Vec<char> = Vec::new();
        v.push(digit_char_of(d));
        proof {
            assert(v@ =~= seq![digit_char(n as nat)]);
        }
        v
    } else {
        proof {
            lemma_fundamental_div_mod(n as int, 10);
        }
        let mut v = fmt_nat(n / 10);
        v.push(digit_char_of(d));
        v
    }
}

/// Relies on `String::from_iter` over `char`: the resulting string holds
/// exactly the characters of `v`, in order.
#[verifier::external_body]
pub(crate) fn string_from_chars(v: Vec<char>) -> (r: String)
    ensures
        r@ == v@,
{
    String::from_iter(v)
}

/// Render a fixed-point value as amount text.
pub fn format_amount(units: u128) -> (r: String)
    ensures
        r@ == format_spec(units as nat),
{
    proof {
        lemma_fundamental_div_mod(units as int, SCALE as int);
    }
    let whole = units / (SCALE as u128);
    let frac = (units % (SCALE as u128)) as u64;
    let mut v = fmt_nat(whole);
    if frac != 0 {
        v.push('.');
        proof {
            lemma_pow10_4();
            lemma_div_denominator_chain(frac as nat);
        }
        v.push(digit_char_of(frac / 1000));
        v.push(digit_char_of((frac / 100) % 10));
        v.push(digit_char_of((frac / 10) % 10));
        v.push(digit_char_of(frac % 10));
        proof {
            lemma_pad4(frac as nat);
            assert(v@ =~= dec_digits((units as nat) / (SCALE as nat)).push('.') + pad_digits(
                (units as nat) % (SCALE as nat),
                4,
            ));
        }
    }
    string_from_chars(v)
}

/// The four fraction digits, spelled out.
proof fn lemma_pad4(f: nat)
    requires
        f < 10000,
    ensures
        pad_digits(f, 4) =~= seq![
            digit_char((f / 1000) % 10),
            digit_char((f / 100) % 10),
            digit_char((f / 10) % 10),
            digit_char(f % 10),
        ],
{
    lemma_div_denominator_chain(f);
    assert(pad_digits(f, 4) == pad_digits(f / 10, 3).push(digit_char(f % 10)));
    assert(pad_digits(f / 10, 3) == pad_digits(f / 100, 2).push(digit_char((f / 10) % 10)));
    assert(pad_digits(f / 100, 2) == pad_digits(f / 1000, 1).push(digit_char((f / 100) % 10)));
    assert(pad_digits(f / 1000, 1) == pad_digits(f / 10000, 0).push(digit_char((f / 1000) % 10)));
    assert(pad_digits(f / 10000, 0) =~= Seq::<char>::empty());
    assert((f / 1000) % 10 == f / 1000) by {
        lemma_fundamental_div_mod((f / 1000) as int, 10);
    }
}

/// Nested divisions by ten collapse to divisions by powers of ten.
proof fn lemma_div_denominator_chain(f: nat)
    ensures
        (f / 10) / 10 == f / 100,
        (f / 100) / 10 == f / 1000,
        (f / 1000) / 10 == f / 10000,
        f < 10000 ==> f / 10000 == 0,
{
    lemma_div_denominator(f as int, 10, 10);
    lemma_div_denominator(f as int, 100, 10);
    lemma_div_denominator(f as int, 1000, 10);
}

} // verus!
