//! Reading the GPU power figures out of the driver tool's CSV report.
use vstd::prelude::*;
use vstd::arithmetic::div_mod::{lemma_basic_div, lemma_div_denominator};
use crate::framing::NEWLINE;
use crate::sample::{capped, NvidiaBundle};

verus! {

/// The byte that separates fields.
pub const COMMA: u8 = 44;

/// The byte that separates whole and fractional digits.
pub const DOT: u8 = 46;

/// The plus sign.
pub const PLUS: u8 = 43;

/// The minus sign.
pub const MINUS: u8 = 45;

/// One more than the largest `u64`.
pub const BEYOND_U64: u128 = 18446744073709551616;

/// An ASCII decimal digit.
pub open spec fn is_digit(b: u8) -> bool {
    48 <= b <= 57
}

/// A sign byte.
pub open spec fn is_sign(b: u8) -> bool {
    b == PLUS || b == MINUS
}

/// The three-byte UTF-8 encodings of whitespace: U+1680, U+2000 to U+200A,
/// U+2028, U+2029, U+202F, U+205F and U+3000.
pub open spec fn is_wide_space(a: u8, b: u8, c: u8) -> bool {
    ||| a == 0xE1 && b == 0x9A && c == 0x80
    ||| a == 0xE2 && b == 0x80 && (0x80 <= c <= 0x8A || c == 0xA8 || c == 0xA9 || c == 0xAF)
    ||| a == 0xE2 && b == 0x81 && c == 0x9F
    ||| a == 0xE3 && b == 0x80 && c == 0x80
}

/// The length in bytes of the whitespace character that `s` starts with, or
/// 0. Whitespace is what text trimming removes: tab to carriage return,
/// space, U+0085, U+00A0 and the wide spaces.
pub open spec fn space_len_at_start(s: Seq<u8>) -> nat {
    if s.len() >= 1 && (9 <= s[0] <= 13 || s[0] == 32) {
        1
    } else if s.len() >= 2 && s[0] == 0xC2 && (s[1] == 0x85 || s[1] == 0xA0) {
        2
    } else if s.len() >= 3 && is_wide_space(s[0], s[1], s[2]) {
        3
    } else {
        0
    }
}

/// The length in bytes of the whitespace character that `s` ends with, or 0.
pub open spec fn space_len_at_end(s: Seq<u8>) -> nat {
    let n = s.len() as int;
    if n >= 1 && (9 <= s[n - 1] <= 13 || s[n - 1] == 32) {
        1
    } else if n >= 2 && s[n - 2] == 0xC2 && (s[n - 1] == 0x85 || s[n - 1] == 0xA0) {
        2
    } else if n >= 3 && is_wide_space(s[n - 3], s[n - 2], s[n - 1]) {
        3
    } else {
        0
    }
}

/// `s` without its leading whitespace.
pub open spec fn trim_start(s: Seq<u8>) -> Seq<u8>
    decreases s.len(),
{
    let k = space_len_at_start(s);
    if k > 0 {
        trim_start(s.skip(k as int))
    } else {
        s
    }
}

/// `s` without its trailing whitespace.
pub open spec fn trim_end(s: Seq<u8>) -> Seq<u8>
    decreases s.len(),
{
    let k = space_len_at_end(s);
    if k > 0 {
        trim_end(s.take(s.len() - k))
    } else {
        s
    }
}

/// `s` without leading and trailing whitespace.
pub open spec fn trim(s: Seq<u8>) -> Seq<u8> {
    trim_end(trim_start(s))
}

/// The bytes of `s` before its first `sep` (all of `s` when it has none).
pub open spec fn until(s: Seq<u8>, sep: u8) -> Seq<u8>
    decreases s.len(),
{
    if s.len() == 0 {
        s
    } else if s[0] == sep {
        Seq::empty()
    } else {
        seq![s[0]] + until(s.drop_first(), sep)
    }
}

/// The bytes of `s` after its first `sep`; `None` when it has none.
pub open spec fn after(s: Seq<u8>, sep: u8) -> Option<Seq<u8>>
    decreases s.len(),
{
    if s.len() == 0 {
        None
    } else if s[0] == sep {
        Some(s.drop_first())
    } else {
        after(s.drop_first(), sep)
    }
}

/// Every byte of `s` is a digit.
pub open spec fn all_digits(s: Seq<u8>) -> bool {
    forall|i: int| 0 <= i < s.len() ==> is_digit(#[trigger] s[i])
}

/// The number that the digits `s` write.
pub open spec fn digits_value(s: Seq<u8>) -> nat
    decreases s.len(),
{
    if s.len() == 0 {
        0
    } else {
        digits_value(s.drop_last()) * 10 + (s.last() - 48) as nat
    }
}

/// Ten to the power `n`.
pub open spec fn pow10(n: nat) -> nat
    decreases n,
{
    if n == 0 {
        1
    } else {
        10 * pow10((n - 1) as nat)
    }
}

/// `m` times ten to the power `k`, rounded down.
pub open spec fn scaled(m: nat, k: int) -> nat {
    if k >= 0 {
        m * pow10(k as nat)
    } else {
        m / pow10((-k) as nat)
    }
}

/// The smaller of two numbers.
pub open spec fn min_nat(a: nat, b: nat) -> nat {
    if a <= b {
        a
    } else {
        b
    }
}

/// `x`, negated when `neg` holds.
pub open spec fn signed(neg: bool, x: nat) -> int {
    if neg {
        -x
    } else {
        x as int
    }
}

/// The number of leading bytes of `s` that are digits or dots.
pub open spec fn lead_len(s: Seq<u8>) -> nat
    decreases s.len(),
{
    if s.len() > 0 && (is_digit(s[0]) || s[0] == DOT) {
        1 + lead_len(s.drop_first())
    } else {
        0
    }
}

/// An ASCII letter in lower case; other bytes unchanged.
pub open spec fn lower(b: u8) -> u8 {
    if 65 <= b <= 90 {
        (b + 32) as u8
    } else {
        b
    }
}

/// `s` spells `word` (written in lower case), in any case.
pub open spec fn is_word(s: Seq<u8>, word: Seq<u8>) -> bool {
    s.len() == word.len() && forall|i: int| 0 <= i < s.len() ==> lower(#[trigger] s[i]) == word[i]
}

/// `inf`
pub open spec fn inf_word() -> Seq<u8> {
    seq![105u8, 110, 102]
}

/// `infinity`
pub open spec fn infinity_word() -> Seq<u8> {
    seq![105u8, 110, 102, 105, 110, 105, 116, 121]
}

/// `nan`
pub open spec fn nan_word() -> Seq<u8> {
    seq![110u8, 97, 110]
}

/// The exponent that `rest` writes: 0 when it is empty, else `e` or `E`, an
/// optional sign and at least one digit; `None` for anything else.
pub open spec fn exponent_of(rest: Seq<u8>) -> Option<int> {
    if rest.len() == 0 {
        Some(0)
    } else if rest[0] != 101 && rest[0] != 69 {
        None
    } else {
        let t = rest.drop_first();
        let neg = t.len() > 0 && t[0] == MINUS;
        let d = if t.len() > 0 && is_sign(t[0]) {
            t.drop_first()
        } else {
            t
        };
        if d.len() > 0 && all_digits(d) {
            Some(signed(neg, digits_value(d)))
        } else {
            None
        }
    }
}

/// The value, in thousandths and rounded down, of the unsigned decimal text
/// `u`: digits with an optional dot (at least one digit in all), then an
/// optional exponent; `None` for any other text.
pub open spec fn number_of(u: Seq<u8>) -> Option<nat> {
    let n = lead_len(u) as int;
    let mantissa = u.take(n);
    let whole = until(mantissa, DOT);
    let frac = match after(mantissa, DOT) {
        Some(f) => f,
        None => Seq::empty(),
    };
    match exponent_of(u.skip(n)) {
        Some(e) => if all_digits(whole) && all_digits(frac) && whole.len() + frac.len() > 0 {
            Some(scaled(digits_value(whole + frac), e - frac.len() + 3))
        } else {
            None
        },
        None => None,
    }
}

/// Floating-point text read in thousandths as a float converts to a `u64`:
/// an optional sign, then a decimal number, `inf`, `infinity` or `nan` (in any
/// case). A negative value or `nan` gives 0, and what exceeds `u64` (an
/// infinity too) gives `u64::MAX`; `None` for any other text.
pub open spec fn milli_of(s: Seq<u8>) -> Option<u64> {
    let neg = s.len() > 0 && s[0] == MINUS;
    let u = if s.len() > 0 && is_sign(s[0]) {
        s.drop_first()
    } else {
        s
    };
    if is_word(u, inf_word()) || is_word(u, infinity_word()) {
        Some(
            if neg {
                0
            } else {
                u64::MAX
            },
        )
    } else if is_word(u, nan_word()) {
        Some(0)
    } else {
        match number_of(u) {
            Some(v) => Some(
                if neg {
                    0
                } else {
                    capped(v)
                },
            ),
            None => None,
        }
    }
}

/// The power draw and limit, in milliwatts, that a report gives: the first
/// two comma-separated fields of its first line, each a number of watts with
/// whitespace around it.
pub open spec fn power_of(report: Seq<u8>) -> Option<(u64, u64)> {
    let line = until(report, NEWLINE);
    match after(line, COMMA) {
        None => None,
        Some(rest) => match (milli_of(trim(until(line, COMMA))), milli_of(trim(until(rest, COMMA)))) {
            (Some(draw), Some(limit)) => Some((draw, limit)),
            _ => None,
        },
    }
}

/// How `until` and `after` split `s` at `j`, the index of its first `sep`
/// (its length when there is none).
proof fn lemma_split_at(s: Seq<u8>, sep: u8, j: int)
    requires
        0 <= j <= s.len(),
        forall|k: int| 0 <= k < j ==> s[k] != sep,
        j < s.len() ==> s[j] == sep,
    ensures
        until(s, sep) == s.take(j),
        after(s, sep) == if j < s.len() {
            Some(s.skip(j + 1))
        } else {
            None::<Seq<u8>>
        },
    decreases j,
{
    if j == 0 {
        assert(s.take(0) =~= Seq::<u8>::empty());
        if s.len() > 0 {
            assert(s.drop_first() =~= s.skip(1));
        }
    } else {
        let t = s.drop_first();
        assert forall|k: int| 0 <= k < j - 1 implies t[k] != sep by {
            assert(t[k] == s[k + 1]);
        }
        lemma_split_at(t, sep, j - 1);
        assert(seq![s[0]] + t.take(j - 1) =~= s.take(j));
        if j < s.len() {
            assert(t.skip(j) =~= s.skip(j + 1));
        }
    }
}

/// The index of the first `sep` in `s[from..to]`, or `to` when there is none.
fn find(s: &[u8], from: usize, to: usize, sep: u8) -> (r: usize)
    requires
        from <= to <= s@.len(),
    ensures
        from <= r <= to,
        forall|k: int| from <= k < r ==> s@[k] != sep,
        r < to ==> s@[r as int] == sep,
{
    let mut i = from;
    while i < to && s[i] != sep
        invariant
            from <= i <= to <= s@.len(),
            forall|k: int| from <= k < i ==> s@[k] != sep,
        decreases to - i,
    {
        i = i + 1;
    }
    i
}

/// A sequence with a byte that is not a digit is not all digits.
proof fn lemma_not_all_digits(s: Seq<u8>, k: int)
    requires
        0 <= k < s.len(),
        !is_digit(s[k]),
    ensures
        !all_digits(s),
{
}

/// Whether `s[from..to]` is all digits.
fn all_digit_bytes(s: &[u8], from: usize, to: usize) -> (r: bool)
    requires
        from <= to <= s@.len(),
    ensures
        r == all_digits(s@.subrange(from as int, to as int)),
{
    let mut i = from;
    while i < to
        invariant
            from <= i <= to <= s@.len(),
            all_digits(s@.subrange(from as int, i as int)),
        decreases to - i,
    {
        if s[i] < 48 || s[i] > 57 {
            proof {
                assert(s@.subrange(from as int, to as int)[i - from] == s@[i as int]);
                lemma_not_all_digits(s@.subrange(from as int, to as int), i - from);
            }
            return false;
        }
        proof {
            let next = s@.subrange(from as int, i + 1);
            assert forall|k: int| 0 <= k < next.len() implies is_digit(#[trigger] next[k]) by {
                if k < i - from {
                    assert(next[k] == s@.subrange(from as int, i as int)[k]);
                }
            }
        }
        i = i + 1;
    }
    true
}

/// The length of the whitespace character at `s[i..to]`'s start, or 0.
fn space_start(s: &[u8], i: usize, to: usize) -> (r: usize)
    requires
        i <= to <= s@.len(),
    ensures
        r == space_len_at_start(s@.subrange(i as int, to as int)),
        r <= to - i,
{
    let n = to - i;
    if n >= 1 && (s[i] == 32 || (9 <= s[i] && s[i] <= 13)) {
        1
    } else if n >= 2 && s[i] == 0xC2 && (s[i + 1] == 0x85 || s[i + 1] == 0xA0) {
        2
    } else if n >= 3 && wide_space(s[i], s[i + 1], s[i + 2]) {
        3
    } else {
        0
    }
}

/// The length of the whitespace character at `s[from..j]`'s end, or 0.
fn space_end(s: &[u8], from: usize, j: usize) -> (r: usize)
    requires
        from <= j <= s@.len(),
    ensures
        r == space_len_at_end(s@.subrange(from as int, j as int)),
        r <= j - from,
{
    let n = j - from;
    if n >= 1 && (s[j - 1] == 32 || (9 <= s[j - 1] && s[j - 1] <= 13)) {
        1
    } else if n >= 2 && s[j - 2] == 0xC2 && (s[j - 1] == 0x85 || s[j - 1] == 0xA0) {
        2
    } else if n >= 3 && wide_space(s[j - 3], s[j - 2], s[j - 1]) {
        3
    } else {
        0
    }
}

/// Whether three bytes encode a wide space.
fn wide_space(a: u8, b: u8, c: u8) -> (r: bool)
    ensures
        r == is_wide_space(a, b, c),
{
    (a == 0xE1 && b == 0x9A && c == 0x80) || (a == 0xE2 && b == 0x80 && ((0x80 <= c && c <= 0x8A)
        || c == 0xA8 || c == 0xA9 || c == 0xAF)) || (a == 0xE2 && b == 0x81 && c == 0x9F) || (a
        == 0xE3 && b == 0x80 && c == 0x80)
}

/// The bounds of `s[from..to]` without leading and trailing whitespace.
fn trim_bounds(s: &[u8], from: usize, to: usize) -> (r: (usize, usize))
    requires
        from <= to <= s@.len(),
    ensures
        from <= r.0 <= r.1 <= to,
        trim(s@.subrange(from as int, to as int)) == s@.subrange(r.0 as int, r.1 as int),
{
    let mut i = from;
    let mut k = space_start(s, i, to);
    while k > 0
        invariant
            from <= i <= to <= s@.len(),
            k == space_len_at_start(s@.subrange(i as int, to as int)),
            k <= to - i,
            trim_start(s@.subrange(from as int, to as int)) == trim_start(
                s@.subrange(i as int, to as int),
            ),
        decreases to - i,
    {
        proof {
            assert(s@.subrange(i as int, to as int).skip(k as int) =~= s@.subrange(
                i + k,
                to as int,
            ));
        }
        i = i + k;
        k = space_start(s, i, to);
    }
    let mut j = to;
    let mut k = space_end(s, i, j);
    while k > 0
        invariant
            from <= i <= j <= to <= s@.len(),
            k == space_len_at_end(s@.subrange(i as int, j as int)),
            k <= j - i,
            trim_end(s@.subrange(i as int, to as int)) == trim_end(s@.subrange(i as int, j as int)),
        decreases j - i,
    {
        proof {
            assert(s@.subrange(i as int, j as int).take(j - i - k) =~= s@.subrange(
                i as int,
                j - k,
            ));
        }
        j = j - k;
        k = space_end(s, i, j);
    }
    (i, j)
}

/// Powers of ten grow with the exponent and are at least 1.
proof fn lemma_pow10_mono(a: nat, b: nat)
    requires
        a <= b,
    ensures
        1 <= pow10(a) <= pow10(b),
    decreases b,
{
    if b > a {
        lemma_pow10_mono(a, (b - 1) as nat);
    } else if a > 0 {
        lemma_pow10_mono((a - 1) as nat, (a - 1) as nat);
    }
}

/// Ten to the twentieth exceeds every `u64`.
proof fn lemma_pow10_beyond_u64()
    ensures
        pow10(20) > u64::MAX,
{
    reveal_with_fuel(pow10, 21);
}

/// What `n` digits write is below ten to the `n`.
proof fn lemma_digits_below(d: Seq<u8>)
    requires
        all_digits(d),
    ensures
        digits_value(d) < pow10(d.len()),
    decreases d.len(),
{
    if d.len() > 0 {
        let rest = d.drop_last();
        assert(all_digits(rest)) by {
            assert forall|i: int| 0 <= i < rest.len() implies is_digit(#[trigger] rest[i]) by {
                assert(rest[i] == d[i]);
            }
        }
        assert(is_digit(d[d.len() - 1]));
        lemma_digits_below(rest);
        let a = digits_value(rest);
        let p = pow10(rest.len());
        let c = (d.last() - 48) as nat;
        assert(a * 10 + c < 10 * p) by (nonlinear_arith)
            requires
                a < p,
                c < 10,
        ;
    }
}

/// Dropping the last `j` digits divides the value by ten to the `j`.
proof fn lemma_drop_digits(d: Seq<u8>, j: nat)
    requires
        all_digits(d),
        j <= d.len(),
    ensures
        digits_value(d) / pow10(j) == digits_value(d.take(d.len() - j)),
    decreases j,
{
    if j == 0 {
        assert(d.take(d.len() as int) =~= d);
        assert(pow10(0) == 1);
    } else {
        let rest = d.drop_last();
        assert(all_digits(rest)) by {
            assert forall|i: int| 0 <= i < rest.len() implies is_digit(#[trigger] rest[i]) by {
                assert(rest[i] == d[i]);
            }
        }
        assert(is_digit(d[d.len() - 1]));
        let a = digits_value(rest);
        let c = (d.last() - 48) as nat;
        let x = digits_value(d) as int;
        assert(x == a * 10 + c);
        assert((a * 10 + c) / 10 == a) by (nonlinear_arith)
            requires
                c < 10,
        ;
        let p = pow10((j - 1) as nat);
        lemma_pow10_mono(0, (j - 1) as nat);
        assert(pow10(j) == 10 * p);
        lemma_div_denominator(x, 10, p as int);
        assert(x / 10 == a);
        lemma_drop_digits(rest, (j - 1) as nat);
        assert(digits_value(d) / pow10(j) == a / p);
        assert(rest.take(rest.len() - (j - 1)) =~= d.take(d.len() - j));
    }
}

/// Past twenty places, any nonzero value exceeds every `u64`.
proof fn lemma_large_scale(m: nat, k: int)
    requires
        k >= 20,
    ensures
        capped(scaled(m, k)) == if m == 0 {
            0
        } else {
            u64::MAX
        },
{
    let p = pow10(k as nat);
    lemma_pow10_mono(20, k as nat);
    lemma_pow10_beyond_u64();
    if m > 0 {
        assert(m * p >= p) by (nonlinear_arith)
            requires
                m >= 1,
                p >= 1,
        ;
    }
}

/// Dividing by at least ten to the number of digits leaves nothing.
proof fn lemma_small_scale(m: nat, n: nat, k: int)
    requires
        m < pow10(n),
        -k >= n,
    ensures
        scaled(m, k) == 0,
{
    if k >= 0 {
        assert(pow10(0) == 1);
        assert(m == 0);
    } else {
        lemma_pow10_mono(n, (-k) as nat);
        lemma_basic_div(m as int, pow10((-k) as nat) as int);
    }
}

/// Holding a huge exponent at `len + 64` changes nothing once capped, for a
/// value of at most `len` digits with at most `len` fractional ones.
proof fn lemma_exponent_cap(m: nat, n: nat, f: nat, len: nat, neg: bool, e: nat)
    requires
        m < pow10(n),
        n <= len,
        f <= len,
    ensures
        capped(scaled(m, signed(neg, e) - f + 3)) == capped(
            scaled(m, signed(neg, min_nat(e, len + 64)) - f + 3),
        ),
{
    if e > len + 64 {
        if neg {
            lemma_small_scale(m, n, signed(neg, e) - f + 3);
            lemma_small_scale(m, n, signed(neg, (len + 64) as nat) - f + 3);
        } else {
            lemma_large_scale(m, signed(neg, e) - f + 3);
            lemma_large_scale(m, signed(neg, (len + 64) as nat) - f + 3);
        }
    }
}

/// The number that the digits `s[from..to]` write, held at `cap`.
fn sat_digits(s: &[u8], from: usize, to: usize, cap: u128) -> (r: u128)
    requires
        from <= to <= s@.len(),
        all_digits(s@.subrange(from as int, to as int)),
        cap <= 2 * BEYOND_U64,
    ensures
        r == min_nat(digits_value(s@.subrange(from as int, to as int)), cap as nat),
{
    let mut acc: u128 = 0;
    let mut i = from;
    while i < to
        invariant
            from <= i <= to <= s@.len(),
            all_digits(s@.subrange(from as int, to as int)),
            cap <= 2 * BEYOND_U64,
            acc == min_nat(digits_value(s@.subrange(from as int, i as int)), cap as nat),
        decreases to - i,
    {
        proof {
            assert(s@.subrange(from as int, i + 1).drop_last() =~= s@.subrange(from as int, i as int));
            assert(s@.subrange(from as int, to as int)[i - from] == s@[i as int]);
        }
        let d = (s[i] - 48) as u128;
        if acc < cap {
            let v = acc * 10 + d;
            acc = if v >= cap {
                cap
            } else {
                v
            };
        }
        i = i + 1;
    }
    acc
}

/// `digits_value(d) * 10^k`, rounded down and capped as a `u64`.
fn scaled_capped(d: &Vec<u8>, k: i128) -> (r: u64)
    requires
        all_digits(d@),
        k > i128::MIN,
    ensures
        r == capped(scaled(digits_value(d@), k as int)),
{
    let ghost m = digits_value(d@);
    proof {
        assert(d@.subrange(0, d@.len() as int) =~= d@);
    }
    if k >= 0 {
        let mut acc = sat_digits(d.as_slice(), 0, d.len(), BEYOND_U64);
        let mut i: i128 = 0;
        proof {
            assert(pow10(0) == 1);
            assert(m * pow10(0) == m);
        }
        while i < k && acc != 0 && acc < BEYOND_U64
            invariant
                0 <= i <= k,
                acc == min_nat(m * pow10(i as nat), BEYOND_U64 as nat),
            decreases k - i,
        {
            let ghost x = m * pow10(i as nat);
            proof {
                assert(pow10((i + 1) as nat) == 10 * pow10(i as nat));
                assert(m * pow10((i + 1) as nat) == x * 10) by (nonlinear_arith)
                    requires
                        pow10((i + 1) as nat) == 10 * pow10(i as nat),
                        x == m * pow10(i as nat),
                ;
            }
            let v = acc * 10;
            acc = if v >= BEYOND_U64 {
                BEYOND_U64
            } else {
                v
            };
            i = i + 1;
        }
        proof {
            if i < k {
                let p = pow10(i as nat);
                let q = pow10(k as nat);
                lemma_pow10_mono(i as nat, k as nat);
                if acc == 0 {
                    assert(m == 0) by (nonlinear_arith)
                        requires
                            m * p == 0,
                            p >= 1,
                    ;
                } else {
                    assert(m * q >= m * p) by (nonlinear_arith)
                        requires
                            q >= p,
                    ;
                }
            }
        }
        if acc >= BEYOND_U64 {
            u64::MAX
        } else {
            acc as u64
        }
    } else {
        let j = -k;
        proof {
            lemma_digits_below(d@);
        }
        if j >= d.len() as i128 {
            proof {
                lemma_small_scale(m, d@.len(), k as int);
            }
            0
        } else {
            let keep = d.len() - (j as usize);
            proof {
                lemma_drop_digits(d@, j as nat);
                assert(d@.subrange(0, keep as int) =~= d@.take(keep as int));
                assert forall|i: int| 0 <= i < keep implies is_digit(
                    #[trigger] d@.subrange(0, keep as int)[i],
                ) by {
                    assert(d@.subrange(0, keep as int)[i] == d@[i]);
                }
            }
            let acc = sat_digits(d.as_slice(), 0, keep, BEYOND_U64);
            if acc >= BEYOND_U64 {
                u64::MAX
            } else {
                acc as u64
            }
        }
    }
}

/// The end of the run of digits and dots that starts `s[from..to]`.
fn lead_end(s: &[u8], from: usize, to: usize) -> (r: usize)
    requires
        from <= to <= s@.len(),
    ensures
        from <= r <= to,
        r - from == lead_len(s@.subrange(from as int, to as int)),
{
    let mut i = from;
    while i < to && ((48 <= s[i] && s[i] <= 57) || s[i] == DOT)
        invariant
            from <= i <= to <= s@.len(),
            lead_len(s@.subrange(from as int, to as int)) == (i - from) + lead_len(
                s@.subrange(i as int, to as int),
            ),
        decreases to - i,
    {
        proof {
            assert(s@.subrange(i as int, to as int).drop_first() =~= s@.subrange(i + 1, to as int));
        }
        i = i + 1;
    }
    i
}

/// Whether `s[from..to]` spells `word` in any case.
fn word_at(s: &[u8], from: usize, to: usize, word: &[u8]) -> (r: bool)
    requires
        from <= to <= s@.len(),
    ensures
        r == is_word(s@.subrange(from as int, to as int), word@),
{
    let ghost t = s@.subrange(from as int, to as int);
    if to - from != word.len() {
        return false;
    }
    let mut i: usize = 0;
    while i < word.len()
        invariant
            word@.len() == to - from,
            from <= to <= s@.len(),
            i <= word@.len(),
            t == s@.subrange(from as int, to as int),
            forall|k: int| 0 <= k < i ==> lower(#[trigger] t[k]) == word@[k],
        decreases word@.len() - i,
    {
        let b = s[from + i];
        proof {
            assert(t[i as int] == b);
        }
        let lowered = if 65 <= b && b <= 90 {
            b + 32
        } else {
            b
        };
        if lowered != word[i] {
            return false;
        }
        i = i + 1;
    }
    true
}

/// The bytes `s[a..b]` followed by `s[c..d]`.
fn join(s: &[u8], a: usize, b: usize, c: usize, d: usize) -> (r: Vec<u8>)
    requires
        a <= b <= s@.len(),
        c <= d <= s@.len(),
    ensures
        r@ == s@.subrange(a as int, b as int) + s@.subrange(c as int, d as int),
{
    let mut r: Vec<u8> = Vec::new();
    let mut i = a;
    while i < b
        invariant
            a <= i <= b <= s@.len(),
            r@ == s@.subrange(a as int, i as int),
        decreases b - i,
    {
        r.push(s[i]);
        i = i + 1;
        proof {
            assert(r@ =~= s@.subrange(a as int, i as int));
        }
    }
    let mut i = c;
    while i < d
        invariant
            c <= i <= d <= s@.len(),
            a <= b <= s@.len(),
            r@ == s@.subrange(a as int, b as int) + s@.subrange(c as int, i as int),
        decreases d - i,
    {
        r.push(s[i]);
        i = i + 1;
        proof {
            assert(r@ =~= s@.subrange(a as int, b as int) + s@.subrange(c as int, i as int));
        }
    }
    r
}

/// Where the mantissa `s[start..lead]` splits: the end of its whole digits
/// and the start of its fractional ones.
fn split_mantissa(s: &[u8], start: usize, lead: usize) -> (r: (usize, usize))
    requires
        start <= lead <= s@.len(),
    ensures
        start <= r.0 <= r.1 <= lead,
        until(s@.subrange(start as int, lead as int), DOT) == s@.subrange(start as int, r.0 as int),
        match after(s@.subrange(start as int, lead as int), DOT) {
            Some(f) => f,
            None => Seq::<u8>::empty(),
        } == s@.subrange(r.1 as int, lead as int),
        r.0 == r.1 ==> r.0 == lead,
{
    let ghost mantissa = s@.subrange(start as int, lead as int);
    let dot = find(s, start, lead, DOT);
    let frac_from = if dot < lead {
        dot + 1
    } else {
        lead
    };
    proof {
        assert forall|k: int| 0 <= k < dot - start implies mantissa[k] != DOT by {
            assert(mantissa[k] == s@[k + start]);
        }
        lemma_split_at(mantissa, DOT, dot - start);
        assert(mantissa.take(dot - start) =~= s@.subrange(start as int, dot as int));
        if dot < lead {
            assert(mantissa.skip(dot - start + 1) =~= s@.subrange(frac_from as int, lead as int));
        } else {
            assert(s@.subrange(frac_from as int, lead as int) =~= Seq::<u8>::empty());
        }
    }
    (dot, frac_from)
}

/// Reads the exponent part `s[lead..to]` as [`exponent_of`] does: whether it
/// is negative and where its digits start.
fn parse_exponent(s: &[u8], lead: usize, to: usize) -> (r: Option<(bool, usize)>)
    requires
        lead <= to <= s@.len(),
    ensures
        match r {
            Some((neg, from)) => lead <= from <= to && all_digits(s@.subrange(from as int, to as int))
                && exponent_of(s@.subrange(lead as int, to as int)) == Some(
                signed(neg, digits_value(s@.subrange(from as int, to as int))),
            ),
            None => exponent_of(s@.subrange(lead as int, to as int)) is None,
        },
{
    let ghost rest = s@.subrange(lead as int, to as int);
    if lead == to {
        proof {
            assert(s@.subrange(to as int, to as int) =~= Seq::<u8>::empty());
        }
        return Some((false, to));
    }
    if s[lead] != 101 && s[lead] != 69 {
        return None;
    }
    let after_mark = lead + 1;
    let mut neg = false;
    let mut from = after_mark;
    if after_mark < to && (s[after_mark] == PLUS || s[after_mark] == MINUS) {
        neg = s[after_mark] == MINUS;
        from = after_mark + 1;
    }
    proof {
        assert(rest.drop_first() =~= s@.subrange(after_mark as int, to as int));
        if from > after_mark {
            assert(s@.subrange(after_mark as int, to as int).drop_first() =~= s@.subrange(
                from as int,
                to as int,
            ));
        }
    }
    if from == to || !all_digit_bytes(s, from, to) {
        return None;
    }
    Some((neg, from))
}

/// The unsigned number `s[start..to]` in thousandths, capped as a `u64`.
fn parse_number(s: &[u8], start: usize, to: usize) -> (r: Option<u64>)
    requires
        start <= to <= s@.len(),
    ensures
        r == match number_of(s@.subrange(start as int, to as int)) {
            Some(v) => Some(capped(v)),
            None => None::<u64>,
        },
{
    let ghost u = s@.subrange(start as int, to as int);
    let lead = lead_end(s, start, to);
    proof {
        assert(u.take(lead - start) =~= s@.subrange(start as int, lead as int));
        assert(u.skip(lead - start) =~= s@.subrange(lead as int, to as int));
    }
    let (dot, frac_from) = split_mantissa(s, start, lead);
    let (e_neg, digits_from) = match parse_exponent(s, lead, to) {
        Some(e) => e,
        None => {
            return None;
        },
    };
    if dot == start && frac_from == lead {
        return None;
    }
    if !all_digit_bytes(s, start, dot) || !all_digit_bytes(s, frac_from, lead) {
        return None;
    }
    let digits = join(s, start, dot, frac_from, lead);
    let len = (to - start) as u128;
    let e_mag = sat_digits(s, digits_from, to, len + 64);
    let f = (lead - frac_from) as i128;
    let k: i128 = (if e_neg {
        -(e_mag as i128)
    } else {
        e_mag as i128
    }) - f + 3;
    proof {
        let w = s@.subrange(start as int, dot as int);
        let g = s@.subrange(frac_from as int, lead as int);
        assert forall|i: int| 0 <= i < digits@.len() implies is_digit(#[trigger] digits@[i]) by {
            if i < w.len() {
                assert(digits@[i] == w[i]);
            } else {
                assert(digits@[i] == g[i - w.len()]);
            }
        }
        lemma_digits_below(digits@);
        lemma_exponent_cap(
            digits_value(digits@),
            digits@.len(),
            (lead - frac_from) as nat,
            len as nat,
            e_neg,
            digits_value(s@.subrange(digits_from as int, to as int)),
        );
    }
    Some(scaled_capped(&digits, k))
}

/// The number `s[from..to]` in thousandths as [`milli_of`] reads it.
fn parse_milli(s: &[u8], from: usize, to: usize) -> (r: Option<u64>)
    requires
        from <= to <= s@.len(),
    ensures
        r == milli_of(s@.subrange(from as int, to as int)),
{
    let ghost t = s@.subrange(from as int, to as int);
    let neg = from < to && s[from] == MINUS;
    let start = if from < to && (s[from] == PLUS || s[from] == MINUS) {
        from + 1
    } else {
        from
    };
    proof {
        if start > from {
            assert(t.drop_first() =~= s@.subrange(start as int, to as int));
        } else {
            assert(t =~= s@.subrange(start as int, to as int));
        }
    }
    let inf: Vec<u8> = vec![105, 110, 102];
    let infinity: Vec<u8> = vec![105, 110, 102, 105, 110, 105, 116, 121];
    let nan: Vec<u8> = vec![110, 97, 110];
    proof {
        assert(inf@ =~= inf_word());
        assert(infinity@ =~= infinity_word());
        assert(nan@ =~= nan_word());
    }
    if word_at(s, start, to, inf.as_slice()) || word_at(s, start, to, infinity.as_slice()) {
        return Some(
            if neg {
                0
            } else {
                u64::MAX
            },
        );
    }
    if word_at(s, start, to, nan.as_slice()) {
        return Some(0);
    }
    match parse_number(s, start, to) {
        Some(v) => Some(
            if neg {
                0
            } else {
                v
            },
        ),
        None => None,
    }
}

/// The GPU power draw and limit, in milliwatts, that the driver tool's
/// report gives (see [`power_of`]); `None` when its first line does not hold
/// two such numbers.
pub fn parse_nvidia_smi_output(output: &[u8]) -> (r: Option<NvidiaBundle>)
    ensures
        r == match power_of(output@) {
            Some((draw, limit)) => Some(NvidiaBundle { gpu_power_draw: draw, gpu_power_limit: limit }),
            None => None::<NvidiaBundle>,
        },
{
    let n = output.len();
    let line_end = find(output, 0, n, NEWLINE);
    let ghost line = output@.subrange(0, line_end as int);
    proof {
        lemma_split_at(output@, NEWLINE, line_end as int);
        assert(output@.take(line_end as int) =~= line);
    }
    let comma = find(output, 0, line_end, COMMA);
    proof {
        assert forall|k: int| 0 <= k < comma implies line[k] != COMMA by {
            assert(line[k] == output@[k]);
        }
        lemma_split_at(line, COMMA, comma as int);
        assert(line.take(comma as int) =~= output@.subrange(0, comma as int));
    }
    if comma == line_end {
        return None;
    }
    let second_end = find(output, comma + 1, line_end, COMMA);
    let ghost rest = output@.subrange(comma + 1, line_end as int);
    proof {
        assert(line.skip(comma + 1) =~= rest);
        assert forall|k: int| 0 <= k < second_end - comma - 1 implies rest[k] != COMMA by {
            assert(rest[k] == output@[k + comma + 1]);
        }
        if second_end < line_end {
            assert(rest[second_end - comma - 1] == output@[second_end as int]);
        }
        lemma_split_at(rest, COMMA, second_end - comma - 1);
        assert(rest.take(second_end - comma - 1) =~= output@.subrange(comma + 1, second_end as int));
    }
    let (a0, a1) = trim_bounds(output, 0, comma);
    let (b0, b1) = trim_bounds(output, comma + 1, second_end);
    match (parse_milli(output, a0, a1), parse_milli(output, b0, b1)) {
        (Some(draw), Some(limit)) => Some(NvidiaBundle { gpu_power_draw: draw, gpu_power_limit: limit }),
        _ => None,
    }
}

} // verus!
