use vstd::prelude::*;
use vstd::arithmetic::div_mod::{lemma_div_is_ordered, lemma_div_pos_is_pos};
use vstd::string::StringSliceAdditionalSpecFns;
use vstd::utf8::{encode_utf8, is_ascii_chars_encode_utf8};

verus! {

/// Fixed-point unit: a stored integer `x` stands for `x / SCALE`.
pub const SCALE: u64 = 100_000_000;

/// Fractional digits that `SCALE` holds.
pub const SCALE_DIGITS: usize = 8;

/// Most significant digits a number may carry, before and after the point together.
pub const MAX_DIGITS: usize = 38;

/// Most digits an exponent may carry.
pub const MAX_EXP_DIGITS: usize = 4;

pub open spec fn pow10(k: nat) -> nat
    decreases k,
{
    if k == 0 {
        1
    } else {
        10 * pow10((k - 1) as nat)
    }
}

pub open spec fn is_digit(c: u8) -> bool {
    48 <= c <= 57
}

pub open spec fn all_digits(b: Seq<u8>) -> bool {
    forall|i: int| 0 <= i < b.len() ==> is_digit(#[trigger] b[i])
}

/// Value of a run of decimal digits, most significant first.
pub open spec fn digits_value(b: Seq<u8>) -> nat
    decreases b.len(),
{
    if b.len() == 0 {
        0
    } else {
        digits_value(b.drop_last()) * 10 + (b.last() - 48) as nat
    }
}

pub open spec fn is_exp_mark(c: u8) -> bool {
    c == 101 || c == 69
}

/// Length of a leading `+`: zero or one.
pub open spec fn lead(b: Seq<u8>) -> int {
    if b.len() > 0 && b[0] == 43 {
        1
    } else {
        0
    }
}

/// Index of the first `e` or `E` at or after `i`, or the length when there is none.
pub open spec fn exp_mark_from(b: Seq<u8>, i: int) -> int
    decreases b.len() - i,
{
    if i >= b.len() {
        b.len() as int
    } else if is_exp_mark(b[i]) {
        i
    } else {
        exp_mark_from(b, i + 1)
    }
}

/// Index of the first `.` in `[i, end)`, or `end` when there is none.
pub open spec fn dot_from(b: Seq<u8>, i: int, end: int) -> int
    decreases end - i,
{
    if i >= end {
        end
    } else if b[i] == 46 {
        i
    } else {
        dot_from(b, i + 1, end)
    }
}

/// Where the exponent marker stands (the length when there is none).
pub open spec fn mark(b: Seq<u8>) -> int {
    exp_mark_from(b, lead(b))
}

/// Where the decimal point stands in the mantissa (`mark(b)` when there is none).
pub open spec fn dot(b: Seq<u8>) -> int {
    dot_from(b, lead(b), mark(b))
}

/// The mantissa's digits before the point.
pub open spec fn int_digits(b: Seq<u8>) -> Seq<u8> {
    b.subrange(lead(b), dot(b))
}

/// The mantissa's digits after the point.
pub open spec fn frac_digits(b: Seq<u8>) -> Seq<u8> {
    if dot(b) < mark(b) {
        b.subrange(dot(b) + 1, mark(b))
    } else {
        Seq::empty()
    }
}

/// What follows the exponent marker.
pub open spec fn exp_text(b: Seq<u8>) -> Seq<u8> {
    if mark(b) < b.len() {
        b.subrange(mark(b) + 1, b.len() as int)
    } else {
        Seq::empty()
    }
}

/// Length of the exponent's sign: zero or one.
pub open spec fn exp_sign_len(b: Seq<u8>) -> int {
    let e = exp_text(b);
    if e.len() > 0 && (e[0] == 43 || e[0] == 45) {
        1
    } else {
        0
    }
}

pub open spec fn exp_digits(b: Seq<u8>) -> Seq<u8> {
    exp_text(b).skip(exp_sign_len(b))
}

/// The decimal exponent, zero when there is none.
pub open spec fn exponent(b: Seq<u8>) -> int {
    if exp_text(b).len() > 0 && exp_text(b)[0] == 45 {
        -digits_value(exp_digits(b))
    } else {
        digits_value(exp_digits(b)) as int
    }
}

/// A non-negative decimal in the usual notation: an optional `+`, digits with
/// at most one `.` (at least one digit, at most `MAX_DIGITS`), then optionally
/// `e` or `E`, an optional sign and one to `MAX_EXP_DIGITS` digits. A leading
/// `-` is refused: the fields it is read into are unsigned.
pub open spec fn decimal_ok(b: Seq<u8>) -> bool {
    &&& all_digits(int_digits(b))
    &&& all_digits(frac_digits(b))
    &&& int_digits(b).len() + frac_digits(b).len() >= 1
    &&& int_digits(b).len() + frac_digits(b).len() <= MAX_DIGITS
    &&& mark(b) < b.len() ==> {
        &&& all_digits(exp_digits(b))
        &&& 1 <= exp_digits(b).len() <= MAX_EXP_DIGITS
    }
}

/// The mantissa's digits read as one integer, the point left out.
pub open spec fn mantissa(b: Seq<u8>) -> nat {
    digits_value(int_digits(b)) * pow10(frac_digits(b).len()) + digits_value(frac_digits(b))
}

/// Power of ten that takes the mantissa onto the fixed-point grid.
pub open spec fn shift(b: Seq<u8>) -> int {
    SCALE_DIGITS + exponent(b) - frac_digits(b).len()
}

/// `m * 10^sh`, rounded toward zero.
pub open spec fn scaled(m: nat, sh: int) -> int {
    if sh >= 0 {
        (m * pow10(sh as nat)) as int
    } else {
        m as int / pow10((-sh) as nat) as int
    }
}

/// The value in units of `1 / SCALE`, rounded toward zero.
pub open spec fn decimal_fixed(b: Seq<u8>) -> int {
    scaled(mantissa(b), shift(b))
}

/// A decimal text read as a fixed-point `u64`: `None` when the text is no
/// decimal that `decimal_ok` accepts or the value does not fit.
pub open spec fn fixed_of(b: Seq<u8>) -> Option<u64> {
    if decimal_ok(b) && decimal_fixed(b) <= u64::MAX {
        Some(decimal_fixed(b) as u64)
    } else {
        None
    }
}

proof fn lemma_digits_value_bound(b: Seq<u8>)
    requires
        all_digits(b),
    ensures
        digits_value(b) < pow10(b.len()),
    decreases b.len(),
{
    if b.len() > 0 {
        assert(is_digit(b[b.len() - 1]));
        lemma_digits_value_bound(b.drop_last());
    }
}

proof fn lemma_pow10_le(k: nat, m: nat)
    requires
        k <= m,
    ensures
        1 <= pow10(k) <= pow10(m),
    decreases m,
{
    if m > k {
        lemma_pow10_le(k, (m - 1) as nat);
    } else if k > 0 {
        lemma_pow10_le((k - 1) as nat, (k - 1) as nat);
    }
}

proof fn lemma_pow10_add(a: nat, c: nat)
    ensures
        pow10(a + c) == pow10(a) * pow10(c),
    decreases c,
{
    if c > 0 {
        lemma_pow10_add(a, (c - 1) as nat);
        assert((a + c - 1) as nat == a + (c - 1) as nat);
        assert(pow10(a + c) == 10 * pow10((a + c - 1) as nat));
        assert(10 * (pow10(a) * pow10((c - 1) as nat)) == pow10(a) * (10 * pow10((c - 1) as nat)))
            by (nonlinear_arith);
    } else {
        assert(pow10(0) == 1);
        assert(a + c == a);
    }
}

proof fn lemma_pow10_38()
    ensures
        pow10(38) == 100_000_000_000_000_000_000_000_000_000_000_000_000,
{
    reveal_with_fuel(pow10, 39);
}

/// Reads the digits `b[from..to]`: `None` when one is no digit.
fn digits_run(b: &[u8], from: usize, to: usize) -> (r: Option<u128>)
    requires
        from <= to <= b@.len(),
        to - from <= MAX_DIGITS,
    ensures
        all_digits(b@.subrange(from as int, to as int)) <==> r is Some,
        r is Some ==> r->Some_0 == digits_value(b@.subrange(from as int, to as int)),
{
    let mut v: u128 = 0;
    let mut i: usize = from;
    while i < to
        invariant
            from <= i <= to <= b@.len(),
            to - from <= MAX_DIGITS,
            all_digits(b@.subrange(from as int, i as int)),
            v == digits_value(b@.subrange(from as int, i as int)),
        decreases to - i,
    {
        let c = b[i];
        let ghost run = b@.subrange(from as int, i as int + 1);
        assert(run.drop_last() =~= b@.subrange(from as int, i as int));
        if c < 48 || c > 57 {
            assert(!is_digit(b@.subrange(from as int, to as int)[i - from]));
            return None;
        }
        proof {
            lemma_digits_value_bound(b@.subrange(from as int, i as int));
            lemma_pow10_le((i - from) as nat, 37);
            lemma_pow10_le(37, 38);
            lemma_pow10_38();
        }
        v = v * 10 + (c - 48) as u128;
        i += 1;
        assert(all_digits(run));
    }
    Some(v)
}

/// `10^k` for `k <= MAX_DIGITS`.
fn power_of_ten(k: usize) -> (r: u128)
    requires
        k <= MAX_DIGITS,
    ensures
        r == pow10(k as nat),
{
    let mut p: u128 = 1;
    let mut i: usize = 0;
    while i < k
        invariant
            i <= k <= MAX_DIGITS,
            p == pow10(i as nat),
        decreases k - i,
    {
        proof {
            lemma_pow10_le(i as nat, 37);
            lemma_pow10_le(37, 38);
            lemma_pow10_38();
        }
        p = p * 10;
        i += 1;
    }
    p
}

/// `m * 10^sh` rounded toward zero, when it fits a `u64`.
fn scale_to_fixed(m: u128, sh: i64) -> (r: Option<u64>)
    requires
        m < pow10(38),
        -100_000 <= sh <= 100_000,
    ensures
        r == (if scaled(m as nat, sh as int) <= u64::MAX {
            Some(scaled(m as nat, sh as int) as u64)
        } else {
            None
        }),
{
    proof {
        lemma_pow10_38();
    }
    if sh >= 0 {
        let mut v: u128 = m;
        assert(pow10(0) == 1);
        assert(v == m * pow10(0));
        let mut i: i64 = 0;
        while i < sh
            invariant
                0 <= i <= sh,
                m < pow10(38),
                v == m * pow10(i as nat),
            decreases sh - i,
        {
            match v.checked_mul(10) {
                Some(w) => {
                    v = w;
                },
                None => {
                    proof {
                        lemma_pow10_le((i + 1) as nat, sh as nat);
                        assert(m * pow10((i + 1) as nat) <= m * pow10(sh as nat)) by (nonlinear_arith)
                            requires
                                pow10((i + 1) as nat) <= pow10(sh as nat),
                        ;
                        assert(pow10((i + 1) as nat) == 10 * pow10(i as nat));
                        assert(v * 10 == m * pow10((i + 1) as nat)) by (nonlinear_arith)
                            requires
                                v == m * pow10(i as nat),
                                pow10((i + 1) as nat) == 10 * pow10(i as nat),
                        ;
                    }
                    return None;
                },
            }
            proof {
                assert(v == m * pow10((i + 1) as nat)) by (nonlinear_arith)
                    requires
                        v == (m * pow10(i as nat)) * 10,
                        pow10((i + 1) as nat) == 10 * pow10(i as nat),
                ;
            }
            i += 1;
        }
        if v > u64::MAX as u128 {
            return None;
        }
        Some(v as u64)
    } else {
        let k = -sh;
        if k > MAX_DIGITS as i64 {
            proof {
                lemma_pow10_le(38, k as nat);
                assert(m < pow10(k as nat));
                vstd::arithmetic::div_mod::lemma_basic_div(m as int, pow10(k as nat) as int);
            }
            return Some(0);
        }
        let p = power_of_ten(k as usize);
        proof {
            lemma_pow10_le(k as nat, 38);
            lemma_div_pos_is_pos(m as int, p as int);
            lemma_div_is_ordered(m as int, 100_000_000_000_000_000_000_000_000_000_000_000_000, p as int);
        }
        let v = m / p;
        assert(scaled(m as nat, sh as int) == v);
        if v > u64::MAX as u128 {
            return None;
        }
        Some(v as u64)
    }
}

proof fn lemma_mantissa_bound(s: Seq<u8>)
    requires
        all_digits(int_digits(s)),
        all_digits(frac_digits(s)),
        int_digits(s).len() + frac_digits(s).len() <= MAX_DIGITS,
    ensures
        mantissa(s) < pow10(38),
        digits_value(int_digits(s)) * pow10(frac_digits(s).len()) < pow10(38),
{
    let i = int_digits(s).len();
    let f = frac_digits(s).len();
    let iv = digits_value(int_digits(s));
    let fv = digits_value(frac_digits(s));
    lemma_digits_value_bound(int_digits(s));
    lemma_digits_value_bound(frac_digits(s));
    lemma_pow10_add(i, f);
    lemma_pow10_le(i + f, 38);
    assert(iv * pow10(f) + fv < pow10(i) * pow10(f)) by (nonlinear_arith)
        requires
            iv < pow10(i),
            fv < pow10(f),
    ;
}

/// Reads the exponent that follows the marker at `x`; zero when there is none.
fn read_exponent(b: &[u8], x: usize) -> (r: Option<i64>)
    requires
        x == mark(b@),
        x <= b@.len(),
    ensures
        r is Some <==> (x < b@.len() ==> all_digits(exp_digits(b@)) && 1 <= exp_digits(b@).len() <= MAX_EXP_DIGITS),
        r is Some ==> r->Some_0 == exponent(b@) && -10_000 <= r->Some_0 <= 10_000,
{
    let ghost s = b@;
    let n = b.len();
    if x == n {
        assert(exp_digits(s) =~= Seq::<u8>::empty());
        return Some(0);
    }
    assert(exp_text(s) =~= s.subrange(x + 1, n as int));
    let sign_len: usize = if x + 1 < n && (b[x + 1] == 43 || b[x + 1] == 45) { 1 } else { 0 };
    let digits_start = x + 1 + sign_len;
    assert(exp_digits(s) =~= s.subrange(digits_start as int, n as int));
    if n - digits_start == 0 || n - digits_start > MAX_EXP_DIGITS {
        return None;
    }
    let magnitude = match digits_run(b, digits_start, n) {
        Some(v) => v,
        None => {
            return None;
        },
    };
    proof {
        lemma_digits_value_bound(exp_digits(s));
        lemma_pow10_le(exp_digits(s).len(), 4);
        reveal_with_fuel(pow10, 5);
    }
    if sign_len == 1 && b[x + 1] == 45 {
        Some(-(magnitude as i64))
    } else {
        Some(magnitude as i64)
    }
}

/// Reads a decimal text (such as `"27123.45"` or `"2.5e-3"`) as a fixed-point
/// value, dropping digits below `1 / SCALE`.
pub fn parse_fixed(text: &str) -> (r: Option<u64>)
    ensures
        r == fixed_of(text.spec_bytes()),
{
    let b = text.as_bytes();
    let ghost s = b@;
    let n = b.len();
    let start: usize = if n > 0 && b[0] == 43 { 1 } else { 0 };
    let mut x: usize = start;
    while x < n && b[x] != 101 && b[x] != 69
        invariant
            start <= x <= n == s.len(),
            s == b@,
            start == lead(s),
            exp_mark_from(s, x as int) == mark(s),
        decreases n - x,
    {
        x += 1;
    }
    let mut d: usize = start;
    while d < x && b[d] != 46
        invariant
            start <= d <= x <= n == s.len(),
            s == b@,
            start == lead(s),
            x == mark(s),
            dot_from(s, d as int, x as int) == dot(s),
        decreases x - d,
    {
        d += 1;
    }
    let frac_start = if d < x { d + 1 } else { x };
    assert(int_digits(s) =~= s.subrange(start as int, d as int));
    assert(frac_digits(s) =~= s.subrange(frac_start as int, x as int));
    let int_len = d - start;
    let frac_len = x - frac_start;
    if int_len + frac_len == 0 || int_len + frac_len > MAX_DIGITS {
        return None;
    }
    let int_value = match digits_run(b, start, d) {
        Some(v) => v,
        None => {
            return None;
        },
    };
    let frac_value = match digits_run(b, frac_start, x) {
        Some(v) => v,
        None => {
            return None;
        },
    };
    let exp = match read_exponent(b, x) {
        Some(v) => v,
        None => {
            return None;
        },
    };
    assert(decimal_ok(s));
    proof {
        lemma_mantissa_bound(s);
        lemma_pow10_le(frac_len as nat, 38);
        lemma_pow10_38();
    }
    let m: u128 = int_value * power_of_ten(frac_len) + frac_value;
    assert(m == mantissa(s));
    let sh: i64 = SCALE_DIGITS as i64 + exp - frac_len as i64;
    assert(sh == shift(s));
    assert(-10_000 <= exp <= 10_000);
    scale_to_fixed(m, sh)
}


/// Decimal digits of `n`, most significant first, without leading zeros.
pub open spec fn digits_of(n: nat) -> Seq<u8>
    decreases n,
{
    if n < 10 {
        seq![(48 + n) as u8]
    } else {
        digits_of(n / 10).push((48 + n % 10) as u8)
    }
}

/// The text `<digits>e-8` that writes the fixed-point value `x` back out.
pub open spec fn fixed_text(x: u64) -> Seq<u8> {
    digits_of(x as nat) + seq![101u8, 45u8, 56u8]
}

proof fn lemma_digits_of(n: nat, k: nat)
    requires
        n < pow10(k),
        k >= 1,
    ensures
        all_digits(digits_of(n)),
        digits_value(digits_of(n)) == n,
        1 <= digits_of(n).len() <= k,
    decreases n,
{
    if n >= 10 {
        assert(k >= 2) by {
            if k == 1 {
                reveal_with_fuel(pow10, 2);
            }
        }
        assert(pow10(k) == 10 * pow10((k - 1) as nat));
        assert(n / 10 < pow10((k - 1) as nat));
        lemma_digits_of(n / 10, (k - 1) as nat);
        let d = digits_of(n);
        assert(d.drop_last() =~= digits_of(n / 10));
        assert(d.last() == (48 + n % 10) as u8);
        assert(n == (n / 10) * 10 + n % 10);
        assert(digits_value(d) == digits_value(d.drop_last()) * 10 + (d.last() - 48) as nat);
        assert forall|i: int| 0 <= i < d.len() implies is_digit(#[trigger] d[i]) by {
            if i < d.len() - 1 {
                assert(d[i] == digits_of(n / 10)[i]);
            }
        }
    } else {
        let d = digits_of(n);
        assert(d.drop_last() =~= Seq::<u8>::empty());
        assert(d.last() == (48 + n) as u8);
        assert(digits_value(d) == digits_value(d.drop_last()) * 10 + (d.last() - 48) as nat);
        assert(digits_value(Seq::<u8>::empty()) == 0);
    }
}

proof fn lemma_no_mark_in_digits(b: Seq<u8>, d: int, i: int)
    requires
        0 <= i <= d < b.len(),
        is_exp_mark(b[d]),
        forall|j: int| 0 <= j < d ==> is_digit(#[trigger] b[j]),
    ensures
        exp_mark_from(b, i) == d,
        dot_from(b, i, d) == d,
    decreases d - i,
{
    if i < d {
        lemma_no_mark_in_digits(b, d, i + 1);
    }
}

/// Writing a fixed-point value out as `fixed_text` and reading it back gives
/// the value again.
pub proof fn lemma_fixed_text_round_trip(x: u64)
    ensures
        fixed_of(fixed_text(x)) == Some(x),
{
    reveal_with_fuel(pow10, 21);
    let d = digits_of(x as nat);
    lemma_digits_of(x as nat, 20);
    let b = fixed_text(x);
    let n = d.len() as int;
    assert(b[n] == 101u8);
    assert forall|j: int| 0 <= j < n implies is_digit(#[trigger] b[j]) by {
        assert(b[j] == d[j]);
    }
    assert(lead(b) == 0);
    lemma_no_mark_in_digits(b, n, 0);
    assert(int_digits(b) =~= d);
    assert(frac_digits(b) =~= Seq::<u8>::empty());
    assert(exp_text(b) =~= seq![45u8, 56u8]);
    assert(exp_digits(b) =~= seq![56u8]);
    assert(seq![56u8].drop_last() =~= Seq::<u8>::empty());
    assert(digits_value(seq![56u8]) == 8);
    assert(exponent(b) == -8);
    assert(shift(b) == 0);
    assert(is_digit(56u8));
    assert(all_digits(exp_digits(b)));
    assert(decimal_ok(b));
    assert(digits_value(Seq::<u8>::empty()) == 0);
    assert(pow10(0) == 1);
    assert(digits_value(int_digits(b)) == x);
    assert(mantissa(b) == x);
    assert(decimal_fixed(b) == x);
}


/// `fixed_text(x)` as characters.
pub open spec fn fixed_chars(x: u64) -> Seq<char> {
    Seq::new(fixed_text(x).len(), |i: int| fixed_text(x)[i] as char)
}

/// `fixed_chars(x)` encodes to the bytes `fixed_text(x)`, and reads back as `x`.
pub proof fn lemma_fixed_chars_round_trip(x: u64)
    ensures
        encode_utf8(fixed_chars(x)) == fixed_text(x),
        fixed_of(encode_utf8(fixed_chars(x))) == Some(x),
{
    let t = fixed_text(x);
    let c = fixed_chars(x);
    assert forall|i: int| 0 <= i < c.len() implies '\0' <= #[trigger] c[i] <= '\u{7f}' by {
        let v = t[i];
        assert(v < 128) by {
            assert(v == 101u8 || v == 45u8 || v == 56u8 || is_digit(v)) by {
                reveal_with_fuel(pow10, 21);
                lemma_digits_of(x as nat, 20);
                if i < digits_of(x as nat).len() {
                    assert(t[i] == digits_of(x as nat)[i]);
                }
            }
        }
    }
    is_ascii_chars_encode_utf8(c);
    assert forall|i: int| 0 <= i < c.len() implies encode_utf8(c)[i] == t[i] by {
        assert(c[i] as u8 == encode_utf8(c)[i]);
    }
    assert(encode_utf8(c) =~= t);
    lemma_fixed_text_round_trip(x);
}

} // verus!
