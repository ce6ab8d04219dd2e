//! What a number written in a formula amounts to, read exactly.
//!
//! A number is spelled with digits, at most one point, and an optional
//! exponent. The parser needs two facts about one: whether it is a whole
//! number, and its whole part, so that `7` can be one end of a row range.
//! Both are decided on the exact decimal value, digit by digit.

use vstd::prelude::*;

use vstd::arithmetic::div_mod::{
    lemma_breakdown, lemma_div_by_multiple, lemma_div_denominator, lemma_fundamental_div_mod_converse,
    lemma_mod_multiples_basic,
};

use crate::coord::digits_end;
use crate::lexer::digit_run_end;
use crate::text::{ascii_digit, digits_value, is_ascii_digit};

verus! {

/// Ten to the power `n`.
pub open spec fn pow10(n: nat) -> nat
    decreases n,
{
    if n == 0 {
        1
    } else {
        10 * pow10((n - 1) as nat)
    }
}

/// Where the digits after the point start and stop; both are the end of
/// the integer digits when there is no point.
pub open spec fn fraction_range(sp: Seq<char>) -> (nat, nat) {
    let a = digits_end(sp, 0);
    if a < sp.len() && sp[a as int] == '.' {
        (a + 1, digits_end(sp, a + 1))
    } else {
        (a, a)
    }
}

/// Whether the exponent is negative, and where its digits start and stop.
/// An `e` with no digits after it (and its sign) is not an exponent.
pub open spec fn exponent_range(sp: Seq<char>) -> (bool, nat, nat) {
    let b = fraction_range(sp).1;
    if b < sp.len() && (sp[b as int] == 'e' || sp[b as int] == 'E') {
        let signed = b + 1 < sp.len() && (sp[b + 1int] == '+' || sp[b + 1int] == '-');
        let negative = b + 1 < sp.len() && sp[b + 1int] == '-';
        let la: nat = if signed {
            b + 2
        } else {
            b + 1
        };
        if la < sp.len() && is_ascii_digit(sp[la as int]) {
            (negative, la, digits_end(sp, la))
        } else {
            (false, b, b)
        }
    } else {
        (false, b, b)
    }
}

/// The digits of a number with its point taken out.
pub open spec fn mantissa_digits(sp: Seq<char>) -> Seq<char> {
    sp.take(digits_end(sp, 0) as int) + sp.subrange(
        fraction_range(sp).0 as int,
        fraction_range(sp).1 as int,
    )
}

/// The exponent as written, zero when there is none.
pub open spec fn exponent(sp: Seq<char>) -> int {
    let (negative, a, b) = exponent_range(sp);
    let v = digits_value(sp.subrange(a as int, b as int)) as int;
    if negative {
        -v
    } else {
        v
    }
}

/// The power of ten the mantissa is multiplied by: the exponent, less one
/// for every digit after the point.
pub open spec fn scale(sp: Seq<char>) -> int {
    exponent(sp) - (fraction_range(sp).1 - fraction_range(sp).0)
}

/// The whole part of the number a spelling denotes.
pub open spec fn floor_value(sp: Seq<char>) -> nat {
    let m = digits_value(mantissa_digits(sp));
    if scale(sp) >= 0 {
        m * pow10(scale(sp) as nat)
    } else {
        m / pow10((-scale(sp)) as nat)
    }
}

/// Whether the number a spelling denotes is a whole number.
pub open spec fn whole(sp: Seq<char>) -> bool {
    scale(sp) >= 0 || digits_value(mantissa_digits(sp)) % pow10((-scale(sp)) as nat) == 0
}

/// A whole part too large for a `u32` is held at `u32::MAX`.
pub open spec fn capped(n: nat) -> u32 {
    if n > u32::MAX {
        u32::MAX
    } else {
        n as u32
    }
}

// ---------------------------------------------------------------------------
// Facts about powers of ten and digit strings.

proof fn lemma_pow10_positive(n: nat)
    ensures
        pow10(n) >= 1,
    decreases n,
{
    if n > 0 {
        lemma_pow10_positive((n - 1) as nat);
    }
}

proof fn lemma_pow10_add(a: nat, b: nat)
    ensures
        pow10(a + b) == pow10(a) * pow10(b),
    decreases a,
{
    if a == 0 {
        assert(pow10(0) == 1);
        assert(a + b == b);
    } else {
        let a1 = (a - 1) as nat;
        lemma_pow10_add(a1, b);
        let x = pow10(a1);
        let y = pow10(b);
        assert(pow10(a) == 10 * x);
        let ab = (a + b) as nat;
        assert(ab > 0);
        assert(pow10(ab) == 10 * pow10((ab - 1) as nat));
        assert((ab - 1) as nat == a1 + b);
        assert(10 * (x * y) == (10 * x) * y) by (nonlinear_arith);
    }
}

proof fn lemma_pow10_monotone(a: nat, b: nat)
    requires
        a <= b,
    ensures
        pow10(a) <= pow10(b),
{
    lemma_pow10_add(a, (b - a) as nat);
    lemma_pow10_positive((b - a) as nat);
    lemma_pow10_positive(a);
    let x = pow10(a);
    let y = pow10((b - a) as nat);
    assert(x <= x * y) by (nonlinear_arith)
        requires
            y >= 1,
            x >= 1,
    ;
}

proof fn lemma_pow10_ten()
    ensures
        pow10(10) == 10000000000,
        pow10(11) == 100000000000,
{
    reveal_with_fuel(pow10, 12);
}

/// Every character is a decimal digit.
pub open spec fn all_digits(s: Seq<char>) -> bool {
    forall|i: int| 0 <= i < s.len() ==> is_ascii_digit(#[trigger] s[i])
}

proof fn lemma_digits_push(s: Seq<char>, c: char)
    ensures
        digits_value(s.push(c)) == digits_value(s) * 10 + ((c as u32) - 48) as nat,
{
    assert(s.push(c).drop_last() =~= s);
}

proof fn lemma_digits_concat(x: Seq<char>, y: Seq<char>)
    requires
        all_digits(y),
    ensures
        digits_value(x + y) == digits_value(x) * pow10(y.len()) + digits_value(y),
    decreases y.len(),
{
    if y.len() == 0 {
        assert(x + y =~= x);
        assert(pow10(0) == 1);
        assert(digits_value(y) == 0);
    } else {
        let y1 = y.drop_last();
        assert(digits_value(y) == digits_value(y1) * 10 + ((y.last() as u32) - 48) as nat);
        lemma_digits_concat(x, y1);
        assert((x + y).drop_last() =~= x + y1);
        assert((x + y).last() == y.last());
        assert(x + y != Seq::<char>::empty());
        assert(digits_value(x + y) == digits_value(x + y1) * 10 + (((x + y).last() as u32) - 48) as nat);
        assert(pow10(y.len()) == 10 * pow10(y1.len()));
        assert(is_ascii_digit(y.last()));
        let d = ((y.last() as u32) - 48) as nat;
        let dx = digits_value(x);
        let dy1 = digits_value(y1);
        let p = pow10(y1.len());
        assert((dx * p + dy1) * 10 + d == dx * (10 * p) + (dy1 * 10 + d)) by (nonlinear_arith);
    }
}

proof fn lemma_digits_bound(x: Seq<char>)
    requires
        all_digits(x),
    ensures
        digits_value(x) < pow10(x.len()),
    decreases x.len(),
{
    if x.len() > 0 {
        let x1 = x.drop_last();
        lemma_digits_bound(x1);
        assert(is_ascii_digit(x.last()));
        let d = ((x.last() as u32) - 48) as nat;
        let v = digits_value(x1);
        let p = pow10(x1.len());
        assert(v * 10 + d < 10 * p) by (nonlinear_arith)
            requires
                v < p,
                d <= 9,
        ;
    }
}

proof fn lemma_zeros_value(z: Seq<char>)
    requires
        forall|i: int| 0 <= i < z.len() ==> #[trigger] z[i] == '0',
    ensures
        digits_value(z) == 0,
    decreases z.len(),
{
    if z.len() > 0 {
        lemma_zeros_value(z.drop_last());
    }
}

proof fn lemma_leading_digit(x: Seq<char>)
    requires
        all_digits(x),
        x.len() > 0,
        x[0] != '0',
    ensures
        digits_value(x) >= pow10((x.len() - 1) as nat),
{
    let head = x.take(1);
    let rest = x.skip(1);
    assert(head + rest =~= x);
    lemma_digits_concat(head, rest);
    assert(head.drop_last() =~= Seq::<char>::empty());
    assert(head.last() == x[0]);
    assert(digits_value(head.drop_last()) == 0);
    assert(digits_value(head) == digits_value(head.drop_last()) * 10 + ((head.last() as u32) - 48) as nat);
    assert(digits_value(head) == ((x[0] as u32) - 48) as nat);
    assert(is_ascii_digit(x[0]));
    lemma_not_zero_char(x[0]);
    lemma_pow10_positive(rest.len());
    let h = digits_value(head);
    let p = pow10(rest.len());
    assert(h * p >= p) by (nonlinear_arith)
        requires
            h >= 1,
            p >= 1,
    ;
}

proof fn lemma_not_zero_char(c: char)
    requires
        c != '0',
    ensures
        (c as u32) != 48,
{
    vstd::utf8::char_u32_cast(c, c as u32);
    vstd::utf8::char_u32_cast('0', '0' as u32);
}

proof fn lemma_last_digit(x: Seq<char>)
    requires
        all_digits(x),
        x.len() > 0,
        x.last() != '0',
    ensures
        digits_value(x) % 10 != 0,
{
    let d = ((x.last() as u32) - 48) as int;
    let v = digits_value(x.drop_last()) as int;
    assert(is_ascii_digit(x[x.len() - 1]));
    lemma_not_zero_char(x.last());
    assert(digits_value(x) == v * 10 + d);
    lemma_fundamental_div_mod_converse(v * 10 + d, 10, v, d);
}

proof fn lemma_not_multiple(c: nat, d: nat)
    requires
        c % 10 != 0,
        d >= 1,
    ensures
        c % pow10(d) != 0,
{
    let q = pow10((d - 1) as nat);
    lemma_pow10_positive((d - 1) as nat);
    assert(pow10(d) == 10 * q);
    if c % pow10(d) == 0 {
        lemma_breakdown(c as int, 10, q as int);
        assert(c % 10 == 0) by (nonlinear_arith)
            requires
                c % (10 * q) == 0,
                c % (10 * q) == 10 * ((c / 10) % q) + c % 10,
                0 <= c % 10 < 10,
                0 <= (c / 10) % q,
        ;
    }
}

/// Dropping the last `d` digits divides by ten to the `d`.
proof fn lemma_drop_digits(x: Seq<char>, d: nat)
    requires
        all_digits(x),
        d <= x.len(),
    ensures
        digits_value(x) / pow10(d) == digits_value(x.take(x.len() - d)),
{
    let head = x.take(x.len() - d);
    let tail = x.skip(x.len() - d);
    assert(head + tail =~= x);
    assert(all_digits(tail));
    lemma_digits_concat(head, tail);
    lemma_digits_bound(tail);
    lemma_pow10_positive(d);
    lemma_fundamental_div_mod_converse(
        digits_value(x) as int,
        pow10(d) as int,
        digits_value(head) as int,
        digits_value(tail) as int,
    );
}

// ---------------------------------------------------------------------------
// Reading a spelling.

proof fn lemma_digit_run(s: Seq<char>, i: nat)
    ensures
        i <= digits_end(s, i),
        i <= s.len() ==> digits_end(s, i) <= s.len(),
        forall|k: int| i <= k < digits_end(s, i) ==> is_ascii_digit(#[trigger] s[k]),
    decreases s.len() - i,
{
    if i < s.len() && is_ascii_digit(s[i as int]) {
        lemma_digit_run(s, i + 1);
    }
}

/// The mantissa of a number `c * 10^k` read from its digits: `c` is what is
/// left between the leading and the trailing zeros, and `k` counts the
/// trailing zeros, less the digits after the point, plus the exponent.
pub open spec fn scaled_floor(c: nat, k: int) -> nat {
    if k >= 0 {
        c * pow10(k as nat)
    } else {
        c / pow10((-k) as nat)
    }
}

/// The answers for a number with a non-zero mantissa `core`, `tz` trailing
/// zeros after it, and scale `sc`.
proof fn lemma_answers(m: Seq<char>, lz: nat, q: nat, sc: int)
    requires
        all_digits(m),
        lz <= q < m.len(),
        forall|i: int| 0 <= i < lz ==> #[trigger] m[i] == '0',
        forall|i: int| q < i < m.len() ==> #[trigger] m[i] == '0',
        m[lz as int] != '0',
        m[q as int] != '0',
    ensures
        ({
            let c = digits_value(m.subrange(lz as int, q + 1int));
            let tz = m.len() - 1 - q;
            let k = tz + sc;
            let v = digits_value(m);
            &&& (if sc >= 0 {
                v * pow10(sc as nat)
            } else {
                v / pow10((-sc) as nat)
            }) == scaled_floor(c, k)
            &&& (sc >= 0 || v % pow10((-sc) as nat) == 0) == (k >= 0)
            &&& c >= pow10((q - lz) as nat)
            &&& c < pow10((q + 1 - lz) as nat)
            &&& c % 10 != 0
        }),
{
    let core = m.subrange(lz as int, q + 1int);
    let zeros = m.take(lz as int);
    let trail = m.skip(q + 1int);
    let tz = (m.len() - 1 - q) as nat;
    assert(zeros + core + trail =~= m);
    assert(all_digits(core));
    assert(all_digits(trail));
    lemma_zeros_value(zeros);
    assert forall|i: int| 0 <= i < trail.len() implies #[trigger] trail[i] == '0' by {
        assert(trail[i] == m[q + 1 + i]);
    }
    lemma_zeros_value(trail);
    lemma_digits_concat(zeros, core);
    lemma_digits_concat(zeros + core, trail);
    let c = digits_value(core);
    let v = digits_value(m);
    assert(trail.len() == tz);
    lemma_pow10_positive(core.len());
    assert(digits_value(zeros + core) == c);
    assert(v == c * pow10(tz));
    lemma_leading_digit(core);
    lemma_digits_bound(core);
    assert(core.last() == m[q as int]);
    lemma_last_digit(core);
    lemma_pow10_positive(tz);
    let k = tz + sc;
    if sc >= 0 {
        lemma_pow10_add(tz, sc as nat);
        let a = pow10(tz);
        let b = pow10(sc as nat);
        assert(c * a * b == c * (a * b)) by (nonlinear_arith);
        assert((tz + sc) as nat == tz + sc as nat);
    } else {
        let s2 = (-sc) as nat;
        lemma_pow10_positive(s2);
        if k >= 0 {
            let e = (tz - s2) as nat;
            lemma_pow10_add(e, s2);
            assert(tz == e + s2);
            let a = pow10(e);
            let b = pow10(s2);
            lemma_pow10_positive(e);
            assert(v == (c * a) * b) by (nonlinear_arith)
                requires
                    v == c * pow10(tz),
                    pow10(tz) == a * b,
            ;
            lemma_div_by_multiple((c * a) as int, b as int);
            lemma_mod_multiples_basic((c * a) as int, b as int);
        } else {
            let d = (s2 - tz) as nat;
            lemma_pow10_add(tz, d);
            assert(s2 == tz + d);
            let a = pow10(tz);
            let b = pow10(d);
            lemma_pow10_positive(d);
            // v / (a * b) == (v / a) / b == c / b
            lemma_div_denominator(v as int, a as int, b as int);
            assert(v == c * a);
            lemma_div_by_multiple(c as int, a as int);
            // v % (a * b) == a * ((v / a) % b) + v % a == a * (c % b)
            lemma_breakdown(v as int, a as int, b as int);
            lemma_mod_multiples_basic(c as int, a as int);
            lemma_not_multiple(c, d);
            assert(a * (c % b) != 0) by (nonlinear_arith)
                requires
                    a >= 1,
                    c % b != 0,
                    c % b >= 0,
            ;
            assert((-k) as nat == d);
        }
    }
}

fn digits_u64(m: &Vec<char>, from: usize, to: usize) -> (v: u64)
    requires
        from <= to <= m.len(),
        to - from <= 10,
        all_digits(m@),
    ensures
        v == digits_value(m@.subrange(from as int, to as int)),
{
    proof {
        lemma_pow10_ten();
    }
    let mut v: u64 = 0;
    let mut i = from;
    assert(m@.subrange(from as int, from as int) =~= Seq::<char>::empty());
    while i < to
        invariant
            from <= i <= to <= m.len(),
            to - from <= 10,
            all_digits(m@),
            pow10(10) == 10000000000,
            v == digits_value(m@.subrange(from as int, i as int)),
            v < pow10((i - from) as nat),
        decreases to - i,
    {
        let d = m[i];
        assert(is_ascii_digit(m@[i as int]));
        proof {
            lemma_digits_push(m@.subrange(from as int, i as int), d);
            assert(m@.subrange(from as int, i as int).push(d) =~= m@.subrange(from as int, i + 1));
            lemma_pow10_monotone((i + 1 - from) as nat, 10);
            assert(pow10((i + 1 - from) as nat) == 10 * pow10((i - from) as nat));
        }
        v = v * 10 + ((d as u32) - 48) as u64;
        i = i + 1;
    }
    v
}

/// A huge exponent: any larger one decides nothing differently.
pub open spec fn exponent_cap() -> nat {
    0x40_0000_0000_0000_0000
}

fn exponent_capped(sp: &Vec<char>, from: usize, to: usize) -> (v: u128)
    requires
        from <= to <= sp.len(),
        forall|k: int| from <= k < to ==> is_ascii_digit(#[trigger] sp@[k]),
    ensures
        v == if digits_value(sp@.subrange(from as int, to as int)) >= exponent_cap() {
            exponent_cap()
        } else {
            digits_value(sp@.subrange(from as int, to as int))
        },
{
    let cap: u128 = 0x40_0000_0000_0000_0000;
    let mut v: u128 = 0;
    let mut i = from;
    assert(sp@.subrange(from as int, from as int) =~= Seq::<char>::empty());
    while i < to
        invariant
            from <= i <= to <= sp.len(),
            forall|k: int| from <= k < to ==> is_ascii_digit(#[trigger] sp@[k]),
            cap == exponent_cap(),
            v == if digits_value(sp@.subrange(from as int, i as int)) >= exponent_cap() {
                exponent_cap()
            } else {
                digits_value(sp@.subrange(from as int, i as int))
            },
        decreases to - i,
    {
        let d = sp[i];
        assert(is_ascii_digit(sp@[i as int]));
        proof {
            lemma_digits_push(sp@.subrange(from as int, i as int), d);
            assert(sp@.subrange(from as int, i as int).push(d) =~= sp@.subrange(from as int, i + 1));
        }
        if v < cap {
            v = v * 10 + ((d as u32) - 48) as u128;
            if v > cap {
                v = cap;
            }
        }
        i = i + 1;
    }
    v
}

/// The answers for `c * 10^k` once `c`'s digits and `k` are known.
fn decide(m: &Vec<char>, lz: usize, q: usize, k: i128) -> (r: (bool, u32))
    requires
        all_digits(m@),
        lz <= q < m.len(),
        m[lz as int] != '0',
        -0x100_0000_0000_0000_0000 <= k <= 0x100_0000_0000_0000_0000,
        digits_value(m@.subrange(lz as int, q + 1)) >= pow10((q - lz) as nat),
        digits_value(m@.subrange(lz as int, q + 1)) < pow10((q + 1 - lz) as nat),
    ensures
        r.0 == (k >= 0),
        r.1 == capped(scaled_floor(digits_value(m@.subrange(lz as int, q + 1)), k as int)),
{
    let len = q + 1 - lz;
    let ghost c = digits_value(m@.subrange(lz as int, q + 1));
    proof {
        lemma_pow10_ten();
    }
    if k >= 0 {
        if (len as i128) + k > 10 {
            proof {
                let kk = k as nat;
                lemma_pow10_add((q - lz) as nat, kk);
                lemma_pow10_monotone(10, (q - lz + kk) as nat);
                let a = pow10((q - lz) as nat);
                let b = pow10(kk);
                assert(c * b >= a * b) by (nonlinear_arith)
                    requires
                        c >= a,
                ;
            }
            return (true, u32::MAX);
        }
        let v = digits_u64(m, lz, q + 1);
        let mut p: u64 = 1;
        let mut i: i128 = 0;
        while i < k
            invariant
                0 <= i <= k,
                (len as i128) + k <= 10,
                pow10(10) == 10000000000,
                p == pow10(i as nat),
            decreases k - i,
        {
            proof {
                lemma_pow10_monotone((i + 1) as nat, 10);
                assert(pow10((i + 1) as nat) == 10 * pow10(i as nat));
            }
            p = p * 10;
            i = i + 1;
        }
        proof {
            lemma_pow10_positive(k as nat);
            lemma_pow10_add(len as nat, k as nat);
            lemma_pow10_monotone((len + k) as nat, 10);
            let a = pow10(len as nat);
            assert(v * p < a * p) by (nonlinear_arith)
                requires
                    v < a,
                    p >= 1,
            ;
            lemma_pow10_positive(k as nat);
        }
        let w = v * p;
        if w > u32::MAX as u64 {
            (true, u32::MAX)
        } else {
            (true, w as u32)
        }
    } else {
        let d = 0 - k;
        if d >= len as i128 {
            proof {
                lemma_pow10_monotone(len as nat, d as nat);
                lemma_pow10_positive(d as nat);
                assert(c / pow10(d as nat) == 0) by {
                    vstd::arithmetic::div_mod::lemma_basic_div(c as int, pow10(d as nat) as int);
                }
            }
            return (false, 0);
        }
        let keep = len - (d as usize);
        proof {
            lemma_drop_digits(m@.subrange(lz as int, q + 1), d as nat);
            assert(m@.subrange(lz as int, q + 1).take(keep as int) =~= m@.subrange(
                lz as int,
                lz + keep,
            ));
        }
        if keep > 10 {
            proof {
                let prefix = m@.subrange(lz as int, lz + keep);
                assert(all_digits(prefix));
                assert(prefix[0] == m@[lz as int]);
                lemma_leading_digit(prefix);
                lemma_pow10_monotone(10, (keep - 1) as nat);
            }
            return (false, u32::MAX);
        }
        let v = digits_u64(m, lz, lz + keep);
        if v > u32::MAX as u64 {
            (false, u32::MAX)
        } else {
            (false, v as u32)
        }
    }
}

/// Where the parts of a spelling lie: the end of the integer digits, the
/// fraction digits, and the exponent's sign and digits.
fn layout(sp: &Vec<char>) -> (r: (usize, usize, usize, bool, usize, usize))
    ensures
        r.0 == digits_end(sp@, 0),
        (r.1 as nat, r.2 as nat) == fraction_range(sp@),
        (r.3, r.4 as nat, r.5 as nat) == exponent_range(sp@),
        r.0 <= r.1 <= r.2 <= sp.len(),
        r.4 <= r.5 <= sp.len(),
        forall|k: int| 0 <= k < r.0 ==> is_ascii_digit(#[trigger] sp@[k]),
        forall|k: int| r.1 <= k < r.2 ==> is_ascii_digit(#[trigger] sp@[k]),
        forall|k: int| r.4 <= k < r.5 ==> is_ascii_digit(#[trigger] sp@[k]),
{
    let n = sp.len();
    let a = digit_run_end(sp, 0);
    proof {
        lemma_digit_run(sp@, 0);
    }
    let (f0, f1) = if a < n && sp[a] == '.' {
        proof {
            lemma_digit_run(sp@, (a + 1) as nat);
        }
        (a + 1, digit_run_end(sp, a + 1))
    } else {
        (a, a)
    };
    let (negative, e0, e1) = if f1 < n && (sp[f1] == 'e' || sp[f1] == 'E') {
        let signed = f1 + 1 < n && (sp[f1 + 1] == '+' || sp[f1 + 1] == '-');
        let negative = f1 + 1 < n && sp[f1 + 1] == '-';
        let la = if signed {
            f1 + 2
        } else {
            f1 + 1
        };
        if la < n && ascii_digit(sp[la]) {
            proof {
                lemma_digit_run(sp@, la as nat);
            }
            (negative, la, digit_run_end(sp, la))
        } else {
            (false, f1, f1)
        }
    } else {
        (false, f1, f1)
    };
    (a, f0, f1, negative, e0, e1)
}

/// The mantissa's digits, without the point.
fn mantissa(sp: &Vec<char>, a: usize, f0: usize, f1: usize) -> (m: Vec<char>)
    requires
        a <= f0 <= f1 <= sp.len(),
        a == digits_end(sp@, 0),
        (f0 as nat, f1 as nat) == fraction_range(sp@),
        forall|k: int| 0 <= k < a ==> is_ascii_digit(#[trigger] sp@[k]),
        forall|k: int| f0 <= k < f1 ==> is_ascii_digit(#[trigger] sp@[k]),
    ensures
        m@ == mantissa_digits(sp@),
        all_digits(m@),
{
    let mut m: Vec<char> = Vec::new();
    let mut i: usize = 0;
    while i < a
        invariant
            i <= a <= sp.len(),
            m@ == sp@.take(i as int),
        decreases a - i,
    {
        m.push(sp[i]);
        i = i + 1;
        assert(m@ =~= sp@.take(i as int));
    }
    let mut j = f0;
    while j < f1
        invariant
            f0 <= j <= f1 <= sp.len(),
            m@ == sp@.take(a as int) + sp@.subrange(f0 as int, j as int),
        decreases f1 - j,
    {
        m.push(sp[j]);
        j = j + 1;
        assert(m@ =~= sp@.take(a as int) + sp@.subrange(f0 as int, j as int));
    }
    assert forall|k: int| 0 <= k < m@.len() implies is_ascii_digit(#[trigger] m@[k]) by {
        if k < a {
            assert(m@[k] == sp@[k]);
        } else {
            assert(m@[k] == sp@[f0 + (k - a)]);
        }
    }
    m
}

/// Where the first and the last non-zero digits are, if any digit is.
fn nonzero_span(m: &Vec<char>) -> (r: Option<(usize, usize)>)
    ensures
        r is None ==> forall|k: int| 0 <= k < m.len() ==> #[trigger] m@[k] == '0',
        r matches Some((lz, q)) ==> {
            &&& lz <= q < m.len()
            &&& forall|k: int| 0 <= k < lz ==> #[trigger] m@[k] == '0'
            &&& forall|k: int| q < k < m.len() ==> #[trigger] m@[k] == '0'
            &&& m@[lz as int] != '0'
            &&& m@[q as int] != '0'
        },
{
    let mut lz: usize = 0;
    while lz < m.len() && m[lz] == '0'
        invariant
            lz <= m.len(),
            forall|k: int| 0 <= k < lz ==> #[trigger] m@[k] == '0',
        decreases m.len() - lz,
    {
        lz = lz + 1;
    }
    if lz == m.len() {
        return None;
    }
    let mut q: usize = m.len() - 1;
    while m[q] == '0'
        invariant
            lz <= q < m.len(),
            m@[lz as int] != '0',
            forall|k: int| q < k < m.len() ==> #[trigger] m@[k] == '0',
        decreases q,
    {
        q = q - 1;
    }
    Some((lz, q))
}

/// A zero mantissa is zero whatever the scale, and a whole number.
proof fn lemma_zero_mantissa(sp: Seq<char>)
    requires
        digits_value(mantissa_digits(sp)) == 0,
    ensures
        whole(sp),
        floor_value(sp) == 0,
{
    let sc = scale(sp);
    if sc < 0 {
        lemma_pow10_positive((-sc) as nat);
        vstd::arithmetic::div_mod::lemma_small_mod(0, pow10((-sc) as nat));
        vstd::arithmetic::div_mod::lemma_basic_div(0, pow10((-sc) as nat) as int);
    }
}

/// Past the cap, the exponent decides nothing differently: both scales are
/// too large for a `u32`, or both small enough to leave nothing whole.
proof fn lemma_far_scales(c: nat, len: nat, k: int, k_true: int)
    requires
        c >= 1,
        c < pow10(len),
        len < 0x1_0000_0000_0000_0000,
        (k >= 11 && k_true >= 11) || (k <= -(len as int) && k_true <= -(len as int)),
    ensures
        (k >= 0) == (k_true >= 0),
        capped(scaled_floor(c, k)) == capped(scaled_floor(c, k_true)),
{
    lemma_pow10_ten();
    if k >= 11 {
        lemma_pow10_monotone(11, k as nat);
        lemma_pow10_monotone(11, k_true as nat);
        let pk = pow10(k as nat);
        let pt = pow10(k_true as nat);
        assert(c * pk >= pk && c * pt >= pt) by (nonlinear_arith)
            requires
                c >= 1,
                pk >= 1,
                pt >= 1,
        ;
    } else {
        lemma_pow10_monotone(len, (-k) as nat);
        lemma_pow10_monotone(len, (-k_true) as nat);
        vstd::arithmetic::div_mod::lemma_basic_div(c as int, pow10((-k) as nat) as int);
        vstd::arithmetic::div_mod::lemma_basic_div(c as int, pow10((-k_true) as nat) as int);
    }
}

/// Whether a spelling is a whole number, and its whole part held at
/// `u32::MAX`.
pub fn numeral(sp: &Vec<char>) -> (r: (bool, u32))
    ensures
        r.0 == whole(sp@),
        r.1 == capped(floor_value(sp@)),
{
    let (a, f0, f1, negative, e0, e1) = layout(sp);
    let m = mantissa(sp, a, f0, f1);
    let (lz, q) = match nonzero_span(&m) {
        None => {
            proof {
                lemma_zeros_value(m@);
                lemma_zero_mantissa(sp@);
            }
            return (true, 0);
        },
        Some(span) => span,
    };
    let tz = m.len() - 1 - q;
    let frac = f1 - f0;
    let ev = exponent_capped(sp, e0, e1);
    let base: i128 = (tz as i128) - (frac as i128);
    let k: i128 = if negative {
        base - (ev as i128)
    } else {
        base + (ev as i128)
    };
    let ghost sc = scale(sp@);
    let ghost c = digits_value(m@.subrange(lz as int, q + 1));
    proof {
        lemma_answers(m@, lz as nat, q as nat, sc);
        let ev_true = digits_value(sp@.subrange(e0 as int, e1 as int));
        let k_true = tz + sc;
        if ev_true < exponent_cap() {
            assert(k == k_true);
        } else {
            lemma_pow10_positive((q - lz) as nat);
            lemma_far_scales(c, (q + 1 - lz) as nat, k as int, k_true);
        }
    }
    decide(&m, lz, q, k)
}

} // verus!
