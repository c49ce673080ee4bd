//! When a decimal numeral is too large for an `f64`: a value at or above the point halfway
//! between the largest finite `f64` and the next power of two rounds to infinity.

use vstd::prelude::*;
use vstd::arithmetic::power2::{pow2, lemma2_to64, lemma2_to64_rest, lemma_pow2_adds, lemma_pow2_unfold};
use crate::text::{append_chars, sub_chars};
use crate::value::{
    all_digits, digit_char, digit_run_end, digits_value, int_value, is_decimal_text, is_digit,
    lemma_digit_run_end, nat_text, push_digits, run_end,
};

verus! {

/// Ten to the power `n`.
pub open spec fn pow10(n: nat) -> nat
    decreases n,
{
    if n == 0 {
        1
    } else {
        10 * pow10((n - 1) as nat)
    }
}

/// Powers of ten multiply by adding exponents.
pub proof fn lemma_pow10_adds(a: nat, b: nat)
    ensures
        pow10(a + b) == pow10(a) * pow10(b),
    decreases b,
{
    if b > 0 {
        let b1 = (b - 1) as nat;
        lemma_pow10_adds(a, b1);
        assert(pow10(a + b) == 10 * pow10(a + b1));
        assert(pow10(b) == 10 * pow10(b1));
        let x = pow10(a);
        let y = pow10(b1);
        assert(x * (10 * y) == 10 * (x * y)) by (nonlinear_arith);
        assert(pow10(a + b1) == x * y);
        assert(pow10(a + b) == 10 * (x * y));
        assert(pow10(a) * pow10(b) == x * (10 * y));
    } else {
        assert(pow10(0) == 1);
        assert(a + b == a);
    }
}

/// Powers of ten are positive.
pub proof fn lemma_pow10_pos(a: nat)
    ensures
        pow10(a) >= 1,
    decreases a,
{
    if a > 0 {
        lemma_pow10_pos((a - 1) as nat);
    }
}

/// Powers of ten grow with the exponent.
pub proof fn lemma_pow10_le(a: nat, b: nat)
    requires
        a <= b,
    ensures
        pow10(a) <= pow10(b),
    decreases b,
{
    if a < b {
        lemma_pow10_le(a, (b - 1) as nat);
    }
}

/// Digits placed after others shift them by a power of ten.
pub proof fn lemma_digits_value_concat(a: Seq<char>, b: Seq<char>)
    ensures
        digits_value(a + b) == digits_value(a) * pow10(b.len()) + digits_value(b),
    decreases b.len(),
{
    if b.len() == 0 {
        assert(a + b =~= a);
        assert(pow10(0) == 1);
        assert(digits_value(b) == 0);
    } else {
        let b1 = b.drop_last();
        lemma_digits_value_concat(a, b1);
        assert((a + b).drop_last() =~= a + b1);
        assert((a + b).last() == b.last());
        let x = digits_value(a);
        let p = pow10(b1.len());
        assert(digits_value(a + b) == digits_value(a + b1) * 10 + (b.last() as u32 - 48));
        assert(digits_value(b) == digits_value(b1) * 10 + (b.last() as u32 - 48));
        assert(pow10(b.len()) == 10 * p);
        assert(x * (10 * p) == (x * p) * 10) by (nonlinear_arith);
        assert(digits_value(a + b1) == x * p + digits_value(b1));
    }
}

/// Digits `s` write a number below ten to the power of their count.
pub proof fn lemma_digits_value_bound(s: Seq<char>)
    requires
        all_digits(s),
    ensures
        0 <= digits_value(s) < pow10(s.len()),
    decreases s.len(),
{
    if s.len() > 0 {
        let s1 = s.drop_last();
        assert(all_digits(s1)) by {
            assert forall|i: int| 0 <= i < s1.len() implies is_digit(s1[i]) by {
                assert(s1[i] == s[i]);
            }
        }
        lemma_digits_value_bound(s1);
        assert(is_digit(s[s.len() - 1]));
    }
}

/// Digits that do not start with `0` write a number of at least ten to the power of their
/// count less one.
pub proof fn lemma_digits_value_lower(s: Seq<char>)
    requires
        all_digits(s),
        s.len() > 0,
        s[0] as u32 != 48,
    ensures
        digits_value(s) >= pow10((s.len() - 1) as nat),
    decreases s.len(),
{
    if s.len() == 1 {
        assert(s.drop_last() =~= Seq::<char>::empty());
        assert(is_digit(s[0]));
        assert(digits_value(s.drop_last()) == 0);
        assert(digits_value(s) == digits_value(s.drop_last()) * 10 + (s[0] as u32 - 48));
        assert(pow10(0) == 1);
    } else {
        let s1 = s.drop_last();
        assert(all_digits(s1)) by {
            assert forall|i: int| 0 <= i < s1.len() implies is_digit(s1[i]) by {
                assert(s1[i] == s[i]);
            }
        }
        lemma_digits_value_lower(s1);
        assert(is_digit(s[s.len() - 1]));
        assert(pow10((s.len() - 1) as nat) == 10 * pow10((s1.len() - 1) as nat));
        assert(s1[0] == s[0]);
        assert(digits_value(s) == digits_value(s1) * 10 + (s[s.len() - 1] as u32 - 48));
    }
}

/// Zeros in front of digits leave their value alone.
pub proof fn lemma_leading_zeros(z: Seq<char>, d: Seq<char>)
    requires
        forall|i: int| 0 <= i < z.len() ==> z[i] as u32 == 48,
    ensures
        digits_value(z + d) == digits_value(d),
    decreases z.len(),
{
    lemma_digits_value_concat(z, d);
    lemma_zeros_value(z);
}

/// Zeros write zero.
proof fn lemma_zeros_value(z: Seq<char>)
    requires
        forall|i: int| 0 <= i < z.len() ==> z[i] as u32 == 48,
    ensures
        digits_value(z) == 0,
    decreases z.len(),
{
    if z.len() > 0 {
        lemma_zeros_value(z.drop_last());
    }
}


/// Of two digit strings of one length whose first `i` digits write the same number, the
/// one with the greater digit at `i` writes the greater number.
pub proof fn lemma_digits_value_lex(p: Seq<char>, q: Seq<char>, i: int)
    requires
        all_digits(p),
        all_digits(q),
        p.len() == q.len(),
        0 <= i < p.len(),
        digits_value(p.subrange(0, i)) == digits_value(q.subrange(0, i)),
        p[i] as u32 > q[i] as u32,
    ensures
        digits_value(p) > digits_value(q),
{
    let n = p.len() as int;
    let r = (n - i - 1) as nat;
    lemma_digits_value_concat(p.subrange(0, i + 1), p.subrange(i + 1, n));
    lemma_digits_value_concat(q.subrange(0, i + 1), q.subrange(i + 1, n));
    assert(p.subrange(0, i + 1) + p.subrange(i + 1, n) =~= p);
    assert(q.subrange(0, i + 1) + q.subrange(i + 1, n) =~= q);
    assert(p.subrange(0, i + 1).drop_last() =~= p.subrange(0, i));
    assert(q.subrange(0, i + 1).drop_last() =~= q.subrange(0, i));
    let tail_q = q.subrange(i + 1, n);
    assert(all_digits(tail_q)) by {
        assert forall|j: int| 0 <= j < tail_q.len() implies is_digit(tail_q[j]) by {
            assert(tail_q[j] == q[i + 1 + j]);
        }
    }
    let tail_p = p.subrange(i + 1, n);
    assert(all_digits(tail_p)) by {
        assert forall|j: int| 0 <= j < tail_p.len() implies is_digit(tail_p[j]) by {
            assert(tail_p[j] == p[i + 1 + j]);
        }
    }
    lemma_digits_value_bound(tail_q);
    lemma_digits_value_bound(tail_p);
    assert(is_digit(p[i]) && is_digit(q[i]));
    let pre = digits_value(p.subrange(0, i));
    let a = pre * 10 + (q[i] as u32 - 48);
    let b = pre * 10 + (p[i] as u32 - 48);
    assert(digits_value(q.subrange(0, i + 1)) == a);
    assert(digits_value(p.subrange(0, i + 1)) == b);
    let big = pow10(r);
    let x = digits_value(tail_q);
    let y = digits_value(tail_p);
    assert(a * big + x < b * big + y) by (nonlinear_arith)
        requires
            b >= a + 1,
            0 <= x < big,
            y >= 0,
    ;
}

/// Whether the number `mv * 10^e` reaches `bound`, for an integer `e` of either sign.
pub open spec fn reaches(mv: int, e: int, bound: int) -> bool {
    if e >= 0 {
        mv * pow10(e as nat) >= bound
    } else {
        mv >= bound * pow10((-e) as nat)
    }
}

/// A number below `10^(l + e)` does not reach a bound of at least `10^j` when `l + e <= j`.
pub proof fn lemma_reaches_small(mv: int, l: nat, e: int, j: nat, bound: int)
    requires
        0 <= mv < pow10(l),
        pow10(j) <= bound,
        l + e <= j,
    ensures
        !reaches(mv, e, bound),
{
    if e >= 0 {
        let en = e as nat;
        lemma_pow10_adds(l, en);
        lemma_pow10_le(l + en, j);
        lemma_pow10_pos(en);
        let p = pow10(l);
        let q = pow10(en);
        assert(mv * q < p * q) by (nonlinear_arith)
            requires
                0 <= mv < p,
                q >= 1,
        ;
    } else {
        let tn = (-e) as nat;
        lemma_pow10_adds(j, tn);
        lemma_pow10_le(l, j + tn);
        lemma_pow10_pos(tn);
        let p = pow10(j);
        let q = pow10(tn);
        assert(p * q <= bound * q) by (nonlinear_arith)
            requires
                p <= bound,
                q >= 1,
        ;
    }
}

/// A number of at least `10^(l - 1 + e)` reaches a bound below `10^m` when `l + e > m`.
pub proof fn lemma_reaches_large(mv: int, l: nat, e: int, m: nat, bound: int)
    requires
        l >= 1,
        mv >= pow10((l - 1) as nat),
        0 <= bound < pow10(m),
        l + e > m,
    ensures
        reaches(mv, e, bound),
{
    let l1 = (l - 1) as nat;
    if e >= 0 {
        let en = e as nat;
        lemma_pow10_adds(l1, en);
        lemma_pow10_le(m, l1 + en);
        lemma_pow10_pos(en);
        let p = pow10(l1);
        let q = pow10(en);
        assert(mv * q >= p * q) by (nonlinear_arith)
            requires
                mv >= p,
                q >= 1,
        ;
    } else {
        let tn = (-e) as nat;
        lemma_pow10_adds(m, tn);
        lemma_pow10_le(m + tn, l1);
        lemma_pow10_pos(tn);
        let p = pow10(m);
        let q = pow10(tn);
        assert(bound * q < p * q) by (nonlinear_arith)
            requires
                0 <= bound < p,
                q >= 1,
        ;
    }
}

/// `n` zero digits.
pub open spec fn zeros(n: nat) -> Seq<char> {
    Seq::new(n, |i: int| '0')
}

/// The first `m` digits of `d`, filled up with zeros where `d` is shorter.
pub open spec fn first_digits(d: Seq<char>, m: nat) -> Seq<char> {
    if d.len() >= m {
        d.subrange(0, m as int)
    } else {
        d + zeros((m - d.len()) as nat)
    }
}

/// When `d * 10^e` has exactly `m` digits before the point, it reaches an `m`-digit
/// integer bound exactly when its first `m` digits do.
pub proof fn lemma_reaches_exact(d: Seq<char>, e: int, m: nat, bound: int)
    requires
        all_digits(d),
        d.len() + e == m,
        bound >= 0,
    ensures
        reaches(digits_value(d), e, bound) == (digits_value(first_digits(d, m)) >= bound),
{
    let l = d.len();
    if l <= m {
        let zn = (m - l) as nat;
        let zs = zeros(zn);
        assert forall|i: int| 0 <= i < zs.len() implies zs[i] as u32 == 48 by {
            assert(zs[i] == '0');
        }
        lemma_zeros_value(zs);
        lemma_digits_value_concat(d, zs);
        assert(first_digits(d, m) == d + zs);
        assert(digits_value(first_digits(d, m)) == digits_value(d) * pow10(zn));
        assert(e as nat == zn);
    } else {
        let tn = (l - m) as nat;
        let head = d.subrange(0, m as int);
        let rest = d.subrange(m as int, l as int);
        assert(head + rest =~= d);
        lemma_digits_value_concat(head, rest);
        assert(all_digits(rest)) by {
            assert forall|j: int| 0 <= j < rest.len() implies is_digit(rest[j]) by {
                assert(rest[j] == d[m + j]);
            }
        }
        lemma_digits_value_bound(rest);
        let hv = digits_value(head);
        let rv = digits_value(rest);
        let q = pow10(tn);
        assert(rest.len() == tn);
        assert((hv * q + rv >= bound * q) == (hv >= bound)) by (nonlinear_arith)
            requires
                0 <= rv < q,
                q >= 1,
        ;
        assert(first_digits(d, m) == head);
        assert((-e) as nat == tn);
        assert(digits_value(d) == hv * q + rv);
    }
}


/// The decimal digits of a number write it, and start with a nonzero digit unless it is 0.
pub proof fn lemma_nat_text(n: nat)
    ensures
        all_digits(nat_text(n)),
        nat_text(n).len() >= 1,
        digits_value(nat_text(n)) == n,
        n > 0 ==> nat_text(n)[0] as u32 != 48,
    decreases n,
{
    if n < 10 {
        assert(nat_text(n) == seq![digit_char(n as int)]);
        assert(digit_char(n as int) as u32 == n + 48);
        assert(nat_text(n).drop_last() =~= Seq::<char>::empty());
        assert(nat_text(n).last() == digit_char(n as int));
        assert(digits_value(nat_text(n)) == digits_value(Seq::<char>::empty()) * 10 + (digit_char(
            n as int,
        ) as u32 - 48));
    } else {
        let t = nat_text(n / 10);
        lemma_nat_text(n / 10);
        let c = digit_char((n % 10) as int);
        assert(c as u32 == n % 10 + 48);
        assert(nat_text(n) == t.push(c));
        assert(t.push(c).drop_last() =~= t);
        assert(t.push(c).last() == c);
        assert(digits_value(t.push(c)) == digits_value(t) * 10 + (c as u32 - 48));
        assert((n / 10) * 10 + n % 10 == n);
        assert forall|i: int| 0 <= i < t.push(c).len() implies is_digit(t.push(c)[i]) by {
            if i < t.len() {
                assert(t.push(c)[i] == t[i]);
            }
        }
    }
}

/// `2^(10 j)` is at least `10^(3 j)`, as `1024 >= 1000`.
pub proof fn lemma_pow2_tens(j: nat)
    ensures
        pow2(10 * j) >= pow10(3 * j),
    decreases j,
{
    if j > 0 {
        let j1 = (j - 1) as nat;
        lemma_pow2_tens(j1);
        lemma_pow2_adds(10 * j1, 10);
        lemma_pow10_adds(3 * j1, 3);
        lemma2_to64();
        assert(10 * j1 + 10 == 10 * j);
        assert(3 * j1 + 3 == 3 * j);
        reveal_with_fuel(pow10, 4);
        let a = pow2(10 * j1);
        let b = pow10(3 * j1);
        assert(a * 1024 >= b * 1000) by (nonlinear_arith)
            requires
                a >= b,
                b >= 0,
        ;
    } else {
        lemma2_to64();
    }
}

/// The smallest magnitude that reads as an infinite `f64`: halfway between the largest
/// finite `f64`, `(2^53 - 1) * 2^971`, and `2^1024`. A tie rounds to the even mantissa,
/// which lies above.
pub open spec fn f64_overflow_bound() -> int {
    (pow2(54) - 1) * pow2(970)
}

/// The overflow bound has more than 291 digits.
pub proof fn lemma_overflow_bound_lower()
    ensures
        f64_overflow_bound() >= pow10(291),
{
    lemma_pow2_tens(97);
    lemma2_to64_rest();
    let p = pow2(970);
    assert((pow2(54) - 1) * p >= p) by (nonlinear_arith)
        requires
            pow2(54) - 1 >= 1,
            p >= 0,
    ;
}

/// The digits of `v` doubled, for digits that do not start with `0`.
fn double_digits(v: &Vec<char>) -> (r: Vec<char>)
    requires
        all_digits(v@),
        v.len() > 0,
        v@[0] as u32 != 48,
        v.len() < usize::MAX,
    ensures
        all_digits(r@),
        r.len() > 0,
        r@[0] as u32 != 48,
        r.len() <= v.len() + 1,
        digits_value(r@) == 2 * digits_value(v@),
{
    let n = v.len();
    let mut out: Vec<char> = Vec::new();
    let first = v[0] as u32;
    if first >= 53 {
        out.push('1');
        assert(out@.drop_last() =~= Seq::<char>::empty());
        assert('1' as u32 == 49);
    }
    assert(v@.subrange(0, 0) =~= Seq::<char>::empty());
    let mut i: usize = 0;
    while i < n
        invariant
            n == v.len(),
            all_digits(v@),
            v@[0] as u32 != 48,
            0 <= i <= n,
            all_digits(out@),
            out.len() == i + (if first >= 53 { 1int } else { 0int }),
            first == v@[0] as u32,
            out.len() > 0 ==> out@[0] as u32 != 48,
            digits_value(out@) == 2 * digits_value(v@.subrange(0, i as int)) + carry_at(v@, i as int),
        decreases n - i,
    {
        assert(is_digit(v@[i as int]));
        let d = v[i] as u32 - 48;
        let c: u32 = if i + 1 < n && v[i + 1] as u32 >= 53 {
            1
        } else {
            0
        };
        let twice = 2 * d + c;
        let digit = if twice >= 10 {
            twice - 10
        } else {
            twice
        };
        let ch = ((digit + 48) as u8) as char;
        assert(ch as u32 == digit + 48);
        let ghost before = out@;
        out.push(ch);
        proof {
            assert(out@.drop_last() =~= before);
            let pre = v@.subrange(0, i as int);
            assert(v@.subrange(0, i + 1).drop_last() =~= pre);
            assert(v@.subrange(0, i + 1).last() == v@[i as int]);
            assert forall|j: int| 0 <= j < out@.len() implies is_digit(out@[j]) by {
                if j < before.len() {
                    assert(out@[j] == before[j]);
                }
            }
            if before.len() > 0 {
                assert(out@[0] == before[0]);
            }
        }
        i += 1;
    }
    assert(v@.subrange(0, n as int) =~= v@);
    out
}

/// `1` where the digit of `v` at `i` is 5 or more (its double carries), else `0`.
pub open spec fn carry_at(v: Seq<char>, i: int) -> int {
    if 0 <= i < v.len() && v[i] as u32 >= 53 {
        1
    } else {
        0
    }
}

/// The decimal digits of `f64_overflow_bound()`.
fn overflow_digits() -> (r: Vec<char>)
    ensures
        all_digits(r@),
        r.len() > 0,
        r@[0] as u32 != 48,
        r.len() <= 1000,
        digits_value(r@) == f64_overflow_bound(),
{
    let mut v: Vec<char> = Vec::new();
    push_digits(&mut v, 18014398509481983);
    proof {
        assert(v@ =~= nat_text(18014398509481983));
        lemma_nat_text(18014398509481983);
        lemma2_to64_rest();
        reveal_with_fuel(pow10, 18);
        if v.len() > 17 {
            lemma_digits_value_lower(v@);
            lemma_pow10_le(17, (v.len() - 1) as nat);
        }
        lemma2_to64();
    }
    let mut i: usize = 0;
    while i < 970
        invariant
            0 <= i <= 970,
            all_digits(v@),
            v.len() > 0,
            v@[0] as u32 != 48,
            v.len() <= 17 + i,
            digits_value(v@) == (pow2(54) - 1) * pow2(i as nat),
        decreases 970 - i,
    {
        v = double_digits(&v);
        proof {
            lemma_pow2_unfold((i + 1) as nat);
            let a = pow2(54) - 1;
            let p = pow2(i as nat);
            assert(2 * (a * p) == a * (2 * p)) by (nonlinear_arith);
        }
        i += 1;
    }
    v
}


/// `b` has a decimal point right after its leading run of digits.
pub open spec fn has_point(b: Seq<char>) -> bool {
    let a = digit_run_end(b, 0);
    a < b.len() && b[a] == '.'
}

/// Where the digits of `b` before its exponent end.
pub open spec fn fraction_end(b: Seq<char>) -> int {
    if has_point(b) {
        digit_run_end(b, digit_run_end(b, 0) + 1)
    } else {
        digit_run_end(b, 0)
    }
}

/// The digits of `b` after its decimal point.
pub open spec fn fraction_digits(b: Seq<char>) -> Seq<char> {
    if has_point(b) {
        b.subrange(digit_run_end(b, 0) + 1, fraction_end(b))
    } else {
        Seq::empty()
    }
}

/// The digits of `b` before its exponent, without the decimal point.
pub open spec fn mantissa_digits(b: Seq<char>) -> Seq<char> {
    b.subrange(0, digit_run_end(b, 0)) + fraction_digits(b)
}

/// The exponent of `b`, or 0 where it has none.
pub open spec fn exponent_value(b: Seq<char>) -> int {
    let c = fraction_end(b);
    if c < b.len() {
        int_value(b.subrange(c + 1, b.len() as int))
    } else {
        0
    }
}

/// The unsigned decimal numeral `b`, its mantissa digits times ten to the power of its
/// exponent less its count of fraction digits, is too large for a finite `f64`.
pub open spec fn decimal_overflows(b: Seq<char>) -> bool {
    reaches(
        digits_value(mantissa_digits(b)),
        exponent_value(b) - fraction_digits(b).len(),
        f64_overflow_bound(),
    )
}

/// The magnitude at which the exponent is no longer followed exactly: `2^100`.
const EXPONENT_CAP: u128 = 1267650600228229401496703205376u128;

/// The sign and magnitude (at most `EXPONENT_CAP`) of the exponent of `b` after `c`.
fn exponent_of(b: &Vec<char>, c: usize) -> (r: (bool, u128))
    requires
        is_decimal_text(b@),
        c == fraction_end(b@),
    ensures
        r.1 <= EXPONENT_CAP,
        r.1 < EXPONENT_CAP ==> exponent_value(b@) == (if r.0 { -(r.1 as int) } else { r.1 as int }),
        r.1 == EXPONENT_CAP && r.0 ==> exponent_value(b@) <= -(EXPONENT_CAP as int),
        r.1 == EXPONENT_CAP && !r.0 ==> exponent_value(b@) >= EXPONENT_CAP as int,
{
    let n = b.len();
    proof {
        lemma_digit_run_end(b@, 0);
        if has_point(b@) {
            lemma_digit_run_end(b@, digit_run_end(b@, 0) + 1);
        }
    }
    if c >= n {
        return (false, 0);
    }
    let ghost x = b@.subrange(c + 1, n as int);
    let mut j = c + 1;
    let mut neg = false;
    if j < n && (b[j] == '+' || b[j] == '-') {
        neg = b[j] == '-';
        j += 1;
    }
    let j0 = j;
    proof {
        lemma_digit_run_end(b@, j0 as int);
    }
    let ghost u = b@.subrange(j0 as int, n as int);
    assert(all_digits(u)) by {
        assert forall|i: int| 0 <= i < u.len() implies is_digit(u[i]) by {
            assert(u[i] == b@[j0 + i]);
        }
    }
    proof {
        if j0 == c + 1 {
            assert(x =~= u);
            if x.len() > 0 {
                assert(x[0] == b@[c + 1]);
                assert(is_digit(x[0]));
            }
        } else {
            assert(x.drop_first() =~= u);
            assert(x[0] == b@[c + 1]);
        }
        assert(exponent_value(b@) == (if neg { -digits_value(u) } else { digits_value(u) }));
    }
    let mut mag: u128 = 0;
    assert(b@.subrange(j0 as int, j0 as int) =~= Seq::<char>::empty());
    while j < n
        invariant
            j0 <= j <= n == b.len(),
            all_digits(u),
            u == b@.subrange(j0 as int, n as int),
            mag <= EXPONENT_CAP,
            digits_value(b@.subrange(j0 as int, j as int)) >= 0,
            mag < EXPONENT_CAP ==> mag == digits_value(b@.subrange(j0 as int, j as int)),
            mag == EXPONENT_CAP ==> digits_value(b@.subrange(j0 as int, j as int)) >= EXPONENT_CAP,
        decreases n - j,
    {
        assert(u[j - j0] == b@[j as int]);
        assert(is_digit(b@[j as int]));
        let d = b[j] as u32 - 48;
        let ghost w = b@.subrange(j0 as int, j + 1);
        assert(w.drop_last() =~= b@.subrange(j0 as int, j as int));
        assert(w.last() == b@[j as int]);
        assert(digits_value(w) == digits_value(w.drop_last()) * 10 + d);
        if mag < EXPONENT_CAP {
            mag = mag * 10 + d as u128;
            if mag > EXPONENT_CAP {
                mag = EXPONENT_CAP;
            }
        }
        j += 1;
    }
    assert(b@.subrange(j0 as int, n as int) == u);
    (neg, mag)
}

/// The mantissa digits of `b`, and how many of them follow the decimal point.
fn mantissa_of(b: &Vec<char>) -> (r: (Vec<char>, usize, usize))
    requires
        is_decimal_text(b@),
    ensures
        r.0@ == mantissa_digits(b@),
        all_digits(r.0@),
        r.1 == fraction_digits(b@).len(),
        r.2 == fraction_end(b@),
{
    let n = b.len();
    let a = run_end(b, 0);
    proof {
        lemma_digit_run_end(b@, 0);
    }
    let dot = a < n && b[a] == '.';
    let c = if dot {
        run_end(b, a + 1)
    } else {
        a
    };
    proof {
        if dot {
            lemma_digit_run_end(b@, a + 1);
        }
    }
    let mut g = sub_chars(b, 0, a);
    let mut f_len: usize = 0;
    if dot {
        let fr = sub_chars(b, a + 1, c);
        append_chars(&mut g, &fr);
        f_len = c - a - 1;
    }
    let ghost mant = mantissa_digits(b@);
    assert(g@ =~= mant);
    assert(all_digits(mant)) by {
        assert forall|i: int| 0 <= i < mant.len() implies is_digit(mant[i]) by {
            if i < a {
                assert(mant[i] == b@[i]);
            } else {
                assert(mant[i] == b@[i + 1]);
            }
        }
    }
    (g, f_len, c)
}

/// Whether the first `t.len()` digits of `g` from `z` on, filled up with zeros, write a
/// number of at least what `t` writes.
fn first_digits_reach(g: &Vec<char>, z: usize, t: &Vec<char>) -> (r: bool)
    requires
        z <= g.len(),
        all_digits(g@),
        all_digits(t@),
    ensures
        r == (digits_value(first_digits(g@.subrange(z as int, g.len() as int), t.len() as nat))
            >= digits_value(t@)),
{
    let gl = g.len();
    let l = gl - z;
    let m = t.len();
    let ghost dd = g@.subrange(z as int, gl as int);
    let ghost pd = first_digits(dd, m as nat);
    proof {
        assert('0' as u32 == 48);
        assert(all_digits(pd)) by {
            assert forall|i: int| 0 <= i < pd.len() implies is_digit(pd[i]) by {
                if i < dd.len() {
                    assert(pd[i] == dd[i]);
                    assert(dd[i] == g@[z + i]);
                } else {
                    assert(pd[i] == '0');
                }
            }
        }
        assert(pd.subrange(0, 0) =~= Seq::<char>::empty());
        assert(t@.subrange(0, 0) =~= Seq::<char>::empty());
    }
    let mut i: usize = 0;
    while i < m
        invariant
            i <= m == t.len() == pd.len(),
            z <= gl == g.len(),
            l == gl - z,
            dd == g@.subrange(z as int, gl as int),
            pd == first_digits(dd, m as nat),
            all_digits(pd),
            all_digits(t@),
            digits_value(pd.subrange(0, i as int)) == digits_value(t@.subrange(0, i as int)),
        decreases m - i,
    {
        let pc: char = if i < l {
            g[z + i]
        } else {
            '0'
        };
        assert(pc == pd[i as int]);
        let pu = pc as u32;
        let tu = t[i] as u32;
        if pu != tu {
            proof {
                if pu > tu {
                    lemma_digits_value_lex(pd, t@, i as int);
                } else {
                    lemma_digits_value_lex(t@, pd, i as int);
                }
            }
            return pu > tu;
        }
        proof {
            let ps = pd.subrange(0, i + 1);
            let ts = t@.subrange(0, i + 1);
            assert(ps.drop_last() =~= pd.subrange(0, i as int));
            assert(ts.drop_last() =~= t@.subrange(0, i as int));
            assert(ps.last() == pd[i as int]);
            assert(ts.last() == t@[i as int]);
        }
        i += 1;
    }
    assert(pd.subrange(0, m as int) =~= pd);
    assert(t@.subrange(0, m as int) =~= t@);
    true
}

/// Nothing reaches a positive bound from zero.
proof fn lemma_zero_does_not_reach(e: int, bound: int)
    requires
        bound >= 1,
    ensures
        !reaches(0, e, bound),
{
    if e < 0 {
        let q = pow10((-e) as nat);
        lemma_pow10_pos((-e) as nat);
        assert(bound * q >= 1) by (nonlinear_arith)
            requires
                bound >= 1,
                q >= 1,
        ;
    }
}

/// Whether the unsigned decimal numeral `b` is too large for a finite `f64`.
pub fn too_large_for_f64(b: &Vec<char>) -> (r: bool)
    requires
        is_decimal_text(b@),
    ensures
        r == decimal_overflows(b@),
{
    let (g, f_len, c) = mantissa_of(b);
    let ghost e_true = exponent_value(b@) - fraction_digits(b@).len();
    let ghost bound = f64_overflow_bound();
    proof {
        lemma_overflow_bound_lower();
        lemma_pow10_pos(291);
    }
    // Leading zeros do not count.
    let gl = g.len();
    let mut z: usize = 0;
    while z < gl && g[z] as u32 == 48
        invariant
            z <= gl == g.len(),
            forall|i: int| 0 <= i < z ==> g@[i] as u32 == 48,
        decreases gl - z,
    {
        z += 1;
    }
    let ghost dd = g@.subrange(z as int, gl as int);
    proof {
        assert(g@.subrange(0, z as int) + dd =~= g@);
        lemma_leading_zeros(g@.subrange(0, z as int), dd);
        assert(all_digits(dd)) by {
            assert forall|i: int| 0 <= i < dd.len() implies is_digit(dd[i]) by {
                assert(dd[i] == g@[z + i]);
            }
        }
        lemma_digits_value_bound(dd);
    }
    let ghost mv = digits_value(dd);
    assert(decimal_overflows(b@) == reaches(mv, e_true, bound));
    if z == gl {
        proof {
            assert(dd.len() == 0);
            lemma_zero_does_not_reach(e_true, bound);
        }
        return false;
    }
    let l = gl - z;
    proof {
        assert(dd[0] == g@[z as int]);
        lemma_digits_value_lower(dd);
    }
    let (neg, mag) = exponent_of(b, c);
    let signed: i128 = if neg {
        0i128 - mag as i128
    } else {
        mag as i128
    };
    let k: i128 = l as i128 + signed - f_len as i128;
    let ghost k_true = l + e_true;
    assert(mag < EXPONENT_CAP ==> k == k_true);
    assert(mag == EXPONENT_CAP && neg ==> k_true <= k && k < -1000);
    assert(mag == EXPONENT_CAP && !neg ==> k_true >= k && k > 1000);
    if k <= 291 {
        proof {
            lemma_reaches_small(mv, l as nat, e_true, 291, bound);
        }
        return false;
    }
    let t = overflow_digits();
    let m = t.len();
    proof {
        lemma_digits_value_bound(t@);
        lemma_digits_value_lower(t@);
    }
    if k < m as i128 {
        proof {
            lemma_reaches_small(mv, l as nat, e_true, (m - 1) as nat, bound);
        }
        return false;
    }
    if k > m as i128 {
        proof {
            lemma_reaches_large(mv, l as nat, e_true, m as nat, bound);
        }
        return true;
    }
    proof {
        lemma_reaches_exact(dd, e_true, m as nat, bound);
    }
    first_digits_reach(&g, z, &t)
}

} // verus!
