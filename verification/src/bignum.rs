//! Unbounded natural numbers as vectors of decimal digits (least significant
//! first), with the few operations exact float rounding needs.

use vstd::prelude::*;
use crate::size::{pow10, power};

verus! {

/// The value of the digit vector `s`, least significant digit first.
pub open spec fn bn_val(s: Seq<u8>) -> nat
    decreases s.len(),
{
    if s.len() == 0 {
        0
    } else {
        bn_val(s.drop_last()) + (s.last() as nat) * pow10((s.len() - 1) as nat)
    }
}

/// Every element is a decimal digit.
pub open spec fn bn_ok(s: Seq<u8>) -> bool {
    forall|i: int| 0 <= i < s.len() ==> #[trigger] s[i] < 10
}

/// The digit of weight `10^j` (0 beyond the end).
pub open spec fn digit_at(s: Seq<u8>, j: int) -> nat {
    if 0 <= j < s.len() {
        s[j] as nat
    } else {
        0
    }
}

/// The value of the digits below weight `10^j`.
pub open spec fn bn_low(s: Seq<u8>, j: nat) -> nat {
    if j < s.len() {
        bn_val(s.take(j as int))
    } else {
        bn_val(s)
    }
}

pub proof fn lemma_pow10_pos(k: nat)
    ensures
        pow10(k) >= 1,
    decreases k,
{
    if k > 0 {
        lemma_pow10_pos((k - 1) as nat);
    }
}

pub proof fn lemma_pow10_add(a: nat, b: nat)
    ensures
        pow10(a + b) == pow10(a) * pow10(b),
    decreases b,
{
    if b == 0 {
        assert(pow10(0) == 1);
        assert(a + b == a);
    } else {
        lemma_pow10_add(a, (b - 1) as nat);
        assert(pow10(b) == 10 * pow10((b - 1) as nat));
        assert((a + b - 1) as nat == a + (b - 1) as nat);
        assert(pow10(a + b) == 10 * pow10((a + b - 1) as nat));
        assert(10 * (pow10(a) * pow10((b - 1) as nat)) == pow10(a) * (10 * pow10((b - 1) as nat)))
            by (nonlinear_arith);
    }
}

pub proof fn lemma_power2_add(a: nat, b: nat)
    ensures
        power(2, a + b) == power(2, a) * power(2, b),
    decreases b,
{
    if b == 0 {
        assert(power(2, 0) == 1);
        assert(a + b == a);
    } else {
        lemma_power2_add(a, (b - 1) as nat);
        assert(power(2, b) == 2 * power(2, (b - 1) as nat));
        assert((a + b - 1) as nat == a + (b - 1) as nat);
        assert(power(2, a + b) == 2 * power(2, (a + b - 1) as nat));
        assert(2 * (power(2, a) * power(2, (b - 1) as nat)) == power(2, a) * (2 * power(2, (b - 1) as nat)))
            by (nonlinear_arith);
    }
}

pub proof fn lemma_power2_pos(a: nat)
    ensures
        power(2, a) >= 1,
    decreases a,
{
    if a > 0 {
        lemma_power2_pos((a - 1) as nat);
    }
}

/// A digit vector is below ten to its length.
pub proof fn lemma_bn_bound(s: Seq<u8>)
    requires
        bn_ok(s),
    ensures
        bn_val(s) < pow10(s.len()),
    decreases s.len(),
{
    if s.len() > 0 {
        let p = s.drop_last();
        lemma_bn_bound(p);
        let k = (s.len() - 1) as nat;
        assert(s.last() < 10);
        assert(bn_val(p) + (s.last() as nat) * pow10(k) < 10 * pow10(k)) by (nonlinear_arith)
            requires
                bn_val(p) < pow10(k),
                s.last() < 10,
        ;
    }
}

pub proof fn lemma_bn_push(s: Seq<u8>, d: u8)
    ensures
        bn_val(s.push(d)) == bn_val(s) + (d as nat) * pow10(s.len()),
{
    assert(s.push(d).drop_last() =~= s);
}

pub proof fn lemma_low_step(s: Seq<u8>, j: nat)
    ensures
        bn_low(s, j + 1) == bn_low(s, j) + digit_at(s, j as int) * pow10(j),
        bn_low(s, 0) == 0,
{
    assert(s.take(0) =~= Seq::<u8>::empty());
    if j < s.len() {
        assert(s.take((j + 1) as int) =~= s.take(j as int).push(s[j as int]));
        lemma_bn_push(s.take(j as int), s[j as int]);
        if j + 1 == s.len() {
            assert(s.take((j + 1) as int) =~= s);
        }
    }
}

pub proof fn lemma_low_bound(s: Seq<u8>, j: nat)
    requires
        bn_ok(s),
    ensures
        bn_low(s, j) < pow10(j),
    decreases j,
{
    if j > 0 {
        lemma_low_bound(s, (j - 1) as nat);
        lemma_low_step(s, (j - 1) as nat);
        let k = (j - 1) as nat;
        assert(digit_at(s, k as int) < 10);
        assert(bn_low(s, k) + digit_at(s, k as int) * pow10(k) < 10 * pow10(k)) by (nonlinear_arith)
            requires
                bn_low(s, k) < pow10(k),
                digit_at(s, k as int) < 10,
        ;
    } else {
        lemma_low_step(s, 0);
    }
}

/// `a * k`.
pub fn bn_mul_small(a: &Vec<u8>, k: u64) -> (r: Vec<u8>)
    requires
        bn_ok(a@),
        k <= 0x1_0000_0000,
    ensures
        bn_ok(r@),
        bn_val(r@) == bn_val(a@) * k,
{
    let mut r: Vec<u8> = Vec::new();
    let mut carry: u64 = 0;
    let mut i: usize = 0;
    assert(a@.take(0) =~= Seq::<u8>::empty());
    assert(bn_val(a@.take(0)) == 0);
    assert(bn_val(r@) == 0);
    while i < a.len()
        invariant
            i <= a@.len(),
            bn_ok(a@),
            k <= 0x1_0000_0000,
            r@.len() == i,
            bn_ok(r@),
            bn_val(r@) + carry * pow10(i as nat) == k * bn_val(a@.take(i as int)),
            carry <= k,
        decreases a@.len() - i,
    {
        let d = a[i];
        assert(d < 10);
        assert(d as u64 * k + carry <= 10 * k) by (nonlinear_arith)
            requires
                d < 10,
                carry <= k,
        ;
        let t: u64 = d as u64 * k + carry;
        let ghost old_r = r@;
        r.push((t % 10) as u8);
        proof {
            lemma_bn_push(old_r, (t % 10) as u8);
            assert(a@.take(i + 1) =~= a@.take(i as int).push(d));
            lemma_bn_push(a@.take(i as int), d);
            let p = pow10(i as nat);
            assert(pow10((i + 1) as nat) == 10 * p);
            assert(bn_val(old_r) + (t % 10) * p + (t / 10) * (10 * p) == k * (bn_val(a@.take(i as int))
                + d * p)) by (nonlinear_arith)
                requires
                    bn_val(old_r) + carry * p == k * bn_val(a@.take(i as int)),
                    t == d * k + carry,
                    t == (t / 10) * 10 + t % 10,
            ;
            assert((t / 10) <= k) by (nonlinear_arith)
                requires
                    t <= 10 * k,
            ;
        }
        carry = t / 10;
        i = i + 1;
    }
    assert(a@.take(a@.len() as int) =~= a@);
    while carry > 0
        invariant
            bn_ok(r@),
            bn_val(r@) + carry * pow10(r@.len()) == k * bn_val(a@),
        decreases carry,
    {
        let ghost old_r = r@;
        r.push((carry % 10) as u8);
        proof {
            lemma_bn_push(old_r, (carry % 10) as u8);
            let p = pow10(old_r.len());
            assert(pow10(old_r.len() + 1) == 10 * p);
            assert((carry % 10) * p + (carry / 10) * (10 * p) == carry * p) by (nonlinear_arith)
                requires
                    carry == (carry / 10) * 10 + carry % 10,
            ;
        }
        carry = carry / 10;
    }
    assert(carry * pow10(r@.len()) == 0) by (nonlinear_arith)
        requires
            carry == 0,
    ;
    assert(k * bn_val(a@) == bn_val(a@) * k) by (nonlinear_arith);
    r
}

/// `a * 2^e`.
pub fn bn_mul_pow2(a: &Vec<u8>, e: u32) -> (r: Vec<u8>)
    requires
        bn_ok(a@),
    ensures
        bn_ok(r@),
        bn_val(r@) == bn_val(a@) * power(2, e as nat),
{
    let mut r = bn_mul_small(a, 1);
    let mut left: u32 = e;
    proof {
        reveal_with_fuel(power, 1);
    }
    while left > 0
        invariant
            left <= e,
            bn_ok(r@),
            bn_val(r@) * power(2, left as nat) == bn_val(a@) * power(2, e as nat),
        decreases left,
    {
        let step: u32 = if left >= 32 { 32 } else { left };
        let f: u64 = 1u64 << step;
        proof {
            lemma_shift_is_power(step);
            lemma_power2_add(step as nat, (left - step) as nat);
            assert(bn_val(r@) * f * power(2, (left - step) as nat) == bn_val(r@) * power(2, left as nat))
                by (nonlinear_arith)
                requires
                    power(2, left as nat) == f * power(2, (left - step) as nat),
            ;
        }
        r = bn_mul_small(&r, f);
        left = left - step;
    }
    assert(power(2, 0) == 1);
    assert(bn_val(r@) * power(2, 0) == bn_val(r@)) by (nonlinear_arith)
        requires
            power(2, 0) == 1,
    ;
    r
}

proof fn lemma_shift_is_power(step: u32)
    requires
        step <= 32,
    ensures
        (1u64 << step) == power(2, step as nat),
        power(2, step as nat) <= 0x1_0000_0000,
    decreases step,
{
    reveal_with_fuel(power, 1);
    assert((1u64 << step) <= 0x1_0000_0000) by (bit_vector)
        requires
            step <= 32,
    ;
    if step > 0 {
        lemma_shift_is_power((step - 1) as u32);
        assert((1u64 << step) == 2 * (1u64 << ((step - 1) as u32))) by (bit_vector)
            requires
                1 <= step <= 32,
        ;
        assert(power(2, step as nat) == 2 * power(2, (step - 1) as nat));
    } else {
        assert((1u64 << 0u32) == 1) by (bit_vector);
        assert(power(2, 0) == 1);
    }
}

/// `k` zero digits.
pub open spec fn zeros(k: nat) -> Seq<u8> {
    Seq::new(k, |i: int| 0u8)
}

/// `a * 10^k`.
pub fn bn_shift10(a: &Vec<u8>, k: usize) -> (r: Vec<u8>)
    requires
        bn_ok(a@),
    ensures
        bn_ok(r@),
        bn_val(r@) == bn_val(a@) * pow10(k as nat),
{
    let mut r: Vec<u8> = Vec::new();
    let mut j: usize = 0;
    while j < k
        invariant
            j <= k,
            r@.len() == j,
            bn_ok(r@),
            bn_val(r@) == 0,
        decreases k - j,
    {
        let ghost old_r = r@;
        r.push(0);
        proof {
            lemma_bn_push(old_r, 0);
        }
        j = j + 1;
    }
    let mut i: usize = 0;
    assert(a@.take(0) =~= Seq::<u8>::empty());
    while i < a.len()
        invariant
            i <= a@.len(),
            bn_ok(a@),
            r@.len() == k + i,
            bn_ok(r@),
            bn_val(r@) == bn_val(a@.take(i as int)) * pow10(k as nat),
        decreases a@.len() - i,
    {
        let d = a[i];
        let ghost old_r = r@;
        r.push(d);
        proof {
            lemma_bn_push(old_r, d);
            assert(a@.take(i + 1) =~= a@.take(i as int).push(d));
            lemma_bn_push(a@.take(i as int), d);
            lemma_pow10_add(k as nat, i as nat);
            assert((bn_val(a@.take(i as int)) + d * pow10(i as nat)) * pow10(k as nat) == bn_val(
                a@.take(i as int),
            ) * pow10(k as nat) + d * (pow10(k as nat) * pow10(i as nat))) by (nonlinear_arith);
        }
        i = i + 1;
    }
    assert(a@.take(a@.len() as int) =~= a@);
    r
}

/// The digits of `x`.
pub fn bn_from_u128(x: u128) -> (r: Vec<u8>)
    ensures
        bn_ok(r@),
        bn_val(r@) == x,
{
    let mut r: Vec<u8> = Vec::new();
    let mut y = x;
    assert(pow10(0) == 1);
    assert(bn_val(r@) == 0);
    while y > 0
        invariant
            bn_ok(r@),
            bn_val(r@) + y * pow10(r@.len()) == x,
        decreases y,
    {
        let ghost old_r = r@;
        r.push((y % 10) as u8);
        proof {
            lemma_bn_push(old_r, (y % 10) as u8);
            let p = pow10(old_r.len());
            assert(pow10(old_r.len() + 1) == 10 * p);
            assert((y % 10) * p + (y / 10) * (10 * p) == y * p) by (nonlinear_arith)
                requires
                    y == (y / 10) * 10 + y % 10,
            ;
        }
        y = y / 10;
    }
    r
}

/// Whether `a` is zero.
pub fn bn_is_zero(a: &Vec<u8>) -> (z: bool)
    requires
        bn_ok(a@),
    ensures
        z == (bn_val(a@) == 0),
{
    let mut i: usize = 0;
    assert(a@.take(0) =~= Seq::<u8>::empty());
    while i < a.len()
        invariant
            i <= a@.len(),
            bn_val(a@.take(i as int)) == 0,
            bn_ok(a@),
        decreases a@.len() - i,
    {
        proof {
            assert(a@.take(i + 1) =~= a@.take(i as int).push(a@[i as int]));
            lemma_bn_push(a@.take(i as int), a@[i as int]);
            lemma_pow10_pos(i as nat);
        }
        if a[i] != 0 {
            proof {
                lemma_low_step(a@, i as nat);
                assert(bn_low(a@, (i + 1) as nat) > 0) by (nonlinear_arith)
                    requires
                        bn_low(a@, (i + 1) as nat) == bn_low(a@, i as nat) + digit_at(a@, i as int)
                            * pow10(i as nat),
                        digit_at(a@, i as int) >= 1,
                        pow10(i as nat) >= 1,
                ;
                lemma_low_le_val(a@, (i + 1) as nat);
            }
            return false;
        }
        proof {
            let x = a@[i as int] as nat;
            assert(x == 0);
            assert(x * pow10(i as nat) == 0) by (nonlinear_arith)
                requires
                    x == 0,
            ;
            assert(bn_val(a@.take(i + 1)) == bn_val(a@.take(i as int)) + x * pow10(i as nat));
        }
        i = i + 1;
    }
    assert(a@.take(a@.len() as int) =~= a@);
    true
}

/// The low part never exceeds the whole.
pub proof fn lemma_low_le_val(s: Seq<u8>, j: nat)
    ensures
        bn_low(s, j) <= bn_val(s),
    decreases s.len(),
{
    if j < s.len() {
        let p = s.drop_last();
        assert(s.take(j as int) =~= p.take(j as int) || j == p.len());
        if j == p.len() {
            assert(s.take(j as int) =~= p);
        } else {
            assert(s.take(j as int) =~= p.take(j as int));
            lemma_low_le_val(p, j);
        }
    }
}

/// Compares `a` and `b`: negative, zero or positive as `a` is below, equal to
/// or above `b`.
pub fn bn_compare(a: &Vec<u8>, b: &Vec<u8>) -> (c: i8)
    requires
        bn_ok(a@),
        bn_ok(b@),
    ensures
        (c < 0) == (bn_val(a@) < bn_val(b@)),
        (c == 0) == (bn_val(a@) == bn_val(b@)),
{
    let n: usize = if a.len() > b.len() { a.len() } else { b.len() };
    let mut i: usize = n;
    assert(bn_low(a@, n as nat) == bn_val(a@));
    assert(bn_low(b@, n as nat) == bn_val(b@));
    while i > 0
        invariant
            i <= n,
            n >= a@.len(),
            n >= b@.len(),
            bn_ok(a@),
            bn_ok(b@),
            bn_val(a@) - bn_low(a@, i as nat) == bn_val(b@) - bn_low(b@, i as nat),
        decreases i,
    {
        let j = i - 1;
        let da: u8 = if j < a.len() { a[j] } else { 0 };
        let db: u8 = if j < b.len() { b[j] } else { 0 };
        proof {
            lemma_low_step(a@, j as nat);
            lemma_low_step(b@, j as nat);
            assert(digit_at(a@, j as int) == da);
            assert(digit_at(b@, j as int) == db);
        }
        if da != db {
            proof {
                lemma_low_bound(a@, j as nat);
                lemma_low_bound(b@, j as nat);
                let p = pow10(j as nat);
                let la = bn_low(a@, j as nat);
                let lb = bn_low(b@, j as nat);
                if da < db {
                    assert(la + da * p < lb + db * p) by (nonlinear_arith)
                        requires
                            la < p,
                            lb >= 0,
                            da < db,
                    ;
                } else {
                    assert(lb + db * p < la + da * p) by (nonlinear_arith)
                        requires
                            lb < p,
                            la >= 0,
                            db < da,
                    ;
                }
            }
            return if da < db { -1 } else { 1 };
        }
        i = j;
    }
    proof {
        lemma_low_step(a@, 0);
        lemma_low_step(b@, 0);
    }
    0
}

/// `a - b`, for `a >= b`.
pub fn bn_sub(a: &Vec<u8>, b: &Vec<u8>) -> (r: Vec<u8>)
    requires
        bn_ok(a@),
        bn_ok(b@),
        bn_val(a@) >= bn_val(b@),
    ensures
        bn_ok(r@),
        bn_val(r@) == bn_val(a@) - bn_val(b@),
{
    let n: usize = if a.len() > b.len() { a.len() } else { b.len() };
    let mut r: Vec<u8> = Vec::new();
    let mut borrow: u8 = 0;
    let mut i: usize = 0;
    proof {
        lemma_low_step(a@, 0);
        lemma_low_step(b@, 0);
    }
    while i < n
        invariant
            i <= n,
            n >= a@.len(),
            n >= b@.len(),
            bn_ok(a@),
            bn_ok(b@),
            r@.len() == i,
            bn_ok(r@),
            borrow <= 1,
            bn_val(r@) + bn_low(b@, i as nat) == bn_low(a@, i as nat) + borrow * pow10(i as nat),
        decreases n - i,
    {
        let da: u8 = if i < a.len() { a[i] } else { 0 };
        let db: u8 = (if i < b.len() { b[i] } else { 0 }) + borrow;
        let ghost old_r = r@;
        let ghost old_borrow = borrow;
        let d: u8;
        if da >= db {
            d = da - db;
            borrow = 0;
        } else {
            d = da + 10 - db;
            borrow = 1;
        }
        r.push(d);
        proof {
            lemma_bn_push(old_r, d);
            lemma_low_step(a@, i as nat);
            lemma_low_step(b@, i as nat);
            let p = pow10(i as nat);
            assert(pow10((i + 1) as nat) == 10 * p);
            assert(digit_at(a@, i as int) == da);
            assert(digit_at(b@, i as int) + old_borrow == db);
            assert(bn_val(old_r) + d * p + bn_low(b@, i as nat) + digit_at(b@, i as int) * p
                == bn_low(a@, i as nat) + digit_at(a@, i as int) * p + borrow * (10 * p))
                by (nonlinear_arith)
                requires
                    bn_val(old_r) + bn_low(b@, i as nat) == bn_low(a@, i as nat) + old_borrow * p,
                    d + db == da + 10 * borrow,
                    db == digit_at(b@, i as int) + old_borrow,
                    da == digit_at(a@, i as int),
            ;
        }
        i = i + 1;
    }
    proof {
        assert(bn_low(a@, n as nat) == bn_val(a@));
        assert(bn_low(b@, n as nat) == bn_val(b@));
        lemma_bn_bound(r@);
        if borrow == 1 {
            assert(false);
        }
    }
    r
}

/// `x / y` and `x % y`, for a quotient below `2^54`.
pub fn bn_divmod(x: &Vec<u8>, y: &Vec<u8>) -> (qr: (u64, Vec<u8>))
    requires
        bn_ok(x@),
        bn_ok(y@),
        bn_val(y@) > 0,
        bn_val(x@) < bn_val(y@) * power(2, 54),
    ensures
        qr.0 == bn_val(x@) / bn_val(y@),
        bn_ok(qr.1@),
        bn_val(qr.1@) == bn_val(x@) % bn_val(y@),
        qr.0 < 0x40_0000_0000_0000,
{
    let mut q: u64 = 0;
    let mut r = bn_mul_small(x, 1);
    let mut i: u32 = 54;
    let ghost yv = bn_val(y@);
    proof {
        reveal_with_fuel(power, 1);
    }
    while i > 0
        invariant
            i <= 54,
            bn_ok(r@),
            bn_ok(y@),
            yv == bn_val(y@),
            yv > 0,
            bn_val(x@) == q * yv + bn_val(r@),
            bn_val(r@) < yv * power(2, i as nat),
            bn_val(x@) < yv * power(2, 54),
        decreases i,
    {
        i = i - 1;
        let yi = bn_mul_pow2(y, i);
        proof {
            assert(power(2, (i + 1) as nat) == 2 * power(2, i as nat));
        }
        proof {
            lemma_power2_pos(i as nat);
        }
        if bn_compare(&yi, &r) <= 0 {
            let ghost old_r = bn_val(r@);
            r = bn_sub(&r, &yi);
            proof {
                lemma_shift_is_power_u64(i);
                assert(q * yv + bn_val(r@) <= bn_val(x@));
                assert(q * yv <= bn_val(x@));
                assert((q + power(2, i as nat)) * yv <= bn_val(x@)) by (nonlinear_arith)
                    requires
                        bn_val(x@) == q * yv + old_r,
                        old_r >= yv * power(2, i as nat),
                ;
                assert(q + power(2, i as nat) < 0x40_0000_0000_0000) by (nonlinear_arith)
                    requires
                        (q + power(2, i as nat)) * yv <= bn_val(x@),
                        bn_val(x@) < yv * power(2, 54),
                        yv > 0,
                        power(2, 54) == 0x40_0000_0000_0000,
                ;
                assert(bn_val(x@) == (q + power(2, i as nat)) * yv + bn_val(r@)) by (nonlinear_arith)
                    requires
                        bn_val(x@) == q * yv + old_r,
                        bn_val(r@) == old_r - yv * power(2, i as nat),
                ;
                assert(bn_val(r@) < yv * power(2, i as nat)) by (nonlinear_arith)
                    requires
                        bn_val(r@) == old_r - yv * power(2, i as nat),
                        old_r < yv * power(2, (i + 1) as nat),
                        power(2, (i + 1) as nat) == 2 * power(2, i as nat),
                ;
            }
            q = q + (1u64 << i);
        }
    }
    proof {
        assert(i == 0);
        assert(power(2, 0) == 1);
        lemma_power2_54();
        assert(yv * power(2, 0) == yv) by (nonlinear_arith)
            requires
                power(2, 0) == 1,
        ;
        assert(bn_val(r@) < yv);
        vstd::arithmetic::div_mod::lemma_fundamental_div_mod_converse(
            bn_val(x@) as int,
            yv as int,
            q as int,
            bn_val(r@) as int,
        );
        assert(q * yv <= bn_val(x@));
        assert(q < 0x40_0000_0000_0000) by (nonlinear_arith)
            requires
                q * yv <= bn_val(x@),
                bn_val(x@) < yv * power(2, 54),
                yv > 0,
                power(2, 54) == 0x40_0000_0000_0000,
        ;
    }
    (q, r)
}

proof fn lemma_shift_is_power_u64(i: u32)
    requires
        i < 54,
    ensures
        (1u64 << i) == power(2, i as nat),
        power(2, 54) == 0x40_0000_0000_0000,
    decreases i,
{
    reveal_with_fuel(power, 1);
    lemma_power2_54();
    if i > 0 {
        lemma_shift_is_power_u64((i - 1) as u32);
        assert((1u64 << i) == 2 * (1u64 << ((i - 1) as u32))) by (bit_vector)
            requires
                1 <= i < 54,
        ;
    } else {
        assert((1u64 << 0u32) == 1) by (bit_vector);
    }
}

pub proof fn lemma_power2_54()
    ensures
        power(2, 54) == 0x40_0000_0000_0000,
{
    reveal_with_fuel(power, 19);
    assert(power(2, 18) == 0x4_0000);
    lemma_power2_add(18, 18);
    lemma_power2_add(36, 18);
}

} // verus!
