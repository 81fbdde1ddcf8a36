//! Modular integer arithmetic: addition, subtraction and multiplication mod a
//! prime, and the modular inverse computed by the extended Euclidean algorithm.

use vstd::prelude::*;
use vstd::arithmetic::div_mod::*;
use vstd::arithmetic::mul::*;
use vstd::arithmetic::power::*;

verus! {

/// `p` is at least 2 and has no divisor strictly between 1 and itself.
pub open spec fn is_prime(p: int) -> bool {
    &&& 2 <= p
    &&& forall|k: int| 2 <= k < p ==> #[trigger] (p % k) != 0
}

/// The characteristic fits the machine representation: residues fit in an
/// `i32`, and a product of two residues fits in a `u64`.
pub open spec fn char_ok(p: int) -> bool {
    2 <= p <= 0x7fff_ffff
}

/// Euclid's greatest common divisor.
pub open spec fn gcd_int(a: nat, b: nat) -> nat
    decreases b,
{
    if b == 0 {
        a
    } else {
        gcd_int(b, a % b)
    }
}

/// The greatest common divisor of `a > 0` and `b` is positive and divides both.
proof fn lemma_gcd_divides(a: nat, b: nat)
    requires
        a > 0,
    ensures
        gcd_int(a, b) > 0,
        a % gcd_int(a, b) == 0,
        b % gcd_int(a, b) == 0,
    decreases b,
{
    let g = gcd_int(a, b) as int;
    if b == 0 {
        lemma_mod_self_0(a as int);
        lemma_small_mod(0, a);
    } else {
        lemma_gcd_divides(b, a % b);
        let q = a as int / b as int;
        lemma_fundamental_div_mod(a as int, b as int);
        assert(a as int == (b as int) * q + (a as int) % (b as int));
        lemma_mul_mod_noop_left(b as int, q, g);
        lemma_small_mod(0, g as nat);
        assert(((b as int) * q) % g == 0);
        lemma_add_mod_noop((b as int) * q, (a as int) % (b as int), g);
        assert((a as int) % g == 0);
    }
}

/// A positive divisor of a positive number is no larger than it.
proof fn lemma_divisor_le(x: nat, d: nat)
    requires
        x > 0,
        d > 0,
        x % d == 0,
    ensures
        d <= x,
{
    if d > x {
        lemma_small_mod(x, d);
    }
}

/// A prime shares no divisor above 1 with a smaller positive number.
proof fn lemma_prime_coprime(p: nat, v: nat)
    requires
        is_prime(p as int),
        1 <= v < p,
    ensures
        gcd_int(p, v) == 1,
{
    let g = gcd_int(p, v);
    lemma_gcd_divides(p, v);
    lemma_divisor_le(v, g);
    if g >= 2 {
        assert((p as int) % (g as int) != 0);
        assert((p as int) % (g as int) == 0);
    }
}

/// Bezout coefficients: returns `(s, t)` with `s * a + t * b == gcd(a, b)`.
proof fn lemma_bezout(a: nat, b: nat) -> (st: (int, int))
    requires
        a > 0,
    ensures
        st.0 * (a as int) + st.1 * (b as int) == gcd_int(a, b),
    decreases b,
{
    if b == 0 {
        (1int, 0int)
    } else {
        let sub = lemma_bezout(b, a % b);
        let s = sub.0;
        let t = sub.1;
        let q = a as int / b as int;
        lemma_fundamental_div_mod(a as int, b as int);
        assert(((a % b) as int) == a as int - q * (b as int));
        assert(s * (b as int) + t * ((a % b) as int) == gcd_int(b, a % b));
        let t2 = s - t * q;
        let ai = a as int;
        let bi = b as int;
        assert(t * ai + (s - t * q) * bi == s * bi + t * (ai - q * bi)) by (nonlinear_arith);
        (t, t2)
    }
}

/// Every nonzero residue mod a prime has a multiplicative inverse.
pub proof fn lemma_inverse_exists(p: int, v: int)
    requires
        is_prime(p),
        1 <= v < p,
    ensures
        exists|t: int| 0 <= t < p && #[trigger] ((t * v) % p) == 1,
{
    let st = lemma_bezout(p as nat, v as nat);
    let s = st.0;
    let t = st.1;
    lemma_prime_coprime(p as nat, v as nat);
    assert(s * p + t * v == 1);
    let t0 = t % p;
    lemma_mod_bound(t, p);
    lemma_mul_mod_noop_left(t, v, p);
    assert(t * v == p * (-s) + 1) by (nonlinear_arith)
        requires s * p + t * v == 1;
    lemma_mod_multiples_vanish(-s, 1, p);
    lemma_small_mod(1, p as nat);
    assert((t0 * v) % p == 1);
    assert(0 <= t0 < p && (t0 * v) % p == 1);
}

/// The multiplicative inverse of `v` mod `p`: the canonical residue `t`
/// with `t * v == 1 (mod p)`.
pub open spec fn inv_mod(p: int, v: int) -> int {
    choose|t: int| 0 <= t < p && #[trigger] ((t * v) % p) == 1
}

/// For a prime modulus, `inv_mod` is a residue and really inverts `v`.
pub proof fn lemma_inv_mod_props(p: int, v: int)
    requires
        is_prime(p),
        1 <= v < p,
    ensures
        0 <= inv_mod(p, v) < p,
        (inv_mod(p, v) * v) % p == 1,
{
    lemma_inverse_exists(p, v);
}

/// The inverse of `v` mod `p` is unique among residues.
pub proof fn lemma_inverse_unique(p: int, v: int, t1: int, t2: int)
    requires
        2 <= p,
        1 <= v < p,
        0 <= t1 < p,
        0 <= t2 < p,
        (t1 * v) % p == 1,
        (t2 * v) % p == 1,
    ensures
        t1 == t2,
{
    lemma_mul_mod_noop_right(t1, t2 * v, p);
    lemma_mul_mod_noop_right(t2, t1 * v, p);
    lemma_small_mod(t1 as nat, p as nat);
    lemma_small_mod(t2 as nat, p as nat);
    assert(t1 * (t2 * v) == t2 * (t1 * v)) by (nonlinear_arith);
    assert((t1 * 1) % p == t1 % p);
    assert((t2 * 1) % p == t2 % p);
}

/// Fold `a + b` into `[0, p)`.
pub fn mod_add(p: u32, a: i32, b: i32) -> (r: i32)
    requires
        char_ok(p as int),
        0 <= (a as int) < (p as int),
        0 <= (b as int) < (p as int),
    ensures
        r as int == (a as int + b as int) % (p as int),
        0 <= (r as int) < (p as int),
{
    (((a as u64) + (b as u64)) % (p as u64)) as i32
}

/// Fold `a - b` into `[0, p)`.
pub fn mod_sub(p: u32, a: i32, b: i32) -> (r: i32)
    requires
        char_ok(p as int),
        0 <= (a as int) < (p as int),
        0 <= (b as int) < (p as int),
    ensures
        r as int == (a as int - b as int) % (p as int),
        0 <= (r as int) < (p as int),
{
    proof {
        lemma_mod_add_multiples_vanish(a as int - b as int, p as int);
    }
    (((a as u64) + (p as u64) - (b as u64)) % (p as u64)) as i32
}

/// Fold `a * b` into `[0, p)`.
pub fn mod_mul(p: u32, a: i32, b: i32) -> (r: i32)
    requires
        char_ok(p as int),
        0 <= (a as int) < (p as int),
        0 <= (b as int) < (p as int),
    ensures
        r as int == (a as int * b as int) % (p as int),
        0 <= (r as int) < (p as int),
{
    proof {
        lemma_mul_upper_bound(a as int, 0x7fff_fffe, b as int, 0x7fff_fffe);
    }
    (((a as u64) * (b as u64)) % (p as u64)) as i32
}

/// The multiplicative inverse of `v` modulo the prime `u`, by the extended
/// Euclidean algorithm with the Bezout coefficients kept as residues mod `u`.
pub fn extended_euclidean(u: u32, v: u32) -> (t: u32)
    requires
        is_prime(u as int),
        1 <= v < u,
    ensures
        t as int == inv_mod(u as int, v as int),
        (t as int * v as int) % (u as int) == 1,
        t < u,
{
    let uu: u64 = u as u64;
    let mut r0: u64 = u as u64;
    let mut r1: u64 = v as u64;
    let mut t0: u64 = 0;
    let mut t1: u64 = 1;
    proof {
        lemma_mod_self_0(u as int);
        lemma_small_mod(v as nat, u as nat);
        lemma_small_mod(1, u as nat);
        lemma_small_mod(0, u as nat);
    }
    while r1 != 0
        invariant
            uu == u as u64,
            is_prime(u as int),
            1 <= v < u,
            r1 < r0,
            r0 <= uu,
            t0 < uu,
            t1 < uu,
            gcd_int(u as nat, v as nat) == gcd_int(r0 as nat, r1 as nat),
            (t0 as int * v as int) % (u as int) == (r0 as int) % (u as int),
            (t1 as int * v as int) % (u as int) == (r1 as int) % (u as int),
        decreases r1,
    {
        let q: u64 = r0 / r1;
        let r: u64 = r0 % r1;
        proof {
            lemma_div_nonincreasing(r0 as int, r1 as int);
            lemma_mul_upper_bound(q as int, 0xffff_ffff, t1 as int, 0xffff_ffff);
        }
        let qt: u64 = (q * t1) % uu;
        let tn: u64 = (t0 + (uu - qt)) % uu;
        proof {
            let ui = u as int;
            let aa = t0 as int;
            let bb = t1 as int;
            let qq = q as int;
            let rr0 = r0 as int;
            let rr1 = r1 as int;
            let vv = v as int;
            // gcd is preserved: gcd(r0, r1) == gcd(r1, r0 % r1)
            assert(gcd_int(r0 as nat, r1 as nat) == gcd_int(r1 as nat, r as nat));
            // tn == (t0 - q * t1) % u
            lemma_mod_bound(qq * bb, ui);
            lemma_mod_add_multiples_vanish(aa - qt as int, ui);
            lemma_sub_mod_noop_right(aa, qq * bb, ui);
            assert(tn as int == (aa - qq * bb) % ui);
            // (tn * v) % u == r % u
            lemma_mul_mod_noop_left(aa - qq * bb, vv, ui);
            assert((aa - qq * bb) * vv == aa * vv - qq * (bb * vv)) by (nonlinear_arith);
            lemma_sub_mod_noop(aa * vv, qq * (bb * vv), ui);
            lemma_mul_mod_noop_right(qq, bb * vv, ui);
            lemma_mul_mod_noop_right(qq, rr1 % ui, ui);
            lemma_mul_mod_noop_right(qq, rr1, ui);
            assert((qq * (bb * vv)) % ui == (qq * rr1) % ui);
            lemma_sub_mod_noop(rr0, qq * rr1, ui);
            lemma_fundamental_div_mod(rr0, rr1);
            assert(rr0 - qq * rr1 == r as int);
            lemma_mod_bound(r as int, ui);
            lemma_small_mod(r as nat, u as nat);
            assert((tn as int * vv) % ui == (r as int) % ui);
        }
        r0 = r1;
        r1 = r;
        t0 = t1;
        t1 = tn;
    }
    proof {
        lemma_prime_coprime(u as nat, v as nat);
        assert(gcd_int(r0 as nat, 0) == r0 as nat);
        assert(r0 == 1);
        lemma_small_mod(1, u as nat);
        assert((t0 as int * v as int) % (u as int) == 1);
        lemma_inverse_exists(u as int, v as int);
        lemma_inv_mod_props(u as int, v as int);
        lemma_inverse_unique(u as int, v as int, t0 as int, inv_mod(u as int, v as int));
    }
    t0 as u32
}

/// `b^e`, computed by repeated multiplication.
pub fn pow_u64(b: u32, e: u32) -> (r: u64)
    requires
        1 <= b,
        pow(b as int, e as nat) <= 0xffff_ffff_ffff_ffff,
    ensures
        r as int == pow(b as int, e as nat),
{
    let mut r: u64 = 1;
    proof {
        lemma_pow0(b as int);
    }
    for i in 0..e
        invariant
            1 <= b,
            r as int == pow(b as int, i as nat),
            pow(b as int, e as nat) <= 0xffff_ffff_ffff_ffff,
    {
        proof {
            lemma_pow_positive(b as int, i as nat);
            lemma_pow_increases(b as nat, (i + 1) as nat, e as nat);
            lemma_pow1(b as int);
            lemma_pow_adds(b as int, i as nat, 1);
        }
        r = r * (b as u64);
    }
    r
}


/// The base-`n` digits of `x`, least significant first; empty when `x` is
/// zero.
pub fn change_base_from10_to_n(x: i32, n: i32) -> (r: Vec<i32>)
    requires
        0 <= x,
        2 <= n,
    ensures
        forall|j: int|
            0 <= j < r@.len() ==> (#[trigger] r@[j]) as int == (x as int / pow(n as int, j as nat))
                % (n as int),
        forall|j: int| 0 <= j < r@.len() ==> 0 <= (#[trigger] r@[j] as int) < n as int,
        (x as int) < pow(n as int, r@.len() as nat),
        r@.len() >= 1 ==> pow(n as int, (r@.len() - 1) as nat) <= x as int,
        x == 0 <==> r@.len() == 0,
{
    let nu: u64 = n as u64;
    let mut xu: u64 = x as u64;
    let mut r: Vec<i32> = Vec::new();
    proof {
        lemma_pow0(n as int);
    }
    while xu > 0
        invariant
            2 <= n,
            nu == n as u64,
            0 <= x,
            xu as int == (x as int) / pow(n as int, r@.len() as nat),
            forall|j: int|
                0 <= j < r@.len() ==> (#[trigger] r@[j]) as int == (x as int / pow(
                    n as int,
                    j as nat,
                )) % (n as int),
            forall|j: int| 0 <= j < r@.len() ==> 0 <= (#[trigger] r@[j] as int) < n as int,
            r@.len() >= 1 ==> pow(n as int, (r@.len() - 1) as nat) <= x as int,
            r@.len() == 0 ==> xu == x as u64,
        decreases xu,
    {
        let ghost len0 = r@.len();
        let ghost pw = pow(n as int, len0 as nat);
        let ghost r_prev = r@;
        proof {
            lemma_pow_positive(n as int, len0 as nat);
            lemma_mod_bound(xu as int, n as int);
        }
        let d: i32 = (xu % nu) as i32;
        r.push(d);
        proof {
            lemma_div_decreases(xu as int, nu as int);
        }
        xu = xu / nu;
        proof {
            assert(forall|j: int| 0 <= j < len0 ==> r@[j] == r_prev[j]);
            lemma_pow1(n as int);
            lemma_pow_adds(n as int, len0 as nat, 1);
            assert(pow(n as int, (len0 + 1) as nat) == pw * n as int);
            lemma_div_denominator(x as int, pw, n as int);
            assert((x as int / pw) / (n as int) == x as int / (pw * n as int));
            // the digit pushed is the digit of x at this position
            assert(r@[len0 as int] as int == (x as int / pw) % (n as int));
            // the loop ran, so x reaches this position
            vstd::arithmetic::div_mod::lemma_fundamental_div_mod(x as int, pw);
            assert(x as int >= pw) by (nonlinear_arith)
                requires
                    x as int == pw * (x as int / pw) + (x as int) % pw,
                    x as int / pw >= 1,
                    pw > 0,
                    (x as int) % pw >= 0,
            ;
        }
    }
    proof {
        let pw = pow(n as int, r@.len() as nat);
        lemma_pow_positive(n as int, r@.len() as nat);
        lemma_fundamental_div_mod(x as int, pw);
        lemma_mod_bound(x as int, pw);
        assert((x as int) / pw == 0);
        assert(x as int == pw * ((x as int) / pw) + (x as int) % pw);
        assert(pw * ((x as int) / pw) == 0) by (nonlinear_arith)
            requires
                (x as int) / pw == 0,
        ;
        assert((x as int) < pw);
        if r@.len() >= 1 {
            lemma_pow_positive(n as int, (r@.len() - 1) as nat);
        }
    }
    r
}

} // verus!
