//! The algebraic laws of the field operations, proved over the element and
//! polynomial models.

use vstd::prelude::*;
use vstd::arithmetic::div_mod::{
    lemma_add_mod_noop, lemma_add_mod_noop_right, lemma_small_mod, lemma_sub_mod_noop_right,
};
use crate::arith::{inv_mod, is_prime, lemma_inv_mod_props};
use crate::element::{
    compat, e_add, e_char, e_div, e_is_zero, e_mul, e_one, e_sub, e_zero, ev_wf, lemma_e_add_zero,
    ElemV,
};
use crate::intpoly::{
    iadd, iconv, icell, in_range_all, ireduce, isub, itrim, lemma_itrim_basic, lemma_itrim_norm,
    lemma_itrim_pad, lemma_itrim_zeros, sget,
};
use crate::poly::{
    lemma_p_divrem_len, lemma_p_trim_norm, p_add, p_cell, p_conv, p_get, p_quot, lemma_p_rem_len, lemma_p_trim_basic, lemma_p_trim_idem, lemma_p_trim_wf,
    p_all_zero, p_divrem, p_gcd, p_gcd_loop, p_rem, p_step, p_trim, ps_wf,
};

verus! {

/// Addition of field elements is commutative: `a + b == b + a`.
pub proof fn law_add_commutative(a: ElemV, b: ElemV)
    requires
        ev_wf(a),
        ev_wf(b),
        compat(a, b),
    ensures
        e_add(a, b) == e_add(b, a),
{
    match (a, b) {
        (ElemV::Ext { p, m, e: x }, ElemV::Ext { e: y, .. }) => {
            assert(iadd(x, y, p) =~= iadd(y, x, p));
        },
        _ => {
        },
    }
}

/// Trimming one operand of a pointwise sum does not change the trimmed sum.
proof fn lemma_iadd_absorb_trim(s: Seq<int>, t: Seq<int>, p: int)
    requires
        2 <= p,
        s.len() >= 1,
    ensures
        itrim(iadd(itrim(s), t, p)) == itrim(iadd(s, t, p)),
{
    lemma_itrim_basic(s);
    let st = itrim(s);
    let u = iadd(st, t, p);
    let v = iadd(s, t, p);
    assert forall|i: int| 0 <= i < u.len() implies #[trigger] v[i] == u[i] by {
        assert(sget(st, i) == sget(s, i));
    }
    assert(v.take(u.len() as int) =~= u);
    assert forall|i: int| u.len() <= i < v.len() implies #[trigger] v[i] == 0 by {
        assert(sget(s, i) == s[i]);
        assert(s[i] == 0);
        assert(sget(t, i) == 0);
        lemma_small_mod(0, p as nat);
    }
    if u.len() >= 1 {
        lemma_itrim_pad(u, v);
    } else {
        assert(u =~= v);
    }
}

/// The pointwise sum itself is commutative.
proof fn lemma_iadd_commutes(x: Seq<int>, y: Seq<int>, p: int)
    ensures
        iadd(x, y, p) == iadd(y, x, p),
{
    assert(iadd(x, y, p) =~= iadd(y, x, p));
}

/// Addition of field elements is associative: `(a + b) + c == a + (b + c)`.
pub proof fn law_add_associative(a: ElemV, b: ElemV, c: ElemV)
    requires
        ev_wf(a),
        ev_wf(b),
        ev_wf(c),
        compat(a, b),
        compat(b, c),
    ensures
        e_add(e_add(a, b), c) == e_add(a, e_add(b, c)),
{
    match (a, b, c) {
        (ElemV::Prime { p, v: x }, ElemV::Prime { v: y, .. }, ElemV::Prime { v: z, .. }) => {
            lemma_add_mod_noop(x + y, z, p);
            lemma_add_mod_noop(x, y + z, p);
            lemma_add_mod_noop_right(x + y, z, p);
            lemma_add_mod_noop_right(x, y + z, p);
            lemma_small_mod(z as nat, p as nat);
            lemma_small_mod(x as nat, p as nat);
        },
        (ElemV::Ext { p, m, e: x }, ElemV::Ext { e: y, .. }, ElemV::Ext { e: z, .. }) => {
            let u = iadd(iadd(x, y, p), z, p);
            let v = iadd(x, iadd(y, z, p), p);
            assert forall|i: int| 0 <= i < u.len() implies #[trigger] u[i] == v[i] by {
                let xi = sget(x, i);
                let yi = sget(y, i);
                let zi = sget(z, i);
                lemma_small_mod(0, p as nat);
                if 0 <= i < x.len() {
                    assert(0 <= x[i] < p);
                }
                if 0 <= i < y.len() {
                    assert(0 <= y[i] < p);
                }
                if 0 <= i < z.len() {
                    assert(0 <= z[i] < p);
                }
                assert(sget(iadd(x, y, p), i) == (xi + yi) % p);
                assert(sget(iadd(y, z, p), i) == (yi + zi) % p);
                assert(u[i] == ((xi + yi) % p + zi) % p);
                assert(v[i] == (xi + (yi + zi) % p) % p);
                lemma_small_mod(zi as nat, p as nat);
                lemma_add_mod_noop(xi + yi, zi, p);
                lemma_add_mod_noop_right(xi, yi + zi, p);
            }
            assert(u =~= v);
            lemma_iadd_absorb_trim(iadd(x, y, p), z, p);
            lemma_iadd_commutes(x, itrim(iadd(y, z, p)), p);
            lemma_iadd_commutes(x, iadd(y, z, p), p);
            lemma_iadd_absorb_trim(iadd(y, z, p), x, p);
        },
        _ => {
        },
    }
}

/// The additive identity: `a + zero_like(a) == a`.
pub proof fn law_add_identity(a: ElemV)
    requires
        ev_wf(a),
    ensures
        e_add(a, e_zero(a)) == a,
{
    lemma_e_add_zero(a);
}

/// The additive inverse: `a - a` is the zero of the field.
pub proof fn law_sub_self_is_zero(a: ElemV)
    requires
        ev_wf(a),
    ensures
        e_is_zero(e_sub(a, a)),
{
    match a {
        ElemV::Prime { p, v } => {
            lemma_small_mod(0, p as nat);
        },
        ElemV::Ext { p, m, e } => {
            let d = isub(e, e, p);
            assert forall|i: int| 0 <= i < d.len() implies #[trigger] d[i] == 0 by {
                lemma_small_mod(0, p as nat);
            }
            lemma_itrim_zeros(d);
        },
    }
}

/// Division undoes multiplication in a prime field: for a nonzero divisor
/// `b`, `(a / b) * b == a`.
pub proof fn law_div_mul_cancel(a: ElemV, b: ElemV)
    requires
        ev_wf(a),
        ev_wf(b),
        compat(a, b),
        a is Prime,
        is_prime(e_char(a)),
        !e_is_zero(b),
    ensures
        e_mul(e_div(a, b), b) == a,
{
    let p = e_char(a);
    let x = a->Prime_v;
    let y = b->Prime_v;
    lemma_inv_mod_props(p, y);
    let t = inv_mod(p, y);
    let d = (x * t) % p;
    vstd::arithmetic::div_mod::lemma_mul_mod_noop_left(x * t, y, p);
    assert((x * t) * y == x * (t * y)) by (nonlinear_arith);
    vstd::arithmetic::div_mod::lemma_mul_mod_noop_right(x, t * y, p);
    lemma_small_mod(x as nat, p as nat);
    assert((d * y) % p == ((x * t) * y) % p);
    assert((x * (t * y)) % p == (x * ((t * y) % p)) % p);
    assert((x * 1) % p == x);
}

/// The accumulated convolution with the unit polynomial reproduces each
/// coefficient.
proof fn lemma_icell_one(e: Seq<int>, p: int, k: int, n: nat)
    requires
        2 <= p,
        in_range_all(e, p),
        0 <= k < e.len(),
    ensures
        icell(e, seq![1int], p, k, n) == if n > k {
            e[k]
        } else {
            0
        },
    decreases n,
{
    if n > 0 {
        lemma_icell_one(e, p, k, (n - 1) as nat);
        if n - 1 == k {
            lemma_small_mod(e[k] as nat, p as nat);
            assert(seq![1int][0] == 1);
            assert(e[k] * 1 == e[k]) by (nonlinear_arith);
        }
    }
}

/// The multiplicative identity: `a * one_like(a) == a`.
pub proof fn law_mul_identity(a: ElemV)
    requires
        ev_wf(a),
    ensures
        e_mul(a, e_one(a)) == a,
{
    match a {
        ElemV::Prime { p, v } => {
            lemma_small_mod(v as nat, p as nat);
        },
        ElemV::Ext { p, m, e } => {
            let c = iconv(e, seq![1int], p);
            assert forall|i: int| 0 <= i < c.len() implies #[trigger] c[i] == e[i] by {
                lemma_icell_one(e, p, i, e.len());
            }
            assert(c =~= e);
            assert(ireduce(e, m, p) == e);
            lemma_itrim_norm(e);
        },
    }
}

/// Normalization is idempotent: trimming an already-normalized polynomial
/// leaves it unchanged.
pub proof fn law_trim_idempotent(s: Seq<ElemV>)
    requires
        s.len() >= 1,
    ensures
        p_trim(p_trim(s)) == p_trim(s),
{
    lemma_p_trim_idem(s);
}

/// The zero polynomial always normalizes to the single zero coefficient.
pub proof fn law_zero_polynomial_trims_to_zero(s: Seq<ElemV>)
    requires
        s.len() >= 1,
        p_all_zero(s),
    ensures
        p_trim(s).len() == 1,
        e_is_zero(p_trim(s)[0]),
        p_trim(s) == seq![s[0]],
{
    lemma_p_trim_basic(s);
    if p_trim(s).len() > 1 {
        assert(p_trim(s).last() == s[p_trim(s).len() - 1]);
    }
    assert(p_trim(s) =~= seq![s[0]]);
}

/// The remainder of polynomial division has lower degree than the divisor;
/// division by a nonzero constant leaves the zero polynomial.
pub proof fn law_rem_degree(f: Seq<ElemV>, g: Seq<ElemV>)
    requires
        f.len() >= 1,
        g.len() >= 1,
    ensures
        p_trim(g).len() > 1 ==> p_rem(f, g).len() < p_trim(g).len(),
        p_trim(g).len() == 1 ==> p_rem(f, g) == seq![e_zero(f[0])],
{
    lemma_p_rem_len(f, g);
    lemma_p_trim_basic(f);
    lemma_p_trim_basic(g);
    if p_trim(g).len() == 1 {
        lemma_p_divrem_len(p_trim(f), p_trim(g));
    }
}


/// The greatest common divisor of a polynomial with itself reduces to the
/// polynomial, up to normalization and the unit convention: a constant is
/// reported as the unit polynomial. Shown for prime-field coefficients.
pub proof fn law_gcd_self(f: Seq<ElemV>)
    requires
        ps_wf(f),
        f[0] is Prime,
        is_prime(e_char(f[0])),
        !p_all_zero(f),
    ensures
        p_trim(f).len() > 1 ==> p_gcd(f, f) == p_trim(f),
        p_trim(f).len() == 1 ==> p_gcd(f, f) == seq![e_one(f[0])],
{
    let ft = p_trim(f);
    lemma_p_trim_basic(f);
    lemma_p_trim_wf(f);
    lemma_p_trim_idem(f);
    let p = e_char(f[0]);
    // some coefficient is nonzero, and it survives trimming
    assert(exists|i: int| 0 <= i < f.len() && !e_is_zero(#[trigger] f[i])) by {
        if forall|i: int| 0 <= i < f.len() ==> e_is_zero(#[trigger] f[i]) {
            assert(p_all_zero(f));
        }
    }
    let i0 = choose|i: int| 0 <= i < f.len() && !e_is_zero(#[trigger] f[i]);
    assert(i0 < ft.len());
    assert(ft[i0] == f[i0]);
    assert(!p_all_zero(ft));
    // the leading coefficient of the trimmed polynomial is nonzero
    if ft.len() == 1 {
        assert(i0 == 0);
    }
    assert(!e_is_zero(ft.last()));
    // every coefficient is a prime-field residue of the same field
    assert forall|j: int| 0 <= j < ft.len() implies (#[trigger] ft[j]) is Prime && ev_wf(ft[j])
        && e_char(ft[j]) == p by {
        assert(ft[j] == f[j]);
        assert(compat(f[0], f[j]));
        assert(ev_wf(f[j]));
    }
    // the leading quotient coefficient is the unit
    let top = ft.last();
    let tv = top->Prime_v;
    assert(1 <= tv < p);
    lemma_inv_mod_props(p, tv);
    let q = e_div(top, top);
    assert(tv * inv_mod(p, tv) == inv_mod(p, tv) * tv) by (nonlinear_arith);
    assert(q == ElemV::Prime { p, v: 1int });
    // one division step cancels every coefficient
    let w2 = p_step(ft, ft);
    assert forall|j: int| 0 <= j < w2.len() implies e_is_zero(#[trigger] w2[j]) by {
        let vj = ft[j]->Prime_v;
        assert(0 <= vj < p);
        lemma_small_mod(vj as nat, p as nat);
        assert(1 * vj == vj) by (nonlinear_arith);
        assert(e_mul(q, ft[j]) == ElemV::Prime { p, v: vj });
        assert(w2[j] == e_sub(ft[j], e_mul(q, ft[j])));
        lemma_small_mod(0, p as nat);
    }
    assert(w2.len() == ft.len() - 1);
    assert(p_divrem(w2, ft).1 == w2);
    assert(p_divrem(ft, ft).1 == w2);
    // so the remainder of f by itself is the zero polynomial
    let r = p_rem(ft, ft);
    if w2.len() == 0 {
        assert(r == seq![e_zero(ft[0])]);
        assert(e_is_zero(e_zero(ft[0])));
        assert(p_all_zero(r));
    } else {
        law_zero_polynomial_trims_to_zero(w2);
        assert(r == seq![w2[0]]);
        assert(p_all_zero(r));
    }
    // the Euclidean loop therefore stops with the trimmed polynomial
    assert(p_gcd_loop(f, f) == ft);
    // and the unit convention rewrites a constant result
    if ft.len() == 1 {
        assert(ft[0] == f[0]);
        assert(!e_is_zero(ft[0]));
        assert(p_gcd(f, f) == seq![e_one(ft[0])]);
    } else {
        assert(p_gcd(f, f) == ft);
    }
}


/// The prime-field residues stored in a coefficient sequence.
pub open spec fn pints(s: Seq<ElemV>) -> Seq<int> {
    Seq::new(s.len(), |i: int| s[i]->Prime_v)
}

/// Every coefficient is a prime-field residue of the field of
/// characteristic `p`.
pub open spec fn all_prime(s: Seq<ElemV>, p: int) -> bool {
    forall|i: int|
        0 <= i < s.len() ==> ((#[trigger] s[i]) is Prime && e_char(s[i]) == p && 0 <= s[i]->Prime_v
            < p)
}

/// An accumulated convolution coefficient only reads the first `n` entries
/// of its left operand.
proof fn lemma_icell_agree(f1: Seq<int>, f2: Seq<int>, g: Seq<int>, p: int, k: int, n: nat)
    requires
        n <= f1.len(),
        n <= f2.len(),
        forall|i: int| 0 <= i < n ==> f1[i] == f2[i],
    ensures
        icell(f1, g, p, k, n) == icell(f2, g, p, k, n),
    decreases n,
{
    if n > 0 {
        lemma_icell_agree(f1, f2, g, p, k, (n - 1) as nat);
    }
}

/// Zero entries of the left operand contribute nothing to a convolution
/// coefficient.
proof fn lemma_icell_zero_entries(f: Seq<int>, g: Seq<int>, p: int, k: int, n0: nat, n: nat)
    requires
        2 <= p,
        n0 <= n <= f.len(),
        forall|i: int| n0 <= i < n ==> #[trigger] f[i] == 0,
    ensures
        icell(f, g, p, k, n) == icell(f, g, p, k, n0),
    decreases n,
{
    if n > n0 {
        lemma_icell_zero_entries(f, g, p, k, n0, (n - 1) as nat);
        let i = n - 1;
        if i < f.len() && 0 <= k - i < g.len() {
            crate::intpoly::lemma_icell_range(f, g, p, k, (n - 1) as nat);
            assert(f[i] * g[k - i] == 0) by (nonlinear_arith)
                requires
                    f[i] == 0,
            ;
            lemma_small_mod(icell(f, g, p, k, (n - 1) as nat) as nat, p as nat);
        }
    }
}

/// A convolution coefficient beyond the reach of both operands is zero.
proof fn lemma_icell_high_zero(f: Seq<int>, g: Seq<int>, p: int, k: int, n: nat)
    requires
        k < 0 || k - (n - 1) >= g.len(),
    ensures
        icell(f, g, p, k, n) == 0,
    decreases n,
{
    if n > 0 {
        lemma_icell_high_zero(f, g, p, k, (n - 1) as nat);
    }
}

/// Zero entries of the right operand contribute nothing either.
proof fn lemma_icell_pad_right(f: Seq<int>, g1: Seq<int>, g2: Seq<int>, p: int, k: int, n: nat)
    requires
        2 <= p,
        g1.len() <= g2.len(),
        forall|i: int| 0 <= i < g1.len() ==> g1[i] == g2[i],
        forall|i: int| g1.len() <= i < g2.len() ==> #[trigger] g2[i] == 0,
    ensures
        icell(f, g1, p, k, n) == icell(f, g2, p, k, n),
    decreases n,
{
    if n > 0 {
        lemma_icell_pad_right(f, g1, g2, p, k, (n - 1) as nat);
        let i = n - 1;
        if i < f.len() && 0 <= k - i < g2.len() && g1.len() <= k - i {
            crate::intpoly::lemma_icell_range(f, g1, p, k, (n - 1) as nat);
            assert(f[i] * g2[k - i] == 0) by (nonlinear_arith)
                requires
                    g2[k - i] == 0,
            ;
            lemma_small_mod(icell(f, g1, p, k, (n - 1) as nat) as nat, p as nat);
        }
    }
}

/// For prime-field coefficients, the convolution model over elements is the
/// convolution of their residues.
proof fn lemma_p_cell_ints(f: Seq<ElemV>, g: Seq<ElemV>, p: int, k: int, n: nat)
    requires
        2 <= p,
        f.len() >= 1,
        all_prime(f, p),
        all_prime(g, p),
    ensures
        p_cell(f, g, k, n) == (ElemV::Prime { p, v: icell(pints(f), pints(g), p, k, n) }),
    decreases n,
{
    if n > 0 {
        lemma_p_cell_ints(f, g, p, k, (n - 1) as nat);
        let i = n - 1;
        if i < f.len() && 0 <= k - i < g.len() {
            let acc = icell(pints(f), pints(g), p, k, (n - 1) as nat);
            crate::intpoly::lemma_icell_range(pints(f), pints(g), p, k, (n - 1) as nat);
            lemma_add_mod_noop_right(acc, f[i as int]->Prime_v * g[k - i]->Prime_v, p);
        }
    }
}

/// Long division reconstructs its dividend: for every degree, the residue
/// of the dividend is the matching coefficient of `quotient * divisor +
/// remainder`. Shown for prime-field coefficients.
pub proof fn law_divrem_reconstructs(w: Seq<ElemV>, g: Seq<ElemV>, p: int)
    requires
        is_prime(p),
        all_prime(w, p),
        all_prime(g, p),
        g.len() >= 1,
        !e_is_zero(g.last()),
    ensures
        all_prime(p_divrem(w, g).0, p),
        all_prime(p_divrem(w, g).1, p),
        forall|k: int|
            0 <= k ==> (sget(
                iconv(pints(#[trigger] p_divrem(w, g).0), pints(g), p),
                k,
            ) + sget(pints(p_divrem(w, g).1), k)) % p == sget(pints(w), k),
    decreases w.len(),
{
    let ig = pints(g);
    let iw = pints(w);
    let glen = g.len() as int;
    let wlen = w.len() as int;
    if w.len() < g.len() {
        let q0 = p_divrem(w, g).0;
        assert(q0 =~= Seq::<ElemV>::empty());
        assert forall|k: int| 0 <= k implies (sget(iconv(pints(q0), ig, p), k) + sget(iw, k)) % p
            == sget(iw, k) by {
            if 0 <= k < iconv(pints(q0), ig, p).len() {
                assert(iconv(pints(q0), ig, p)[k] == icell(pints(q0), ig, p, k, 0));
            }
            assert(sget(iconv(pints(q0), ig, p), k) == 0);
            if 0 <= k < w.len() {
                assert(0 <= iw[k] < p);
                lemma_small_mod(iw[k] as nat, p as nat);
            } else {
                lemma_small_mod(0, p as nat);
            }
        }
    } else {
        let off = wlen - glen;
        let q = e_div(w.last(), g.last());
        let wl = w.last()->Prime_v;
        let gl = g.last()->Prime_v;
        assert(0 <= w[wlen - 1]->Prime_v < p);
        assert(0 <= g[glen - 1]->Prime_v < p);
        assert(1 <= gl < p);
        lemma_inv_mod_props(p, gl);
        let t = inv_mod(p, gl);
        let qv = (wl * t) % p;
        vstd::arithmetic::div_mod::lemma_mod_bound(wl * t, p);
        assert(q == ElemV::Prime { p, v: qv });
        // the step keeps prime coefficients, and its residues subtract the
        // scaled divisor
        let w2 = p_step(w, g);
        assert forall|j: int| 0 <= j < w2.len() implies ((#[trigger] w2[j]) is Prime && e_char(
            w2[j],
        ) == p && 0 <= w2[j]->Prime_v < p && w2[j]->Prime_v == if j >= off {
            (iw[j] - qv * ig[j - off]) % p
        } else {
            iw[j]
        }) by {
            assert(0 <= w[j]->Prime_v < p);
            if j >= off {
                assert(0 <= g[j - off]->Prime_v < p);
                vstd::arithmetic::div_mod::lemma_mod_bound(qv * ig[j - off], p);
                lemma_sub_mod_noop_right(iw[j], qv * ig[j - off], p);
                vstd::arithmetic::div_mod::lemma_mod_bound(iw[j] - qv * ig[j - off], p);
            }
        }
        law_divrem_reconstructs(w2, g, p);
        let q2 = p_divrem(w2, g).0;
        let rr = p_divrem(w2, g).1;
        lemma_p_divrem_len(w2, g);
        lemma_p_divrem_len(w, g);
        assert(q2.len() == off);
        assert(p_divrem(w, g).0 == q2.push(q));
        assert(p_divrem(w, g).1 == rr);
        let iq2 = pints(q2);
        let iq = pints(q2.push(q));
        assert(iq =~= iq2.push(qv));
        assert(rr.len() < glen);
        let ir = pints(rr);
        // the inverse really cancels the leading coefficient
        assert((qv * gl) % p == wl) by {
            vstd::arithmetic::div_mod::lemma_mul_mod_noop_left(wl * t, gl, p);
            assert((wl * t) * gl == wl * (t * gl)) by (nonlinear_arith);
            vstd::arithmetic::div_mod::lemma_mul_mod_noop_right(wl, t * gl, p);
            assert(t * gl == gl * t) by (nonlinear_arith);
            assert((wl * 1) % p == wl % p);
            lemma_small_mod(wl as nat, p as nat);
        }
        assert forall|k: int| 0 <= k implies (sget(iconv(iq, ig, p), k) + sget(ir, k)) % p == sget(
            iw,
            k,
        ) by {
            // the new convolution coefficient: the old one plus the
            // contribution of the new quotient entry
            let accn = icell(iq, ig, p, k, (off + 1) as nat);
            let acco = icell(iq2, ig, p, k, off as nat);
            lemma_icell_agree(iq, iq2, ig, p, k, off as nat);
            assert(icell(iq, ig, p, k, off as nat) == acco);
            crate::intpoly::lemma_icell_range(iq2, ig, p, k, off as nat);
            // relate the old cell to its stored convolution entry
            if k >= wlen - 1 {
                lemma_icell_high_zero(iq2, ig, p, k, off as nat);
            }
            assert(sget(iconv(iq2, ig, p), k) == acco);
            if k >= wlen {
                lemma_icell_high_zero(iq, ig, p, k, (off + 1) as nat);
                assert(sget(iconv(iq, ig, p), k) == 0);
                assert(sget(ir, k) == 0);
                assert(sget(iw, k) == 0);
                lemma_small_mod(0, p as nat);
            } else if k < off {
                assert(accn == acco);
                assert(sget(iconv(iq, ig, p), k) == accn);
                assert(sget(pints(w2), k) == sget(iw, k));
            } else if k < wlen - 1 {
                // the window of the subtraction step
                let gk = ig[k - off];
                assert(0 <= g[k - off]->Prime_v < p);
                assert(accn == (acco + qv * gk) % p);
                assert(sget(iconv(iq, ig, p), k) == accn);
                let rk = sget(ir, k);
                assert(0 <= rk < p) by {
                    if 0 <= k < rr.len() {
                        assert(0 <= rr[k]->Prime_v < p);
                    }
                }
                let w2k = sget(pints(w2), k);
                assert(w2k == (iw[k] - qv * gk) % p);
                assert((acco + rk) % p == w2k);
                // fold the extra term through the sum
                lemma_add_mod_noop(acco + qv * gk, rk, p);
                lemma_small_mod(rk as nat, p as nat);
                assert((accn + rk) % p == (acco + qv * gk + rk) % p);
                lemma_add_mod_noop(acco + rk, qv * gk, p);
                lemma_add_mod_noop_right((acco + rk) % p, qv * gk, p);
                assert((acco + qv * gk + rk) % p == ((acco + rk) % p + qv * gk) % p) by {
                    assert((acco + qv * gk + rk) == ((acco + rk) + qv * gk));
                    assert(((acco + rk) + qv * gk) % p == ((acco + rk) % p + (qv * gk) % p) % p);
                    assert(((acco + rk) % p + (qv * gk) % p) % p == ((acco + rk) % p + qv * gk)
                        % p);
                }
                assert(((acco + rk) % p + qv * gk) % p == (w2k + qv * gk) % p);
                // and undo the subtraction of the step
                lemma_sub_mod_noop_right(iw[k] - qv * gk, 0, p);
                lemma_add_mod_noop((iw[k] - qv * gk), qv * gk, p);
                lemma_add_mod_noop_right((iw[k] - qv * gk) % p, qv * gk, p);
                assert((w2k + qv * gk) % p == ((iw[k] - qv * gk) + qv * gk) % p) by {
                    assert(((iw[k] - qv * gk) + qv * gk) % p == ((iw[k] - qv * gk) % p + (qv * gk)
                        % p) % p);
                    assert(((iw[k] - qv * gk) % p + (qv * gk) % p) % p == (w2k + (qv * gk) % p)
                        % p);
                    assert((w2k + (qv * gk) % p) % p == (w2k + qv * gk) % p) by {
                        lemma_add_mod_noop_right(w2k, qv * gk, p);
                    }
                }
                assert(0 <= iw[k] < p);
                lemma_small_mod(iw[k] as nat, p as nat);
                assert((accn + rk) % p == iw[k]);
            } else {
                // the top coefficient: only the new quotient entry reaches it
                assert(k == wlen - 1);
                assert(acco == 0);
                assert(k - off == glen - 1);
                assert(accn == (0 + qv * gl) % p);
                assert(sget(iconv(iq, ig, p), k) == accn);
                assert(sget(ir, k) == 0);
                assert(accn == wl);
                assert(sget(iw, k) == wl);
                lemma_small_mod(wl as nat, p as nat);
            }
        }
    }
}


/// A padding of trailing zero coefficients does not change what trimming
/// yields.
proof fn lemma_p_trim_pad(u: Seq<ElemV>, v: Seq<ElemV>)
    requires
        1 <= u.len() <= v.len(),
        v.take(u.len() as int) == u,
        forall|i: int| u.len() <= i < v.len() ==> e_is_zero(#[trigger] v[i]),
    ensures
        p_trim(v) == p_trim(u),
    decreases v.len(),
{
    if v.len() == u.len() {
        assert(v =~= u);
    } else {
        assert(e_is_zero(v.last()));
        assert(v.drop_last().take(u.len() as int) =~= v.take(u.len() as int));
        assert forall|i: int| u.len() <= i < v.len() - 1 implies e_is_zero(
            #[trigger] v.drop_last()[i],
        ) by {
            assert(v.drop_last()[i] == v[i]);
        }
        lemma_p_trim_pad(u, v.drop_last());
    }
}

/// Two prime-coefficient sequences with the same residues at every degree
/// trim to the same polynomial.
proof fn lemma_p_trim_sget_equal(u: Seq<ElemV>, v: Seq<ElemV>, p: int)
    requires
        all_prime(u, p),
        all_prime(v, p),
        u.len() >= 1,
        v.len() >= 1,
        forall|k: int| 0 <= k ==> sget(pints(u), k) == sget(pints(v), k),
    ensures
        p_trim(u) == p_trim(v),
{
    if u.len() <= v.len() {
        assert forall|k: int| 0 <= k < u.len() implies #[trigger] v[k] == u[k] by {
            assert(sget(pints(u), k) == sget(pints(v), k));
            assert(u[k] == (ElemV::Prime { p, v: u[k]->Prime_v }));
            assert(v[k] == (ElemV::Prime { p, v: v[k]->Prime_v }));
        }
        assert(v.take(u.len() as int) =~= u);
        assert forall|i: int| u.len() <= i < v.len() implies e_is_zero(#[trigger] v[i]) by {
            assert(sget(pints(u), i) == sget(pints(v), i));
            assert(v[i]->Prime_v == 0);
        }
        lemma_p_trim_pad(u, v);
    } else {
        assert forall|k: int| 0 <= k < v.len() implies #[trigger] u[k] == v[k] by {
            assert(sget(pints(u), k) == sget(pints(v), k));
            assert(u[k] == (ElemV::Prime { p, v: u[k]->Prime_v }));
            assert(v[k] == (ElemV::Prime { p, v: v[k]->Prime_v }));
        }
        assert(u.take(v.len() as int) =~= v);
        assert forall|i: int| v.len() <= i < u.len() implies e_is_zero(#[trigger] u[i]) by {
            assert(sget(pints(u), i) == sget(pints(v), i));
            assert(u[i]->Prime_v == 0);
        }
        lemma_p_trim_pad(v, u);
    }
}

/// Division round trip: `f == (f / g) * g + (f % g)` for every polynomial
/// `f` and nonzero polynomial `g` over a prime field, where multiplication
/// and addition normalize their results as the operations do.
#[verifier::rlimit(60)]
pub proof fn law_div_rem_round_trip(f: Seq<ElemV>, g: Seq<ElemV>, p: int)
    requires
        is_prime(p),
        all_prime(f, p),
        all_prime(g, p),
        f.len() >= 1,
        g.len() >= 1,
        !p_all_zero(g),
    ensures
        p_trim(p_add(p_trim(p_conv(p_quot(f, g), g)), p_rem(f, g))) == p_trim(f),
{
    let ft = p_trim(f);
    let gt = p_trim(g);
    lemma_p_trim_basic(f);
    lemma_p_trim_basic(g);
    lemma_p_trim_idem(f);
    // trimmed sequences keep their residues and stay prime
    assert forall|k: int| 0 <= k < ft.len() implies #[trigger] ft[k] == f[k] by {}
    assert forall|k: int| 0 <= k < gt.len() implies #[trigger] gt[k] == g[k] by {}
    assert(all_prime(ft, p));
    assert(all_prime(gt, p));
    assert forall|k: int| 0 <= k implies sget(pints(ft), k) == #[trigger] sget(pints(f), k) by {
        if ft.len() <= k < f.len() {
            assert(e_is_zero(f[k]));
            assert(f[k]->Prime_v == 0);
        }
    }
    // the trimmed divisor keeps a nonzero leading coefficient
    assert(exists|i: int| 0 <= i < g.len() && !e_is_zero(#[trigger] g[i])) by {
        if forall|i: int| 0 <= i < g.len() ==> e_is_zero(#[trigger] g[i]) {
            assert(p_all_zero(g));
        }
    }
    let i0 = choose|i: int| 0 <= i < g.len() && !e_is_zero(#[trigger] g[i]);
    assert(i0 < gt.len());
    assert(gt[i0] == g[i0]);
    if gt.len() == 1 {
        assert(i0 == 0);
    }
    assert(!e_is_zero(gt.last()));
    let z = e_zero(f[0]);
    assert(z == (ElemV::Prime { p, v: 0int }));
    if ft.len() < gt.len() {
        // quotient [0], remainder the trimmed dividend
        let qq = p_quot(f, g);
        assert(qq == seq![z]);
        assert(pints(qq) =~= seq![0int]);
        let cv = p_conv(qq, g);
        assert forall|k: int| 0 <= k < cv.len() implies #[trigger] cv[k] == z by {
            lemma_p_cell_ints(qq, g, p, k, 1);
            lemma_icell_zero_entries(pints(qq), pints(g), p, k, 0, 1);
        }
        assert(p_all_zero(cv));
        law_zero_polynomial_trims_to_zero(cv);
        assert(cv[0] == z);
        assert(p_trim(cv) == seq![z]);
        let added = p_add(seq![z], ft);
        assert(e_zero(z) == z);
        assert forall|k: int| 0 <= k < added.len() implies #[trigger] added[k] == ft[k] by {
            assert(0 <= ft[k]->Prime_v < p);
            lemma_small_mod(ft[k]->Prime_v as nat, p as nat);
            assert(added[k] == e_add(p_get(seq![z], k, e_zero(z)), p_get(ft, k, e_zero(z))));
        }
        assert(added =~= ft);
        assert(p_rem(f, g) == ft);
        lemma_p_trim_norm(ft);
        assert(p_trim(p_add(p_trim(cv), ft)) == p_trim(f));
    } else {
        law_divrem_reconstructs(ft, gt, p);
        let qs = p_divrem(ft, gt).0;
        let rs = p_divrem(ft, gt).1;
        lemma_p_divrem_len(ft, gt);
        let qq = p_trim(qs);
        assert(qs.len() >= 1);
        lemma_p_trim_basic(qs);
        assert forall|k: int| 0 <= k < qq.len() implies #[trigger] qq[k] == qs[k] by {}
        assert(all_prime(qq, p));
        assert(p_quot(f, g) == qq);
        // the convolution with the trimmed quotient and the raw divisor has
        // the same residues as the one the reconstruction speaks of
        let cv = p_conv(qq, g);
        assert forall|k: int| 0 <= k implies #[trigger] sget(pints(cv), k) == sget(
            iconv(pints(qs), pints(gt), p),
            k,
        ) by {
            // zero entries dropped from the quotient contribute nothing
            assert forall|i: int| qq.len() <= i < qs.len() implies #[trigger] pints(qs)[i] == 0
                by {
                assert(e_is_zero(qs[i]));
            }
            // and the zero tail of the raw divisor contributes nothing
            assert forall|i: int| 0 <= i < gt.len() implies #[trigger] pints(gt)[i] == pints(
                g,
            )[i] by {}
            assert forall|i: int| gt.len() <= i < g.len() implies #[trigger] pints(g)[i] == 0 by {
                assert(e_is_zero(g[i]));
            }
            if 0 <= k < cv.len() {
                lemma_p_cell_ints(qq, g, p, k, qq.len());
                lemma_icell_pad_right(pints(qq), pints(gt), pints(g), p, k, qq.len());
                lemma_icell_agree(pints(qq), pints(qs), pints(gt), p, k, qq.len());
                lemma_icell_zero_entries(pints(qs), pints(gt), p, k, qq.len(), qs.len());
                assert(pints(cv)[k] == icell(pints(qs), pints(gt), p, k, qs.len()));
                if k >= iconv(pints(qs), pints(gt), p).len() {
                    lemma_icell_high_zero(pints(qs), pints(gt), p, k, qs.len());
                }
            } else if 0 <= k {
                // beyond the stored length both convolutions are zero
                if k < iconv(pints(qs), pints(gt), p).len() {
                    lemma_icell_zero_entries(pints(qs), pints(gt), p, k, qq.len(), qs.len());
                    lemma_icell_high_zero(pints(qs), pints(gt), p, k, qq.len());
                }
            }
        }
        assert forall|k: int| 0 <= k < cv.len() implies ((#[trigger] cv[k]) is Prime && e_char(
            cv[k],
        ) == p && 0 <= cv[k]->Prime_v < p) by {
            lemma_p_cell_ints(qq, g, p, k, qq.len());
            crate::intpoly::lemma_icell_range(pints(qq), pints(g), p, k, qq.len());
        }
        assert(all_prime(cv, p));
        let ml = p_trim(cv);
        lemma_p_trim_basic(cv);
        assert(cv.len() >= 1);
        assert forall|k: int| 0 <= k implies #[trigger] sget(pints(ml), k) == sget(pints(cv), k)
            by {
            if ml.len() <= k < cv.len() {
                assert(e_is_zero(cv[k]));
            }
        }
        assert(all_prime(ml, p));
        // the remainder side
        let rr = p_rem(f, g);
        assert(rr == if rs.len() == 0 {
            seq![z]
        } else {
            p_trim(rs)
        });
        if rs.len() > 0 {
            lemma_p_trim_basic(rs);
        }
        assert(all_prime(rr, p));
        assert forall|k: int| 0 <= k implies #[trigger] sget(pints(rr), k) == sget(pints(rs), k)
            by {
            if rs.len() == 0 {
                assert(pints(rr)[0] == 0);
            } else {
                if 0 <= k < p_trim(rs).len() {
                    assert(p_trim(rs)[k] == rs[k]);
                } else if k < rs.len() {
                    assert(e_is_zero(rs[k]));
                }
            }
        }
        // the sum of the two sides carries the dividend's residues
        let added = p_add(ml, rr);
        assert(ml.len() >= 1);
        assert(ml[0] is Prime && e_char(ml[0]) == p);
        assert(e_zero(ml[0]) == (ElemV::Prime { p, v: 0int }));
        assert(all_prime(added, p)) by {
            assert forall|k: int| 0 <= k < added.len() implies ((#[trigger] added[k]) is Prime
                && e_char(added[k]) == p && 0 <= added[k]->Prime_v < p) by {
                vstd::arithmetic::div_mod::lemma_mod_bound(
                    p_get(ml, k, e_zero(ml[0]))->Prime_v + p_get(rr, k, e_zero(ml[0]))->Prime_v,
                    p,
                );
            }
        }
        assert forall|k: int| 0 <= k implies #[trigger] sget(pints(added), k) == sget(pints(f), k)
            by {
            assert((sget(iconv(pints(qs), pints(gt), p), k) + sget(pints(rs), k)) % p == sget(
                pints(ft),
                k,
            ));
            if 0 <= k < added.len() {
                assert(sget(pints(ml), k) == p_get(ml, k, e_zero(ml[0]))->Prime_v);
                assert(sget(pints(rr), k) == p_get(rr, k, e_zero(ml[0]))->Prime_v);
                assert(pints(added)[k] == (sget(pints(ml), k) + sget(pints(rr), k)) % p);
            } else {
                assert(sget(pints(ml), k) == 0);
                assert(sget(pints(rr), k) == 0);
                lemma_small_mod(0, p as nat);
            }
        }
        assert(added.len() >= 1);
        lemma_p_trim_sget_equal(added, f, p);
        assert(p_trim(p_add(p_trim(p_conv(p_quot(f, g), g)), p_rem(f, g))) == p_trim(f));
    }
}

} // verus!
