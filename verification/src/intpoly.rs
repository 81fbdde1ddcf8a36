//! Coefficient vectors over a prime field, low degree first: the sequence
//! model (pointwise sums, convolution, reduction modulo a polynomial) and the
//! executable vector routines proved against it.

use vstd::prelude::*;
use vstd::arithmetic::div_mod::*;
use crate::arith::{char_ok, extended_euclidean, inv_mod, is_prime, mod_add, mod_mul, mod_sub};

verus! {

/// The mathematical value of a coefficient vector.
pub open spec fn iview(s: Seq<i32>) -> Seq<int> {
    Seq::new(s.len(), |i: int| s[i] as int)
}

/// The coefficient of degree `i`, zero beyond the stored length.
pub open spec fn sget(s: Seq<int>, i: int) -> int {
    if 0 <= i < s.len() {
        s[i]
    } else {
        0
    }
}

/// Every stored coefficient is a canonical residue mod `p`.
pub open spec fn in_range_all(s: Seq<int>, p: int) -> bool {
    forall|i: int| 0 <= i < s.len() ==> 0 <= #[trigger] s[i] < p
}

/// Canonical form: nonempty, and no trailing zero unless the sequence is
/// the single-entry zero polynomial.
pub open spec fn inorm(s: Seq<int>) -> bool {
    s.len() >= 1 && (s.len() == 1 || s.last() != 0)
}

/// Drop trailing zero coefficients, keeping at least one entry.
pub open spec fn itrim(s: Seq<int>) -> Seq<int>
    decreases s.len(),
{
    if s.len() <= 1 {
        s
    } else if s.last() == 0 {
        itrim(s.drop_last())
    } else {
        s
    }
}

/// Pointwise sum mod `p`, the shorter operand padded with zeros.
pub open spec fn iadd(f: Seq<int>, g: Seq<int>, p: int) -> Seq<int> {
    let n = if f.len() >= g.len() {
        f.len()
    } else {
        g.len()
    };
    Seq::new(n, |i: int| (sget(f, i) + sget(g, i)) % p)
}

/// Pointwise difference mod `p`, the shorter operand padded with zeros.
pub open spec fn isub(f: Seq<int>, g: Seq<int>, p: int) -> Seq<int> {
    let n = if f.len() >= g.len() {
        f.len()
    } else {
        g.len()
    };
    Seq::new(n, |i: int| (sget(f, i) - sget(g, i)) % p)
}

/// The convolution coefficient of degree `k`, accumulated over the products
/// `f[i] * g[k - i]` for `i < n`, folding into `[0, p)` at each step.
pub open spec fn icell(f: Seq<int>, g: Seq<int>, p: int, k: int, n: nat) -> int
    decreases n,
{
    if n == 0 {
        0
    } else {
        let acc = icell(f, g, p, k, (n - 1) as nat);
        let i = n - 1;
        if i < f.len() && 0 <= k - i < g.len() {
            (acc + f[i] * g[k - i]) % p
        } else {
            acc
        }
    }
}

/// Full schoolbook product of two nonempty coefficient vectors.
pub open spec fn iconv(f: Seq<int>, g: Seq<int>, p: int) -> Seq<int> {
    Seq::new((f.len() + g.len() - 1) as nat, |k: int| icell(f, g, p, k, f.len()))
}

/// One step of long division by `m`: cancel the leading coefficient of `w`
/// against the leading coefficient of `m` and drop the top entry.
pub open spec fn istep(w: Seq<int>, m: Seq<int>, p: int) -> Seq<int> {
    let q = (w.last() * inv_mod(p, m.last())) % p;
    let off = w.len() - m.len();
    Seq::new((w.len() - 1) as nat, |j: int| if j >= off {
        (w[j] - q * m[j - off]) % p
    } else {
        w[j]
    })
}

/// The residue of `w` modulo `m`: repeat `istep` until fewer entries than
/// `m` remain.
pub open spec fn ireduce(w: Seq<int>, m: Seq<int>, p: int) -> Seq<int>
    decreases w.len(),
{
    if m.len() == 0 || w.len() < m.len() {
        w
    } else {
        ireduce(istep(w, m, p), m, p)
    }
}

/// Trimming keeps a nonempty prefix of the input and yields canonical form.
pub proof fn lemma_itrim_basic(s: Seq<int>)
    requires
        s.len() >= 1,
    ensures
        1 <= itrim(s).len() <= s.len(),
        itrim(s) == s.take(itrim(s).len() as int),
        inorm(itrim(s)),
        forall|i: int| itrim(s).len() <= i < s.len() ==> #[trigger] s[i] == 0,
    decreases s.len(),
{
    if s.len() == 1 {
        assert(s.take(1) =~= s);
    } else if s.last() == 0 {
        lemma_itrim_basic(s.drop_last());
        assert(s.drop_last() =~= s.take(s.len() - 1));
        assert(s.drop_last().take(itrim(s).len() as int) =~= s.take(itrim(s).len() as int));
        assert forall|i: int| itrim(s).len() <= i < s.len() implies #[trigger] s[i] == 0 by {
            if i < s.len() - 1 {
                assert(s.drop_last()[i] == s[i]);
            }
        }
    } else {
        assert(s.take(s.len() as int) =~= s);
    }
}

/// A sequence already in canonical form is unchanged by trimming.
pub proof fn lemma_itrim_norm(s: Seq<int>)
    requires
        inorm(s),
    ensures
        itrim(s) == s,
{
}

/// Trimming preserves the residue range of the entries.
pub proof fn lemma_itrim_range(s: Seq<int>, p: int)
    requires
        s.len() >= 1,
        in_range_all(s, p),
    ensures
        in_range_all(itrim(s), p),
{
    lemma_itrim_basic(s);
    assert forall|i: int| 0 <= i < itrim(s).len() implies 0 <= #[trigger] itrim(s)[i] < p by {
        assert(itrim(s)[i] == s[i]);
    }
}

/// Every accumulated convolution coefficient is a canonical residue.
pub proof fn lemma_icell_range(f: Seq<int>, g: Seq<int>, p: int, k: int, n: nat)
    requires
        2 <= p,
    ensures
        0 <= icell(f, g, p, k, n) < p,
    decreases n,
{
    if n > 0 {
        lemma_icell_range(f, g, p, k, (n - 1) as nat);
        let i = n - 1;
        if i < f.len() && 0 <= k - i < g.len() {
            lemma_mod_bound(icell(f, g, p, k, (n - 1) as nat) + f[i] * g[k - i], p);
        }
    }
}

/// The length and range of a fully reduced vector.
pub proof fn lemma_ireduce_basic(w: Seq<int>, m: Seq<int>, p: int)
    requires
        2 <= p,
        m.len() >= 2,
        in_range_all(w, p),
    ensures
        ireduce(w, m, p).len() == if w.len() < m.len() {
            w.len() as int
        } else {
            m.len() - 1
        },
        in_range_all(ireduce(w, m, p), p),
    decreases w.len(),
{
    if w.len() >= m.len() {
        let w2 = istep(w, m, p);
        assert forall|i: int| 0 <= i < w2.len() implies 0 <= #[trigger] w2[i] < p by {
            if i >= w.len() - m.len() {
                lemma_mod_bound(w[i] - ((w.last() * inv_mod(p, m.last())) % p) * m[i - (w.len() - m.len())], p);
            }
        }
        lemma_ireduce_basic(w2, m, p);
    }
}

/// Pointwise sum of two residue vectors.
pub fn vadd_mod(p: u32, f: &Vec<i32>, g: &Vec<i32>) -> (r: Vec<i32>)
    requires
        char_ok(p as int),
        in_range_all(iview(f@), p as int),
        in_range_all(iview(g@), p as int),
    ensures
        iview(r@) == iadd(iview(f@), iview(g@), p as int),
        in_range_all(iview(r@), p as int),
{
    let ghost sf = iview(f@);
    let ghost sg = iview(g@);
    let ghost pp = p as int;
    let n = if f.len() >= g.len() {
        f.len()
    } else {
        g.len()
    };
    let mut r: Vec<i32> = Vec::new();
    for i in 0..n
        invariant
            char_ok(pp),
            pp == p as int,
            sf == iview(f@),
            sg == iview(g@),
            in_range_all(sf, pp),
            in_range_all(sg, pp),
            n == if sf.len() >= sg.len() {
                sf.len()
            } else {
                sg.len()
            },
            r@.len() == i,
            forall|j: int| 0 <= j < i ==> iview(r@)[j] == #[trigger] iadd(sf, sg, pp)[j],
    {
        let ghost r_prev = r@;
        proof {
            if i < f@.len() {
                assert(0 <= sf[i as int] < pp);
            }
            if i < g@.len() {
                assert(0 <= sg[i as int] < pp);
            }
        }
        let a: i32 = if i < f.len() {
            f[i]
        } else {
            0
        };
        let b: i32 = if i < g.len() {
            g[i]
        } else {
            0
        };
        r.push(mod_add(p, a, b));
        proof {
            assert forall|j: int| 0 <= j < i + 1 implies iview(r@)[j] == #[trigger] iadd(
                sf,
                sg,
                pp,
            )[j] by {
                if j < i {
                    assert(r@[j] == r_prev[j]);
                    assert(iview(r_prev)[j] == iadd(sf, sg, pp)[j]);
                } else {
                    assert(iview(r@)[j] == (sget(sf, j) + sget(sg, j)) % pp);
                }
            }
        }
    }
    proof {
        assert(iview(r@) =~= iadd(sf, sg, pp));
    }
    r
}

/// Pointwise difference of two residue vectors.
pub fn vsub_mod(p: u32, f: &Vec<i32>, g: &Vec<i32>) -> (r: Vec<i32>)
    requires
        char_ok(p as int),
        in_range_all(iview(f@), p as int),
        in_range_all(iview(g@), p as int),
    ensures
        iview(r@) == isub(iview(f@), iview(g@), p as int),
        in_range_all(iview(r@), p as int),
{
    let ghost sf = iview(f@);
    let ghost sg = iview(g@);
    let ghost pp = p as int;
    let n = if f.len() >= g.len() {
        f.len()
    } else {
        g.len()
    };
    let mut r: Vec<i32> = Vec::new();
    for i in 0..n
        invariant
            char_ok(pp),
            pp == p as int,
            sf == iview(f@),
            sg == iview(g@),
            in_range_all(sf, pp),
            in_range_all(sg, pp),
            n == if sf.len() >= sg.len() {
                sf.len()
            } else {
                sg.len()
            },
            r@.len() == i,
            forall|j: int| 0 <= j < i ==> iview(r@)[j] == #[trigger] isub(sf, sg, pp)[j],
    {
        let ghost r_prev = r@;
        proof {
            if i < f@.len() {
                assert(0 <= sf[i as int] < pp);
            }
            if i < g@.len() {
                assert(0 <= sg[i as int] < pp);
            }
        }
        let a: i32 = if i < f.len() {
            f[i]
        } else {
            0
        };
        let b: i32 = if i < g.len() {
            g[i]
        } else {
            0
        };
        r.push(mod_sub(p, a, b));
        proof {
            assert forall|j: int| 0 <= j < i + 1 implies iview(r@)[j] == #[trigger] isub(
                sf,
                sg,
                pp,
            )[j] by {
                if j < i {
                    assert(r@[j] == r_prev[j]);
                    assert(iview(r_prev)[j] == isub(sf, sg, pp)[j]);
                } else {
                    assert(iview(r@)[j] == (sget(sf, j) - sget(sg, j)) % pp);
                }
            }
        }
    }
    proof {
        assert(iview(r@) =~= isub(sf, sg, pp));
    }
    r
}

/// Drop trailing zero coefficients, keeping at least one entry.
pub fn vtrim_i(f: &Vec<i32>) -> (r: Vec<i32>)
    requires
        f@.len() >= 1,
    ensures
        iview(r@) == itrim(iview(f@)),
{
    let mut n: usize = f.len();
    proof {
        assert(iview(f@).take(iview(f@).len() as int) =~= iview(f@));
    }
    while n > 1 && f[n - 1] == 0
        invariant
            1 <= n <= f@.len(),
            itrim(iview(f@)) == itrim(iview(f@).take(n as int)),
        decreases n,
    {
        proof {
            let s = iview(f@).take(n as int);
            assert(s.last() == iview(f@)[n - 1]);
            assert(s.last() == 0);
            assert(s.drop_last() =~= iview(f@).take(n - 1));
        }
        n = n - 1;
    }
    proof {
        let s = iview(f@).take(n as int);
        if n > 1 {
            assert(s.last() == iview(f@)[n - 1]);
            assert(s.last() != 0);
        }
        assert(itrim(s) == s);
    }
    let mut r: Vec<i32> = Vec::new();
    for i in 0..n
        invariant
            n <= f@.len(),
            r@.len() == i,
            forall|j: int| 0 <= j < i ==> r@[j] == f@[j],
    {
        let ghost r_prev = r@;
        r.push(f[i]);
        proof {
            assert(forall|j: int| 0 <= j < i ==> r@[j] == r_prev[j]);
        }
    }
    proof {
        assert(iview(r@) =~= iview(f@).take(n as int));
    }
    r
}

/// Schoolbook product of two residue vectors.
#[verifier::rlimit(50)]
pub fn vconv_mod(p: u32, f: &Vec<i32>, g: &Vec<i32>) -> (r: Vec<i32>)
    requires
        char_ok(p as int),
        in_range_all(iview(f@), p as int),
        in_range_all(iview(g@), p as int),
        1 <= f@.len(),
        1 <= g@.len(),
        f@.len() + g@.len() <= 0xffff_ffff,
    ensures
        iview(r@) == iconv(iview(f@), iview(g@), p as int),
        in_range_all(iview(r@), p as int),
        r@.len() == f@.len() + g@.len() - 1,
{
    let ghost sf = iview(f@);
    let ghost sg = iview(g@);
    let ghost pp = p as int;
    let n = f.len() + g.len() - 1;
    let mut r: Vec<i32> = Vec::new();
    for k in 0..n
        invariant
            r@.len() == k,
            forall|j: int| 0 <= j < k ==> iview(r@)[j] == 0,
    {
        let ghost r_prev = r@;
        r.push(0);
        proof {
            assert forall|j: int| 0 <= j < k + 1 implies iview(r@)[j] == 0 by {
                if j < k {
                    assert(r@[j] == r_prev[j]);
                    assert(iview(r_prev)[j] == 0);
                } else {
                    assert(r@[j] == 0i32);
                }
            }
        }
    }
    let mut i: usize = 0;
    while i < f.len()
        invariant
            char_ok(pp),
            pp == p as int,
            sf == iview(f@),
            sg == iview(g@),
            in_range_all(sf, pp),
            in_range_all(sg, pp),
            1 <= sg.len(),
            i <= sf.len(),
            n == sf.len() + sg.len() - 1,
            r@.len() == n,
            forall|k: int| 0 <= k < n ==> iview(r@)[k] == #[trigger] icell(sf, sg, pp, k, i as nat),
        decreases f@.len() - i,
    {
        for j in 0..g.len()
            invariant
                char_ok(pp),
                pp == p as int,
                sf == iview(f@),
                sg == iview(g@),
                in_range_all(sf, pp),
                in_range_all(sg, pp),
                i < sf.len(),
                n == sf.len() + sg.len() - 1,
                r@.len() == n,
                forall|k: int|
                    i as int <= k < i as int + j as int ==> iview(r@)[k] == #[trigger] icell(sf, sg, pp, k, (i + 1) as nat),
                forall|k: int|
                    0 <= k < n && !(i as int <= k < i as int + j as int) ==> iview(r@)[k] == #[trigger] icell(sf, sg, pp, k, i as nat),
        {
            let ghost r_old = r@;
            let c = i + j;
            proof {
                lemma_icell_range(sf, sg, pp, c as int, i as nat);
                assert(0 <= sf[i as int] < pp);
                assert(0 <= sg[j as int] < pp);
                assert(iview(r@)[c as int] == icell(sf, sg, pp, c as int, i as nat));
            }
            let t = mod_mul(p, f[i], g[j]);
            r[c] = mod_add(p, r[c], t);
            proof {
                lemma_add_mod_noop_right(
                    icell(sf, sg, pp, c as int, i as nat),
                    sf[i as int] * sg[j as int],
                    pp,
                );
                assert(iview(r@)[c as int] == (icell(sf, sg, pp, c as int, i as nat) + sf[i as int]
                    * sg[j as int]) % pp);
                assert(iview(r@)[c as int] == icell(sf, sg, pp, c as int, (i + 1) as nat));
                assert forall|k: int|
                    i as int <= k < i as int + j as int + 1 implies iview(r@)[k] == #[trigger] icell(sf, sg, pp, k, (i + 1) as nat) by {
                    if k != c {
                        assert(r@[k] == r_old[k]);
                        assert(iview(r@)[k] == iview(r_old)[k]);
                    }
                }
                assert forall|k: int|
                    0 <= k < n && !(i as int <= k < i as int + j as int + 1) implies iview(r@)[k] == #[trigger] icell(sf, sg, pp, k, i as nat) by {
                    assert(r@[k] == r_old[k]);
                    assert(iview(r@)[k] == iview(r_old)[k]);
                }
            }
        }
        proof {
            assert forall|k: int| 0 <= k < n implies iview(r@)[k] == #[trigger] icell(
                sf,
                sg,
                pp,
                k,
                (i + 1) as nat,
            ) by {
                if !(i <= k < i + sg.len()) {
                    assert(icell(sf, sg, pp, k, (i + 1) as nat) == icell(sf, sg, pp, k, i as nat));
                }
            }
        }
        i = i + 1;
        proof {
            assert forall|k: int| 0 <= k < n implies iview(r@)[k] == #[trigger] icell(
                sf,
                sg,
                pp,
                k,
                i as nat,
            ) by {
                assert(iview(r@)[k] == icell(sf, sg, pp, k, (i - 1 + 1) as nat));
            }
        }
    }
    proof {
        assert(iview(r@) =~= iconv(sf, sg, pp));
        assert forall|k: int| 0 <= k < n implies 0 <= #[trigger] iview(r@)[k] < pp by {
            lemma_icell_range(sf, sg, pp, k, sf.len());
        }
    }
    r
}

/// The residue of `w` modulo the polynomial `m`, by in-place long division.
#[verifier::rlimit(50)]
pub fn vred_mod(p: u32, w0: &Vec<i32>, m: &Vec<i32>) -> (r: Vec<i32>)
    requires
        char_ok(p as int),
        is_prime(p as int),
        in_range_all(iview(w0@), p as int),
        in_range_all(iview(m@), p as int),
        m@.len() >= 2,
        iview(m@).last() != 0,
    ensures
        iview(r@) == ireduce(iview(w0@), iview(m@), p as int),
        in_range_all(iview(r@), p as int),
{
    let ghost sm = iview(m@);
    let ghost pp = p as int;
    let mut w: Vec<i32> = Vec::new();
    for i in 0..w0.len()
        invariant
            w@.len() == i,
            forall|j: int| 0 <= j < i ==> w@[j] == w0@[j],
    {
        let ghost w_prev = w@;
        w.push(w0[i]);
        proof {
            assert(forall|j: int| 0 <= j < i ==> w@[j] == w_prev[j]);
        }
    }
    proof {
        assert(iview(w@) =~= iview(w0@));
    }
    let mlen = m.len();
    while w.len() >= mlen
        invariant
            char_ok(pp),
            pp == p as int,
            is_prime(pp),
            sm == iview(m@),
            in_range_all(sm, pp),
            mlen == sm.len(),
            sm.len() >= 2,
            sm.last() != 0,
            in_range_all(iview(w@), pp),
            ireduce(iview(w0@), sm, pp) == ireduce(iview(w@), sm, pp),
        decreases w@.len(),
    {
        let ghost w_in = iview(w@);
        let wl = w.len();
        let mtop = m[mlen - 1];
        proof {
            assert(sm.last() == sm[mlen - 1]);
            assert(0 <= sm[mlen - 1] < pp);
            assert(0 <= iview(w@)[wl - 1] < pp);
        }
        let tinv = extended_euclidean(p, mtop as u32);
        let q = mod_mul(p, w[wl - 1], tinv as i32);
        proof {
            assert(q as int == (w_in.last() * inv_mod(pp, sm.last())) % pp);
        }
        let off = wl - mlen;
        for j in 0..mlen
            invariant
                char_ok(pp),
                pp == p as int,
                sm == iview(m@),
                in_range_all(sm, pp),
                mlen == sm.len(),
                w@.len() == wl,
                wl >= mlen,
                off == wl - mlen,
                w_in.len() == wl,
                in_range_all(iview(w@), pp),
                0 <= (q as int) < pp,
                forall|k: int| 0 <= k < wl && !(off <= k < off + j) ==> iview(w@)[k] == w_in[k],
                forall|k: int|
                    off <= k < off + j ==> iview(w@)[k] == (w_in[k] - (q as int) * sm[k - off])
                        % pp,
        {
            let ghost w_old = iview(w@);
            let c = off + j;
            proof {
                assert(0 <= sm[j as int] < pp);
                assert(0 <= iview(w@)[c as int] < pp);
            }
            let t = mod_mul(p, q, m[j]);
            w[c] = mod_sub(p, w[c], t);
            proof {
                lemma_sub_mod_noop_right(w_old[c as int], (q as int) * sm[j as int], pp);
                assert(w_old[c as int] == w_in[c as int]);
                assert(iview(w@)[c as int] == (w_in[c as int] - (q as int) * sm[j as int]) % pp);
                assert forall|k: int|
                    0 <= k < wl && !(off <= k < off + j + 1) implies iview(w@)[k] == w_in[k] by {
                    assert(w@[k] == w@.update(c as int, w@[c as int])[k]);
                    assert(iview(w@)[k] == w_old[k]);
                }
                assert forall|k: int|
                    off <= k < off + j + 1 implies iview(w@)[k] == (w_in[k] - (q as int) * sm[k
                    - off]) % pp by {
                    if k != c {
                        assert(iview(w@)[k] == w_old[k]);
                    }
                }
                assert forall|k: int| 0 <= k < wl implies 0 <= #[trigger] iview(w@)[k] < pp by {
                    if k != c {
                        assert(iview(w@)[k] == w_old[k]);
                        assert(0 <= w_old[k] < pp);
                    }
                }
            }
        }
        let ghost w_sub = iview(w@);
        w.pop();
        proof {
            assert forall|k: int| 0 <= k < wl - 1 implies iview(w@)[k] == istep(w_in, sm, pp)[k]
                by {
                assert(iview(w@)[k] == w_sub[k]);
            }
            assert(iview(w@) =~= istep(w_in, sm, pp));
            assert(ireduce(w_in, sm, pp) == ireduce(iview(w@), sm, pp));
            assert forall|k: int| 0 <= k < wl - 1 implies 0 <= #[trigger] iview(w@)[k] < pp by {
                assert(iview(w@)[k] == w_sub[k]);
                assert(0 <= w_sub[k] < pp);
            }
        }
    }
    w
}


/// A vector of zero coefficients trims to the single zero coefficient.
pub proof fn lemma_itrim_zeros(s: Seq<int>)
    requires
        s.len() >= 1,
        forall|i: int| 0 <= i < s.len() ==> #[trigger] s[i] == 0,
    ensures
        itrim(s) == seq![0int],
{
    lemma_itrim_basic(s);
    if itrim(s).len() > 1 {
        assert(itrim(s).last() == s[itrim(s).len() - 1]);
    }
    assert(itrim(s) =~= seq![0int]);
}

/// A padding of trailing zeros does not change what trimming yields.
pub proof fn lemma_itrim_pad(u: Seq<int>, v: Seq<int>)
    requires
        1 <= u.len() <= v.len(),
        v.take(u.len() as int) == u,
        forall|i: int| u.len() <= i < v.len() ==> #[trigger] v[i] == 0,
    ensures
        itrim(v) == itrim(u),
    decreases v.len(),
{
    if v.len() == u.len() {
        assert(v =~= u);
    } else {
        assert(v.last() == 0);
        assert(v.drop_last().take(u.len() as int) =~= v.take(u.len() as int));
        assert forall|i: int| u.len() <= i < v.len() - 1 implies #[trigger] v.drop_last()[i] == 0
            by {
            assert(v.drop_last()[i] == v[i]);
        }
        lemma_itrim_pad(u, v.drop_last());
    }
}

} // verus!
