//! Polynomials over a finite field: an ordered coefficient vector, lowest
//! degree first. The sequence model of each operation (coefficient-wise sums,
//! convolution, long division, the Euclidean greatest common divisor,
//! evaluation, and the primitive-polynomial search) and the executable
//! methods proved against it.

use vstd::prelude::*;
use vstd::arithmetic::power::pow;
use crate::arith::{change_base_from10_to_n, char_ok, is_prime, pow_u64};
use crate::element::{
    compat, e_char, dup_elem, e_add, e_div, e_is_one, e_is_zero, e_mul, e_one, e_pow, e_sub, e_zero, ev_wf,
    lemma_e_add_wf, lemma_e_add_zero, lemma_e_div_wf, lemma_e_sub_zero, lemma_e_identity_wf, lemma_e_mul_wf,
    lemma_e_sub_wf, same_field, ElemV, Element, FieldError, FiniteField,
};

verus! {

/// Polynomial over a finite field. Either prime-field or extension-field
/// elements can be used as coefficients.
#[derive(Debug)]
pub struct Polynomial {
    pub coef: Vec<FiniteField>,
}

/// The mathematical values of a coefficient vector.
pub open spec fn pv(s: Seq<FiniteField>) -> Seq<ElemV> {
    Seq::new(s.len(), |i: int| s[i]@)
}

impl View for Polynomial {
    type V = Seq<ElemV>;

    open spec fn view(&self) -> Seq<ElemV> {
        pv(self.coef@)
    }
}

/// A well-formed coefficient model: nonempty, every coefficient well
/// formed, and all in one field.
pub open spec fn ps_wf(s: Seq<ElemV>) -> bool {
    &&& s.len() >= 1
    &&& forall|i: int| 0 <= i < s.len() ==> ev_wf(#[trigger] s[i])
    &&& forall|i: int| 0 <= i < s.len() ==> compat(s[0], #[trigger] s[i])
}

impl Polynomial {
    /// Well-formed representation: nonempty, every stored coefficient well
    /// formed, and all coefficients in one field.
    pub open spec fn wf(self) -> bool {
        &&& self.coef@.len() >= 1
        &&& forall|i: int| 0 <= i < self.coef@.len() ==> (#[trigger] self.coef@[i]).wf()
        &&& ps_wf(self@)
    }
}

/// Every coefficient is the zero of its field.
pub open spec fn p_all_zero(s: Seq<ElemV>) -> bool {
    forall|i: int| 0 <= i < s.len() ==> e_is_zero(#[trigger] s[i])
}

/// Drop trailing zero coefficients, keeping at least one.
pub open spec fn p_trim(s: Seq<ElemV>) -> Seq<ElemV>
    decreases s.len(),
{
    if s.len() <= 1 {
        s
    } else if e_is_zero(s.last()) {
        p_trim(s.drop_last())
    } else {
        s
    }
}

/// The coefficient of degree `i`, the field zero beyond the stored length.
pub open spec fn p_get(s: Seq<ElemV>, i: int, z: ElemV) -> ElemV {
    if 0 <= i < s.len() {
        s[i]
    } else {
        z
    }
}

/// Coefficient-wise sum, the shorter operand padded with the field zero.
pub open spec fn p_add(f: Seq<ElemV>, g: Seq<ElemV>) -> Seq<ElemV> {
    let z = e_zero(f[0]);
    let n = if f.len() >= g.len() {
        f.len()
    } else {
        g.len()
    };
    Seq::new(n, |i: int| e_add(p_get(f, i, z), p_get(g, i, z)))
}

/// Coefficient-wise difference, the shorter operand padded with the field
/// zero.
pub open spec fn p_sub(f: Seq<ElemV>, g: Seq<ElemV>) -> Seq<ElemV> {
    let z = e_zero(f[0]);
    let n = if f.len() >= g.len() {
        f.len()
    } else {
        g.len()
    };
    Seq::new(n, |i: int| e_sub(p_get(f, i, z), p_get(g, i, z)))
}

/// The convolution coefficient of degree `k`, accumulated over the products
/// `f[i] * g[k - i]` for `i < n`.
pub open spec fn p_cell(f: Seq<ElemV>, g: Seq<ElemV>, k: int, n: nat) -> ElemV
    decreases n,
{
    if n == 0 {
        e_zero(f[0])
    } else {
        let acc = p_cell(f, g, k, (n - 1) as nat);
        let i = n - 1;
        if i < f.len() && 0 <= k - i < g.len() {
            e_add(acc, e_mul(f[i], g[k - i]))
        } else {
            acc
        }
    }
}

/// The full schoolbook product of two nonempty coefficient sequences.
pub open spec fn p_conv(f: Seq<ElemV>, g: Seq<ElemV>) -> Seq<ElemV> {
    Seq::new((f.len() + g.len() - 1) as nat, |k: int| p_cell(f, g, k, f.len()))
}

/// One step of polynomial long division: cancel the leading coefficient of
/// `w` against the leading coefficient of `g` and drop the top entry.
pub open spec fn p_step(w: Seq<ElemV>, g: Seq<ElemV>) -> Seq<ElemV> {
    let q = e_div(w.last(), g.last());
    let off = w.len() - g.len();
    Seq::new((w.len() - 1) as nat, |j: int| if j >= off {
        e_sub(w[j], e_mul(q, g[j - off]))
    } else {
        w[j]
    })
}

/// Long division of `w` by `g`, both already trimmed: the quotient
/// (lowest degree first) and what is left of the dividend.
pub open spec fn p_divrem(w: Seq<ElemV>, g: Seq<ElemV>) -> (Seq<ElemV>, Seq<ElemV>)
    decreases w.len(),
{
    if g.len() == 0 || w.len() < g.len() {
        (Seq::empty(), w)
    } else {
        let q = e_div(w.last(), g.last());
        let sub = p_divrem(p_step(w, g), g);
        (sub.0.push(q), sub.1)
    }
}

/// The quotient of two polynomials: the zero polynomial when the dividend
/// has lower degree, else the trimmed quotient of long division.
pub open spec fn p_quot(f: Seq<ElemV>, g: Seq<ElemV>) -> Seq<ElemV> {
    let ft = p_trim(f);
    let gt = p_trim(g);
    if ft.len() < gt.len() {
        seq![e_zero(f[0])]
    } else {
        p_trim(p_divrem(ft, gt).0)
    }
}

/// The remainder of two polynomials: the trimmed dividend when it has lower
/// degree, else the trimmed rest of long division.
pub open spec fn p_rem(f: Seq<ElemV>, g: Seq<ElemV>) -> Seq<ElemV> {
    let ft = p_trim(f);
    let gt = p_trim(g);
    if ft.len() < gt.len() {
        ft
    } else {
        let r = p_divrem(ft, gt).1;
        if r.len() == 0 {
            seq![e_zero(f[0])]
        } else {
            p_trim(r)
        }
    }
}

/// Trimming keeps a nonempty prefix, and what it drops is zero.
pub proof fn lemma_p_trim_basic(s: Seq<ElemV>)
    requires
        s.len() >= 1,
    ensures
        1 <= p_trim(s).len() <= s.len(),
        p_trim(s) == s.take(p_trim(s).len() as int),
        p_trim(s).len() == 1 || !e_is_zero(p_trim(s).last()),
        forall|i: int| p_trim(s).len() <= i < s.len() ==> e_is_zero(#[trigger] s[i]),
    decreases s.len(),
{
    if s.len() == 1 {
        assert(s.take(1) =~= s);
    } else if e_is_zero(s.last()) {
        lemma_p_trim_basic(s.drop_last());
        assert(s.drop_last() =~= s.take(s.len() - 1));
        assert(s.drop_last().take(p_trim(s).len() as int) =~= s.take(p_trim(s).len() as int));
        assert forall|i: int| p_trim(s).len() <= i < s.len() implies e_is_zero(#[trigger] s[i]) by {
            if i < s.len() - 1 {
                assert(s.drop_last()[i] == s[i]);
            }
        }
    } else {
        assert(s.take(s.len() as int) =~= s);
    }
}

/// A sequence with a nonzero last coefficient (or a single coefficient) is
/// unchanged by trimming.
pub proof fn lemma_p_trim_norm(s: Seq<ElemV>)
    requires
        s.len() >= 1,
        s.len() == 1 || !e_is_zero(s.last()),
    ensures
        p_trim(s) == s,
{
}

/// Trimming keeps well-formedness.
pub proof fn lemma_p_trim_wf(s: Seq<ElemV>)
    requires
        ps_wf(s),
    ensures
        ps_wf(p_trim(s)),
    decreases s.len(),
{
    lemma_p_trim_basic(s);
    assert forall|i: int| 0 <= i < p_trim(s).len() implies ev_wf(#[trigger] p_trim(s)[i]) by {
        assert(p_trim(s)[i] == s[i]);
    }
    assert forall|i: int| 0 <= i < p_trim(s).len() implies compat(p_trim(s)[0], #[trigger] p_trim(s)[i]) by {
        assert(p_trim(s)[i] == s[i]);
        assert(p_trim(s)[0] == s[0]);
    }
}

/// Drop trailing zero coefficients of a stored vector, keeping at least one.
pub(crate) fn vtrim_ff(f: &Vec<FiniteField>) -> (r: Vec<FiniteField>)
    requires
        f@.len() >= 1,
        forall|i: int| 0 <= i < f@.len() ==> (#[trigger] f@[i]).wf(),
    ensures
        pv(r@) == p_trim(pv(f@)),
        forall|i: int| 0 <= i < r@.len() ==> (#[trigger] r@[i]).wf(),
        r@.len() >= 1,
{
    let ghost s = pv(f@);
    let mut n: usize = f.len();
    proof {
        assert(s.take(s.len() as int) =~= s);
    }
    while n > 1 && f[n - 1].is_0()
        invariant
            1 <= n <= f@.len(),
            s == pv(f@),
            p_trim(s) == p_trim(s.take(n as int)),
        decreases n,
    {
        proof {
            let t = s.take(n as int);
            assert(t.last() == s[n - 1]);
            assert(e_is_zero(t.last()));
            assert(t.drop_last() =~= s.take(n - 1));
        }
        n = n - 1;
    }
    proof {
        let t = s.take(n as int);
        if n > 1 {
            assert(t.last() == s[n - 1]);
            assert(!e_is_zero(t.last()));
        }
        assert(p_trim(t) == t);
    }
    let mut r: Vec<FiniteField> = Vec::new();
    for i in 0..n
        invariant
            n <= f@.len(),
            forall|j: int| 0 <= j < f@.len() ==> (#[trigger] f@[j]).wf(),
            r@.len() == i,
            forall|j: int| 0 <= j < i ==> (#[trigger] r@[j])@ == f@[j]@ && r@[j].wf(),
    {
        let ghost r_prev = r@;
        r.push(dup_elem(&f[i]));
        proof {
            assert(forall|j: int| 0 <= j < i ==> r@[j] == r_prev[j]);
        }
    }
    proof {
        assert(pv(r@) =~= pv(f@).take(n as int));
    }
    r
}

impl Polynomial {
    /// Normalize the coefficient vector: drop trailing zero coefficients,
    /// keeping at least one, so the zero polynomial stays `[0]`.
    pub fn adjust_func(&self) -> (r: Polynomial)
        requires
            self.wf(),
        ensures
            r@ == p_trim(self@),
            r.wf(),
    {
        proof {
            lemma_p_trim_wf(self@);
        }
        Polynomial { coef: vtrim_ff(&self.coef) }
    }

    /// Coefficient-wise sum of two polynomials over the same field, with
    /// the result normalized; `DomainMismatch` if the fields differ.
    pub fn add(&self, other: &Polynomial) -> (r: Result<Polynomial, FieldError>)
        requires
            self.wf(),
            other.wf(),
        ensures
            (r is Ok <==> compat(self@[0], other@[0])),
            r is Ok ==> (r->Ok_0)@ == p_trim(p_add(self@, other@)) && (r->Ok_0).wf(),
            r is Err ==> r->Err_0 == FieldError::DomainMismatch,
    {
        if !same_field(&self.coef[0], &other.coef[0]) {
            return Err(FieldError::DomainMismatch);
        }
        let ghost sf = self@;
        let ghost sg = other@;
        let n1 = self.coef.len();
        let n2 = other.coef.len();
        let n = if n1 >= n2 {
            n1
        } else {
            n2
        };
        let mut out: Vec<FiniteField> = Vec::new();
        for i in 0..n
            invariant
                self.wf(),
                other.wf(),
                sf == self@,
                sg == other@,
                compat(sf[0], sg[0]),
                n1 == sf.len(),
                n2 == sg.len(),
                n == if n1 >= n2 {
                    n1
                } else {
                    n2
                },
                out@.len() == i,
                forall|j: int|
                    0 <= j < i ==> (#[trigger] out@[j])@ == p_add(sf, sg)[j] && out@[j].wf(),
        {
            let ghost out_prev = out@;
            let c: FiniteField = if i < n1 && i < n2 {
                proof {
                    assert(compat(self.coef@[i as int]@, other.coef@[i as int]@));
                }
                self.coef[i].add_raw(&other.coef[i])
            } else if i < n1 {
                proof {
                    assert(ev_wf(sf[i as int]));
                    lemma_e_add_zero(sf[i as int]);
                    assert(e_zero(sf[i as int]) == e_zero(sf[0]));
                }
                dup_elem(&self.coef[i])
            } else {
                proof {
                    assert(ev_wf(sg[i as int]));
                    lemma_e_add_zero(sg[i as int]);
                    assert(e_zero(sg[i as int]) == e_zero(sf[0]));
                }
                dup_elem(&other.coef[i])
            };
            out.push(c);
            proof {
                assert(forall|j: int| 0 <= j < i ==> out@[j] == out_prev[j]);
                assert(out@[i as int]@ == p_add(sf, sg)[i as int]);
            }
        }
        proof {
            assert(pv(out@) =~= p_add(sf, sg));
            assert forall|i: int| 0 <= i < p_add(sf, sg).len() implies ev_wf(
                #[trigger] p_add(sf, sg)[i],
            ) && compat(p_add(sf, sg)[0], p_add(sf, sg)[i]) by {
                assert(p_add(sf, sg)[i] == out@[i]@);
                assert(p_add(sf, sg)[0] == out@[0]@);
                let z = e_zero(sf[0]);
                lemma_e_identity_wf(sf[0]);
                lemma_e_add_wf(p_get(sf, i, z), p_get(sg, i, z));
                lemma_e_add_wf(p_get(sf, 0, z), p_get(sg, 0, z));
            }
            lemma_p_trim_wf(p_add(sf, sg));
        }
        let t = vtrim_ff(&out);
        Ok(Polynomial { coef: t })
    }

    /// Coefficient-wise difference of two polynomials over the same field,
    /// with the result normalized; `DomainMismatch` if the fields differ.
    pub fn sub(&self, other: &Polynomial) -> (r: Result<Polynomial, FieldError>)
        requires
            self.wf(),
            other.wf(),
        ensures
            (r is Ok <==> compat(self@[0], other@[0])),
            r is Ok ==> (r->Ok_0)@ == p_trim(p_sub(self@, other@)) && (r->Ok_0).wf(),
            r is Err ==> r->Err_0 == FieldError::DomainMismatch,
    {
        if !same_field(&self.coef[0], &other.coef[0]) {
            return Err(FieldError::DomainMismatch);
        }
        let ghost sf = self@;
        let ghost sg = other@;
        let n1 = self.coef.len();
        let n2 = other.coef.len();
        let n = if n1 >= n2 {
            n1
        } else {
            n2
        };
        let mut out: Vec<FiniteField> = Vec::new();
        for i in 0..n
            invariant
                self.wf(),
                other.wf(),
                sf == self@,
                sg == other@,
                compat(sf[0], sg[0]),
                n1 == sf.len(),
                n2 == sg.len(),
                n == if n1 >= n2 {
                    n1
                } else {
                    n2
                },
                out@.len() == i,
                forall|j: int|
                    0 <= j < i ==> (#[trigger] out@[j])@ == p_sub(sf, sg)[j] && out@[j].wf(),
        {
            let ghost out_prev = out@;
            let c: FiniteField = if i < n2 {
                let a: FiniteField = if i < n1 {
                    dup_elem(&self.coef[i])
                } else {
                    proof {
                        assert(compat(sg[0], sg[i as int]));
                        assert(compat(sf[0], sg[i as int]));
                    }
                    other.coef[i].get_0()
                };
                proof {
                    assert(compat(sg[0], sg[i as int]));
                    if i < n1 {
                        assert(compat(sf[0], sf[i as int]));
                    } else {
                        assert(e_zero(sg[i as int]) == e_zero(sf[0]));
                    }
                    assert(a@ == p_get(sf, i as int, e_zero(sf[0])));
                    assert(compat(a@, other.coef@[i as int]@));
                }
                a.sub_raw(&other.coef[i])
            } else {
                proof {
                    assert(ev_wf(sf[i as int]));
                    lemma_e_sub_zero(sf[i as int]);
                    assert(e_zero(sf[i as int]) == e_zero(sf[0]));
                }
                dup_elem(&self.coef[i])
            };
            out.push(c);
            proof {
                assert(forall|j: int| 0 <= j < i ==> out@[j] == out_prev[j]);
                assert(out@[i as int]@ == p_sub(sf, sg)[i as int]);
            }
        }
        proof {
            assert(pv(out@) =~= p_sub(sf, sg));
            assert forall|i: int| 0 <= i < p_sub(sf, sg).len() implies ev_wf(
                #[trigger] p_sub(sf, sg)[i],
            ) && compat(p_sub(sf, sg)[0], p_sub(sf, sg)[i]) by {
                assert(p_sub(sf, sg)[i] == out@[i]@);
                assert(p_sub(sf, sg)[0] == out@[0]@);
                let z = e_zero(sf[0]);
                lemma_e_identity_wf(sf[0]);
                lemma_e_sub_wf(p_get(sf, i, z), p_get(sg, i, z));
                lemma_e_sub_wf(p_get(sf, 0, z), p_get(sg, 0, z));
            }
            lemma_p_trim_wf(p_sub(sf, sg));
        }
        let t = vtrim_ff(&out);
        Ok(Polynomial { coef: t })
    }
}


/// Every accumulated convolution coefficient is well formed and lives in
/// the field of `f`.
pub proof fn lemma_p_cell_wf(f: Seq<ElemV>, g: Seq<ElemV>, k: int, n: nat)
    requires
        ps_wf(f),
        ps_wf(g),
        compat(f[0], g[0]),
    ensures
        ev_wf(p_cell(f, g, k, n)),
        compat(f[0], p_cell(f, g, k, n)),
    decreases n,
{
    if n == 0 {
        lemma_e_identity_wf(f[0]);
    } else {
        lemma_p_cell_wf(f, g, k, (n - 1) as nat);
        let acc = p_cell(f, g, k, (n - 1) as nat);
        let i = n - 1;
        if i < f.len() && 0 <= k - i < g.len() {
            assert(compat(f[0], f[i as int]));
            assert(compat(g[0], g[k - i]));
            assert(compat(f[i as int], g[k - i]));
            lemma_e_mul_wf(f[i as int], g[k - i]);
            assert(compat(acc, e_mul(f[i as int], g[k - i])));
            lemma_e_add_wf(acc, e_mul(f[i as int], g[k - i]));
        }
    }
}

impl Polynomial {
    /// The product of two polynomials over the same field by schoolbook
    /// convolution, with the result normalized and reduced coefficient-wise;
    /// `DomainMismatch` if the fields differ.
    #[verifier::rlimit(50)]
    pub fn mul(&self, other: &Polynomial) -> (r: Result<Polynomial, FieldError>)
        requires
            self.wf(),
            other.wf(),
            is_prime(e_char(self@[0])),
            self.coef@.len() + other.coef@.len() <= 0xffff_ffff,
        ensures
            (r is Ok <==> compat(self@[0], other@[0])),
            r is Ok ==> (r->Ok_0)@ == p_trim(p_conv(self@, other@)) && (r->Ok_0).wf(),
            r is Err ==> r->Err_0 == FieldError::DomainMismatch,
    {
        if !same_field(&self.coef[0], &other.coef[0]) {
            return Err(FieldError::DomainMismatch);
        }
        let ghost sf = self@;
        let ghost sg = other@;
        let n1 = self.coef.len();
        let n2 = other.coef.len();
        let n = n1 + n2 - 1;
        let mut out: Vec<FiniteField> = Vec::new();
        for k in 0..n
            invariant
                self.wf(),
                sf == self@,
                sg == other@,
                out@.len() == k,
                forall|j: int|
                    0 <= j < k ==> (#[trigger] out@[j])@ == e_zero(sf[0]) && out@[j].wf(),
        {
            let ghost out_prev = out@;
            out.push(self.coef[0].get_0());
            proof {
                assert(forall|j: int| 0 <= j < k ==> out@[j] == out_prev[j]);
            }
        }
        let mut i: usize = 0;
        while i < n1
            invariant
                self.wf(),
                other.wf(),
                sf == self@,
                sg == other@,
                compat(sf[0], sg[0]),
                is_prime(e_char(sf[0])),
                n1 == sf.len(),
                n2 == sg.len(),
                i <= n1,
                n == n1 + n2 - 1,
                out@.len() == n,
                forall|k: int|
                    0 <= k < n ==> (#[trigger] out@[k])@ == p_cell(sf, sg, k, i as nat)
                        && out@[k].wf(),
            decreases n1 - i,
        {
            for j in 0..n2
                invariant
                    self.wf(),
                    other.wf(),
                    sf == self@,
                    sg == other@,
                    compat(sf[0], sg[0]),
                    is_prime(e_char(sf[0])),
                    n1 == sf.len(),
                    n2 == sg.len(),
                    i < n1,
                    n == n1 + n2 - 1,
                    out@.len() == n,
                    forall|k: int|
                        i as int <= k < i as int + j as int ==> (#[trigger] out@[k])@ == p_cell(
                            sf,
                            sg,
                            k,
                            (i + 1) as nat,
                        ) && out@[k].wf(),
                    forall|k: int|
                        0 <= k < n && !(i as int <= k < i as int + j as int) ==> (
                        #[trigger] out@[k])@ == p_cell(sf, sg, k, i as nat) && out@[k].wf(),
            {
                let ghost out_old = out@;
                let c = i + j;
                proof {
                    lemma_p_cell_wf(sf, sg, c as int, i as nat);
                    assert(compat(sf[0], sf[i as int]));
                    assert(compat(sg[0], sg[j as int]));
                    assert(compat(sf[i as int], sg[j as int]));
                    assert(e_char(sf[i as int]) == e_char(sf[0]));
                    assert(out@[c as int]@ == p_cell(sf, sg, c as int, i as nat));
                    assert(compat(out@[c as int]@, e_mul(sf[i as int], sg[j as int])));
                }
                let t = self.coef[i].mul_raw(&other.coef[j]);
                proof {
                    lemma_e_mul_wf(sf[i as int], sg[j as int]);
                }
                let c2 = out[c].add_raw(&t);
                out[c] = c2;
                proof {
                    assert(out@[c as int]@ == e_add(
                        p_cell(sf, sg, c as int, i as nat),
                        e_mul(sf[i as int], sg[j as int]),
                    ));
                    assert(out@[c as int]@ == p_cell(sf, sg, c as int, (i + 1) as nat));
                    assert forall|k: int|
                        i as int <= k < i as int + j as int + 1 implies (#[trigger] out@[k])@
                        == p_cell(sf, sg, k, (i + 1) as nat) && out@[k].wf() by {
                        if k != c {
                            assert(out@[k] == out_old[k]);
                        }
                    }
                    assert forall|k: int|
                        0 <= k < n && !(i as int <= k < i as int + j as int + 1) implies (
                    #[trigger] out@[k])@ == p_cell(sf, sg, k, i as nat) && out@[k].wf() by {
                        assert(out@[k] == out_old[k]);
                    }
                }
            }
            proof {
                assert forall|k: int|
                    0 <= k < n implies (#[trigger] out@[k])@ == p_cell(sf, sg, k, (i + 1) as nat)
                    && out@[k].wf() by {
                    if !(i <= k < i + n2) {
                        assert(p_cell(sf, sg, k, (i + 1) as nat) == p_cell(sf, sg, k, i as nat));
                    }
                }
            }
            i = i + 1;
            proof {
                assert forall|k: int|
                    0 <= k < n implies (#[trigger] out@[k])@ == p_cell(sf, sg, k, i as nat)
                    && out@[k].wf() by {
                    assert(out@[k]@ == p_cell(sf, sg, k, (i - 1 + 1) as nat));
                }
            }
        }
        proof {
            assert(pv(out@) =~= p_conv(sf, sg));
            assert forall|k: int| 0 <= k < p_conv(sf, sg).len() implies ev_wf(
                #[trigger] p_conv(sf, sg)[k],
            ) && compat(p_conv(sf, sg)[0], p_conv(sf, sg)[k]) by {
                lemma_p_cell_wf(sf, sg, k, sf.len());
                lemma_p_cell_wf(sf, sg, 0, sf.len());
            }
            lemma_p_trim_wf(p_conv(sf, sg));
        }
        let t = vtrim_ff(&out);
        Ok(Polynomial { coef: t })
    }
}


/// Every coefficient of the stored vector is the zero of its field.
fn all_zero(v: &Vec<FiniteField>) -> (r: bool)
    ensures
        r == p_all_zero(pv(v@)),
{
    let n = v.len();
    let mut i: usize = 0;
    let mut z: bool = true;
    while i < n
        invariant
            n == v@.len(),
            i <= n,
            z <==> (forall|j: int| 0 <= j < i ==> e_is_zero(#[trigger] pv(v@)[j])),
        decreases n - i,
    {
        let zi = v[i].is_0();
        proof {
            assert(pv(v@)[i as int] == v@[i as int]@);
        }
        z = z && zi;
        i = i + 1;
    }
    z
}

impl Polynomial {
    /// Long division by a nonzero divisor of the same field: the quotient
    /// and the remainder, both normalized.
    #[verifier::rlimit(80)]
    pub(crate) fn divrem_raw(&self, other: &Polynomial) -> (r: (Polynomial, Polynomial))
        requires
            self.wf(),
            other.wf(),
            compat(self@[0], other@[0]),
            is_prime(e_char(self@[0])),
            !p_all_zero(other@),
        ensures
            r.0@ == p_quot(self@, other@),
            r.0.wf(),
            r.1@ == p_rem(self@, other@),
            r.1.wf(),
            compat(self@[0], r.0@[0]),
            compat(self@[0], r.1@[0]),
    {
        let ghost sf = self@;
        let ghost sg = other@;
        proof {
            lemma_p_trim_basic(sf);
            lemma_p_trim_wf(sf);
            lemma_p_trim_basic(sg);
            lemma_p_trim_wf(sg);
            // the trimmed divisor keeps a nonzero leading coefficient
            let gtv = p_trim(sg);
            if gtv.len() == 1 {
                let w = choose|i: int| 0 <= i < sg.len() && !e_is_zero(#[trigger] sg[i]);
                assert(!e_is_zero(sg[w]));
                assert(w == 0);
                assert(gtv[0] == sg[0]);
            }
            assert(!e_is_zero(gtv.last()));
        }
        let ft = vtrim_ff(&self.coef);
        let gt = vtrim_ff(&other.coef);
        let glen = gt.len();
        let ghost gtv = p_trim(sg);
        if ft.len() < glen {
            let mut qv: Vec<FiniteField> = Vec::new();
            qv.push(self.coef[0].get_0());
            proof {
                assert(pv(qv@) =~= seq![e_zero(sf[0])]);
                lemma_e_identity_wf(sf[0]);
                assert(pv(ft@)[0] == p_trim(sf)[0]);
                assert(compat(sf[0], sf[0]));
            }
            (Polynomial { coef: qv }, Polynomial { coef: ft })
        } else {
            let mut w = ft;
            let mut qrev: Vec<FiniteField> = Vec::new();
            let ghost spec0 = p_divrem(p_trim(sf), gtv);
            let ghost ftlen = p_trim(sf).len();
            proof {
                assert(pv(qrev@).reverse() =~= Seq::<ElemV>::empty());
                assert(p_divrem(pv(w@), gtv).0 + pv(qrev@).reverse() =~= spec0.0);
                assert(p_trim(sf)[0] == sf[0]);
                assert(gtv[0] == sg[0]);
                assert forall|i: int| 0 <= i < w@.len() implies compat(sf[0], (#[trigger] w@[i])@)
                    by {
                    assert(pv(w@)[i] == w@[i]@);
                    assert(compat(p_trim(sf)[0], p_trim(sf)[i]));
                }
            }
            while w.len() >= glen
                invariant
                    other.wf(),
                    sg == other@,
                    pv(gt@) == gtv,
                    gtv == p_trim(sg),
                    glen == gt@.len(),
                    1 <= glen,
                    forall|i: int| 0 <= i < gt@.len() ==> (#[trigger] gt@[i]).wf(),
                    ps_wf(gtv),
                    !e_is_zero(gtv.last()),
                    is_prime(e_char(sf[0])),
                    compat(sf[0], gtv[0]),
                    forall|i: int| 0 <= i < w@.len() ==> (#[trigger] w@[i]).wf(),
                    forall|i: int| 0 <= i < w@.len() ==> compat(sf[0], (#[trigger] w@[i])@),
                    forall|i: int| 0 <= i < qrev@.len() ==> (#[trigger] qrev@[i]).wf(),
                    forall|i: int| 0 <= i < qrev@.len() ==> compat(sf[0], (#[trigger] qrev@[i])@),
                    w@.len() + qrev@.len() == ftlen,
                    spec0 == p_divrem(p_trim(sf), gtv),
                    spec0.0 == p_divrem(pv(w@), gtv).0 + pv(qrev@).reverse(),
                    spec0.1 == p_divrem(pv(w@), gtv).1,
                decreases w@.len(),
            {
                let ghost w_in = pv(w@);
                let d = w.len() - 1;
                proof {
                    assert(w_in.last() == w@[d as int]@);
                    assert(gtv.last() == gt@[glen - 1]@);
                    assert(compat(sf[0], gtv[glen - 1]));
                    assert(compat(w@[d as int]@, gt@[glen - 1]@));
                    assert(e_char(w@[d as int]@) == e_char(sf[0]));
                }
                let qc = w[d].div_raw(&gt[glen - 1]);
                let ghost qcv = e_div(w_in.last(), gtv.last());
                proof {
                    lemma_e_div_wf(w_in.last(), gtv.last());
                    assert(qc@ == qcv);
                    assert(compat(sf[0], qc@));
                }
                let off = d + 1 - glen;
                for j in 0..glen
                    invariant
                        other.wf(),
                        sg == other@,
                        pv(gt@) == gtv,
                        glen == gt@.len(),
                        1 <= glen,
                        forall|i: int| 0 <= i < gt@.len() ==> (#[trigger] gt@[i]).wf(),
                        ps_wf(gtv),
                        compat(sf[0], gtv[0]),
                        is_prime(e_char(sf[0])),
                        qc.wf(),
                        qc@ == qcv,
                        compat(sf[0], qcv),
                        w@.len() == d + 1,
                        d + 1 >= glen,
                        off == d + 1 - glen,
                        w_in.len() == d + 1,
                        forall|i: int| 0 <= i < w@.len() ==> (#[trigger] w@[i]).wf(),
                        forall|i: int| 0 <= i < w@.len() ==> compat(sf[0], (#[trigger] w@[i])@),
                        forall|k: int|
                            0 <= k < w@.len() && !(off <= k < off + j) ==> (#[trigger] w@[k])@
                                == w_in[k],
                        forall|k: int|
                            off <= k < off + j ==> (#[trigger] w@[k])@ == e_sub(
                                w_in[k],
                                e_mul(qcv, gtv[k - off]),
                            ),
                {
                    let ghost w_old = pv(w@);
                    let c = off + j;
                    proof {
                        assert(gt@[j as int]@ == gtv[j as int]);
                        assert(compat(gtv[0], gtv[j as int]));
                        assert(compat(qcv, gt@[j as int]@));
                        assert(e_char(qc@) == e_char(sf[0]));
                        assert(compat(sf[0], (w@[c as int])@));
                    }
                    let t = qc.mul_raw(&gt[j]);
                    proof {
                        lemma_e_mul_wf(qcv, gtv[j as int]);
                        assert(compat((w@[c as int])@, t@));
                    }
                    let c2 = w[c].sub_raw(&t);
                    w[c] = c2;
                    proof {
                        lemma_e_sub_wf(w_old[c as int], e_mul(qcv, gtv[j as int]));
                        assert((w@[c as int])@ == e_sub(w_in[c as int], e_mul(qcv, gtv[j as int])));
                        assert forall|k: int|
                            0 <= k < w@.len() && !(off <= k < off + j + 1) implies (
                        #[trigger] w@[k])@ == w_in[k] by {
                            assert(w@[k]@ == w_old[k]);
                        }
                        assert forall|k: int|
                            off <= k < off + j + 1 implies (#[trigger] w@[k])@ == e_sub(
                                w_in[k],
                                e_mul(qcv, gtv[k - off]),
                            ) by {
                            if k != c {
                                assert(w@[k]@ == w_old[k]);
                            }
                        }
                    }
                }
                let ghost w_sub = pv(w@);
                w.pop();
                let ghost qrev_old = pv(qrev@);
                qrev.push(qc);
                proof {
                    assert forall|k: int| 0 <= k < d implies #[trigger] pv(w@)[k] == p_step(
                        w_in,
                        gtv,
                    )[k] by {
                        assert(pv(w@)[k] == w_sub[k]);
                    }
                    assert(pv(w@) =~= p_step(w_in, gtv));
                    assert(p_divrem(w_in, gtv).0 == p_divrem(p_step(w_in, gtv), gtv).0.push(qcv));
                    assert(pv(qrev@) =~= qrev_old.push(qcv));
                    assert(pv(qrev@).reverse() =~= seq![qcv] + qrev_old.reverse());
                    assert(p_divrem(p_step(w_in, gtv), gtv).0.push(qcv) + qrev_old.reverse() =~= p_divrem(
                        p_step(w_in, gtv),
                        gtv,
                    ).0 + (seq![qcv] + qrev_old.reverse()));
                    assert(spec0.0 == p_divrem(pv(w@), gtv).0 + pv(qrev@).reverse());
                }
            }
            proof {
                assert(p_divrem(pv(w@), gtv).0 =~= Seq::<ElemV>::empty());
                assert(Seq::<ElemV>::empty() + pv(qrev@).reverse() =~= pv(qrev@).reverse());
                assert(spec0.0 == pv(qrev@).reverse());
                assert(spec0.1 == pv(w@));
            }
            let qn = qrev.len();
            let mut qv: Vec<FiniteField> = Vec::new();
            for i in 0..qn
                invariant
                    qn == qrev@.len(),
                    forall|k: int| 0 <= k < qrev@.len() ==> (#[trigger] qrev@[k]).wf(),
                    forall|k: int| 0 <= k < qrev@.len() ==> compat(sf[0], (#[trigger] qrev@[k])@),
                    qv@.len() == i,
                    forall|k: int|
                        0 <= k < i ==> (#[trigger] qv@[k])@ == qrev@[qn - 1 - k]@ && qv@[k].wf(),
            {
                let ghost qv_prev = qv@;
                qv.push(dup_elem(&qrev[qn - 1 - i]));
                proof {
                    assert(forall|k: int| 0 <= k < i ==> qv@[k] == qv_prev[k]);
                }
            }
            proof {
                assert(pv(qv@) =~= pv(qrev@).reverse());
                assert(qn >= 1);
                assert forall|k: int| 0 <= k < pv(qv@).len() implies ev_wf(#[trigger] pv(qv@)[k])
                    && compat(pv(qv@)[0], pv(qv@)[k]) by {
                    assert(pv(qv@)[k] == qv@[k]@);
                    assert(pv(qv@)[0] == qv@[0]@);
                }
                lemma_p_trim_wf(pv(qv@));
            }
            let qq = Polynomial { coef: vtrim_ff(&qv) };
            let rr: Polynomial = if w.len() == 0 {
                let mut rv: Vec<FiniteField> = Vec::new();
                rv.push(self.coef[0].get_0());
                proof {
                    assert(pv(rv@) =~= seq![e_zero(sf[0])]);
                    lemma_e_identity_wf(sf[0]);
                }
                Polynomial { coef: rv }
            } else {
                proof {
                    assert forall|k: int| 0 <= k < pv(w@).len() implies ev_wf(#[trigger] pv(w@)[k])
                        && compat(pv(w@)[0], pv(w@)[k]) by {
                        assert(pv(w@)[k] == w@[k]@);
                        assert(pv(w@)[0] == w@[0]@);
                    }
                    lemma_p_trim_wf(pv(w@));
                }
                Polynomial { coef: vtrim_ff(&w) }
            };
            proof {
                lemma_p_trim_basic(pv(qv@));
                assert(qq@[0] == pv(qv@)[0]);
                assert(pv(qv@)[0] == qv@[0]@);
                if w@.len() > 0 {
                    lemma_p_trim_basic(pv(w@));
                    assert(rr@[0] == pv(w@)[0]);
                    assert(pv(w@)[0] == w@[0]@);
                }
            }
            (qq, rr)
        }
    }

    /// The quotient of two polynomials: `DomainMismatch` if the fields
    /// differ, `DivisionByZero` if the divisor is the zero polynomial.
    pub fn div(&self, other: &Polynomial) -> (r: Result<Polynomial, FieldError>)
        requires
            self.wf(),
            other.wf(),
            is_prime(e_char(self@[0])),
        ensures
            (r is Ok <==> compat(self@[0], other@[0]) && !p_all_zero(other@)),
            r is Ok ==> (r->Ok_0)@ == p_quot(self@, other@) && (r->Ok_0).wf(),
            (!compat(self@[0], other@[0]) ==> r is Err && r->Err_0 == FieldError::DomainMismatch),
            (compat(self@[0], other@[0]) && p_all_zero(other@) ==> r is Err && r->Err_0
                == FieldError::DivisionByZero),
    {
        if !same_field(&self.coef[0], &other.coef[0]) {
            Err(FieldError::DomainMismatch)
        } else if all_zero(&other.coef) {
            Err(FieldError::DivisionByZero)
        } else {
            Ok(self.divrem_raw(other).0)
        }
    }

    /// The remainder of two polynomials: `DomainMismatch` if the fields
    /// differ, `DivisionByZero` if the divisor is the zero polynomial.
    pub fn rem(&self, other: &Polynomial) -> (r: Result<Polynomial, FieldError>)
        requires
            self.wf(),
            other.wf(),
            is_prime(e_char(self@[0])),
        ensures
            (r is Ok <==> compat(self@[0], other@[0]) && !p_all_zero(other@)),
            r is Ok ==> (r->Ok_0)@ == p_rem(self@, other@) && (r->Ok_0).wf(),
            (!compat(self@[0], other@[0]) ==> r is Err && r->Err_0 == FieldError::DomainMismatch),
            (compat(self@[0], other@[0]) && p_all_zero(other@) ==> r is Err && r->Err_0
                == FieldError::DivisionByZero),
    {
        if !same_field(&self.coef[0], &other.coef[0]) {
            Err(FieldError::DomainMismatch)
        } else if all_zero(&other.coef) {
            Err(FieldError::DivisionByZero)
        } else {
            Ok(self.divrem_raw(other).1)
        }
    }
}


/// The remainder is already in normalized form.
pub proof fn lemma_p_trim_idem(s: Seq<ElemV>)
    requires
        s.len() >= 1,
    ensures
        p_trim(p_trim(s)) == p_trim(s),
{
    lemma_p_trim_basic(s);
    lemma_p_trim_norm(p_trim(s));
}

/// What `p_rem` returns is unchanged by trimming.
pub proof fn lemma_p_rem_trimmed(f: Seq<ElemV>, g: Seq<ElemV>)
    requires
        f.len() >= 1,
        g.len() >= 1,
    ensures
        p_trim(p_rem(f, g)) == p_rem(f, g),
        p_rem(f, g).len() >= 1,
{
    lemma_p_trim_basic(f);
    lemma_p_trim_basic(g);
    let ft = p_trim(f);
    let gt = p_trim(g);
    if ft.len() < gt.len() {
        lemma_p_trim_idem(f);
    } else {
        let r = p_divrem(ft, gt).1;
        if r.len() == 0 {
            assert(p_rem(f, g) == seq![e_zero(f[0])]);
            assert(p_rem(f, g).len() == 1);
        } else {
            lemma_p_trim_idem(r);
            lemma_p_trim_basic(r);
        }
    }
}

/// One run of the Euclidean loop: trim both operands, stop when the second
/// is zero, otherwise continue with the second operand and the remainder.
/// A remainder that fails to lower the degree ends the loop; for field
/// coefficients long division always lowers it.
pub open spec fn p_gcd_loop(f: Seq<ElemV>, g: Seq<ElemV>) -> Seq<ElemV>
    decreases p_trim(g).len(),
{
    let ft = p_trim(f);
    let gt = p_trim(g);
    if p_all_zero(gt) {
        ft
    } else {
        let r = p_rem(ft, gt);
        if p_all_zero(r) || p_trim(r).len() >= gt.len() {
            gt
        } else {
            p_gcd_loop(gt, r)
        }
    }
}

/// The greatest common divisor of two polynomials: the Euclidean loop on
/// the operands, longest first, with a nonzero constant result reported as
/// the unit polynomial.
pub open spec fn p_gcd(f: Seq<ElemV>, g: Seq<ElemV>) -> Seq<ElemV> {
    let a = if f.len() >= g.len() {
        f
    } else {
        g
    };
    let b = if f.len() >= g.len() {
        g
    } else {
        f
    };
    let h = p_gcd_loop(a, b);
    if h.len() == 1 && !e_is_zero(h[0]) {
        seq![e_one(h[0])]
    } else {
        h
    }
}

/// Evaluation of the first `n` coefficients at `x`: the sum of
/// `c[i] * x^i`, accumulated lowest degree first.
pub open spec fn p_eval(c: Seq<ElemV>, x: ElemV, n: nat) -> ElemV
    decreases n,
{
    if n <= 1 {
        c[0]
    } else {
        e_add(p_eval(c, x, (n - 1) as nat), e_mul(c[n - 1], e_pow(x, (n - 1) as nat)))
    }
}

impl Polynomial {
    /// The Euclidean loop itself, on operands of one field.
    fn gcd_loop(&self, other: &Polynomial) -> (r: Polynomial)
        requires
            self.wf(),
            other.wf(),
            compat(self@[0], other@[0]),
            is_prime(e_char(self@[0])),
        ensures
            r@ == p_gcd_loop(self@, other@),
            r.wf(),
            compat(self@[0], r@[0]),
        decreases p_trim(other@).len(),
    {
        let ghost sf = self@;
        let ghost sg = other@;
        proof {
            lemma_p_trim_basic(sf);
            lemma_p_trim_basic(sg);
            lemma_p_trim_idem(sf);
            lemma_p_trim_idem(sg);
        }
        let f = self.adjust_func();
        let g = other.adjust_func();
        proof {
            assert(f@[0] == sf[0]);
            assert(g@[0] == sg[0]);
        }
        if all_zero(&g.coef) {
            return f;
        }
        proof {
            assert(compat(f@[0], g@[0]));
            assert(e_char(f@[0]) == e_char(sf[0]));
            lemma_p_rem_trimmed(f@, g@);
            assert(p_rem(f@, g@) == p_rem(p_trim(sf), p_trim(sg)));
        }
        let rr = f.divrem_raw(&g).1;
        proof {
            assert(p_trim(rr@) == rr@);
        }
        if all_zero(&rr.coef) {
            return g;
        }
        if rr.coef.len() >= g.coef.len() {
            return g;
        }
        proof {
            assert(compat(g@[0], rr@[0]));
            assert(e_char(g@[0]) == e_char(sf[0]));
            assert(p_trim(rr@) == rr@);
            assert(p_trim(rr@).len() < p_trim(sg).len());
        }
        let out = g.gcd_loop(&rr);
        proof {
            assert(out@ == p_gcd_loop(g@, rr@));
            assert(p_gcd_loop(sf, sg) == p_gcd_loop(g@, rr@));
        }
        out
    }

    /// The greatest common divisor of two polynomials by the Euclidean
    /// algorithm, the last nonzero remainder; a nonzero constant result
    /// (coprime operands) is reported as the unit polynomial `[1]`.
    /// `DomainMismatch` if the fields differ.
    pub fn gcd(&self, other: &Polynomial) -> (r: Result<Polynomial, FieldError>)
        requires
            self.wf(),
            other.wf(),
            is_prime(e_char(self@[0])),
        ensures
            (r is Ok <==> compat(self@[0], other@[0])),
            r is Ok ==> (r->Ok_0)@ == p_gcd(self@, other@) && (r->Ok_0).wf(),
            r is Err ==> r->Err_0 == FieldError::DomainMismatch,
    {
        if !same_field(&self.coef[0], &other.coef[0]) {
            return Err(FieldError::DomainMismatch);
        }
        let h: Polynomial = if self.coef.len() >= other.coef.len() {
            self.gcd_loop(other)
        } else {
            proof {
                assert(compat(other@[0], self@[0]));
                assert(e_char(other@[0]) == e_char(self@[0]));
            }
            other.gcd_loop(self)
        };
        if h.coef.len() == 1 && !h.coef[0].is_0() {
            proof {
                assert(h@[0] == h.coef@[0]@);
            }
            let mut uv: Vec<FiniteField> = Vec::new();
            uv.push(h.coef[0].get_1());
            proof {
                assert(pv(uv@) =~= seq![e_one(h@[0])]);
                lemma_e_identity_wf(h@[0]);
            }
            Ok(Polynomial { coef: uv })
        } else {
            Ok(h)
        }
    }

    /// Evaluate the polynomial at a field element: the sum of
    /// `coef[i] * value^i`. `EmptyPolynomial` if there are no coefficients,
    /// `DomainMismatch` if any coefficient lives in another field than the
    /// value.
    pub fn assign_value(&self, value: &FiniteField) -> (r: Result<FiniteField, FieldError>)
        requires
            forall|i: int| 0 <= i < self.coef@.len() ==> (#[trigger] self.coef@[i]).wf(),
            value.wf(),
            is_prime(value.char as int),
        ensures
            (self.coef@.len() == 0 ==> r is Err && r->Err_0 == FieldError::EmptyPolynomial),
            (r is Ok <==> self@.len() >= 1 && (forall|i: int|
                0 <= i < self@.len() ==> compat(#[trigger] self@[i], value@))),
            r is Ok ==> (r->Ok_0)@ == p_eval(self@, value@, self@.len() as nat) && (
            r->Ok_0).wf(),
            (self@.len() >= 1 && !(forall|i: int|
                0 <= i < self@.len() ==> compat(#[trigger] self@[i], value@)) ==> r is Err
                && r->Err_0 == FieldError::DomainMismatch),
    {
        let ghost sf = self@;
        let ghost xv = value@;
        if self.coef.len() == 0 {
            return Err(FieldError::EmptyPolynomial);
        }
        let n = self.coef.len();
        let mut i: usize = 0;
        while i < n
            invariant
                n == self.coef@.len(),
                sf == self@,
                xv == value@,
                i <= n,
                forall|j: int| 0 <= j < i ==> compat(#[trigger] sf[j], xv),
            decreases n - i,
        {
            if !same_field(&self.coef[i], value) {
                proof {
                    assert(!compat(sf[i as int], xv));
                }
                return Err(FieldError::DomainMismatch);
            }
            i = i + 1;
        }
        let mut acc = dup_elem(&self.coef[0]);
        let mut vpow = dup_elem(value);
        let mut idx: usize = 1;
        proof {
            vstd::arithmetic::power::lemma_pow1(e_char(xv));
        }
        while idx < n
            invariant
                n == self.coef@.len(),
                sf == self@,
                xv == value@,
                value.wf(),
                is_prime(value.char as int),
                forall|j: int| 0 <= j < n ==> (#[trigger] self.coef@[j]).wf(),
                forall|j: int| 0 <= j < n ==> compat(#[trigger] sf[j], xv),
                1 <= idx <= n,
                acc.wf(),
                acc@ == p_eval(sf, xv, idx as nat),
                compat(acc@, xv),
                vpow.wf(),
                vpow@ == e_pow(xv, idx as nat),
                compat(vpow@, xv),
            decreases n - idx,
        {
            proof {
                assert(compat(sf[idx as int], xv));
                assert(compat(self.coef@[idx as int]@, vpow@));
                assert(e_char(self.coef@[idx as int]@) == e_char(xv));
                assert(is_prime(e_char(xv)));
            }
            let term = self.coef[idx].mul_raw(&vpow);
            proof {
                lemma_e_mul_wf(sf[idx as int], vpow@);
                assert(compat(acc@, term@));
            }
            let acc2 = acc.add_raw(&term);
            proof {
                lemma_e_add_wf(acc@, term@);
                assert(acc2@ == e_add(p_eval(sf, xv, idx as nat), e_mul(sf[idx as int], e_pow(xv, idx as nat))));
                assert(acc2@ == p_eval(sf, xv, (idx + 1) as nat));
            }
            acc = acc2;
            let vpow2 = vpow.mul_raw(value);
            proof {
                lemma_e_mul_wf(vpow@, xv);
                assert(vpow2@ == e_mul(e_pow(xv, idx as nat), xv));
                assert(vpow2@ == e_pow(xv, (idx + 1) as nat));
            }
            vpow = vpow2;
            idx = idx + 1;
        }
        Ok(acc)
    }
}


/// The lengths that long division produces.
pub proof fn lemma_p_divrem_len(w: Seq<ElemV>, g: Seq<ElemV>)
    requires
        g.len() >= 1,
    ensures
        p_divrem(w, g).1.len() < g.len(),
        p_divrem(w, g).0.len() == if w.len() < g.len() {
            0int
        } else {
            w.len() - g.len() + 1
        },
    decreases w.len(),
{
    if w.len() >= g.len() {
        lemma_p_divrem_len(p_step(w, g), g);
    }
}

/// The remainder is shorter than the trimmed divisor, or the single zero
/// coefficient.
pub proof fn lemma_p_rem_len(f: Seq<ElemV>, g: Seq<ElemV>)
    requires
        f.len() >= 1,
        g.len() >= 1,
    ensures
        p_rem(f, g).len() < p_trim(g).len() || p_rem(f, g).len() == 1,
{
    lemma_p_trim_basic(f);
    lemma_p_trim_basic(g);
    let ft = p_trim(f);
    let gt = p_trim(g);
    if ft.len() >= gt.len() {
        lemma_p_divrem_len(ft, gt);
        let r = p_divrem(ft, gt).1;
        if r.len() > 0 {
            lemma_p_trim_basic(r);
        }
    }
}

/// Rebuild a polynomial value, coefficient by coefficient.
pub(crate) fn dup_poly(x: &Polynomial) -> (r: Polynomial)
    requires
        x.wf(),
    ensures
        r@ == x@,
        r.wf(),
{
    let mut c: Vec<FiniteField> = Vec::new();
    let n = x.coef.len();
    for i in 0..n
        invariant
            x.wf(),
            n == x.coef@.len(),
            c@.len() == i,
            forall|j: int| 0 <= j < i ==> (#[trigger] c@[j])@ == x.coef@[j]@ && c@[j].wf(),
    {
        let ghost c_prev = c@;
        c.push(dup_elem(&x.coef[i]));
        proof {
            assert(forall|j: int| 0 <= j < i ==> c@[j] == c_prev[j]);
        }
    }
    proof {
        assert(pv(c@) =~= x@);
    }
    Polynomial { coef: c }
}


/// The `i`-th monic candidate of degree `n` over GF(p): the base-`p`
/// digits of `i`, below a leading one.
pub open spec fn prim_cand(p: int, n: nat, i: int) -> Seq<ElemV> {
    Seq::new(n + 1, |j: int| if j == n {
        ElemV::Prime { p, v: 1int }
    } else {
        ElemV::Prime { p, v: (i / pow(p, j as nat)) % p }
    })
}

/// One step of the repeated multiplication of the irreducibility test:
/// multiply the running power by `g0` and reduce modulo the candidate.
pub open spec fn prim_mul_step(g: Seq<ElemV>, g0: Seq<ElemV>, f: Seq<ElemV>) -> Seq<ElemV> {
    p_rem(p_trim(p_conv(g, g0)), f)
}

/// `t` such steps in a row.
pub open spec fn prim_chain(g: Seq<ElemV>, g0: Seq<ElemV>, f: Seq<ElemV>, t: nat) -> Seq<ElemV>
    decreases t,
{
    if t == 0 {
        g
    } else {
        prim_chain(prim_mul_step(g, g0, f), g0, f, (t - 1) as nat)
    }
}

/// One more step extends a chain at its end.
proof fn lemma_prim_chain_snoc(g: Seq<ElemV>, g0: Seq<ElemV>, f: Seq<ElemV>, t: nat)
    ensures
        prim_chain(g, g0, f, (t + 1) as nat) == prim_mul_step(prim_chain(g, g0, f, t), g0, f),
    decreases t,
{
    assert(prim_chain(g, g0, f, (t + 1) as nat) == prim_chain(prim_mul_step(g, g0, f), g0, f, t));
    if t == 0 {
        assert(prim_chain(prim_mul_step(g, g0, f), g0, f, 0) == prim_mul_step(g, g0, f));
        assert(prim_chain(g, g0, f, 0) == g);
    } else {
        lemma_prim_chain_snoc(prim_mul_step(g, g0, f), g0, f, (t - 1) as nat);
        assert(prim_chain(g, g0, f, t) == prim_chain(prim_mul_step(g, g0, f), g0, f, (t - 1) as nat));
    }
}

/// The polynomial the test hands to the gcd: the running power with one
/// subtracted from its degree-one coefficient, normalized.
pub open spec fn prim_shift(g: Seq<ElemV>, p: int) -> Seq<ElemV> {
    if g.len() == 1 {
        p_trim(g.push(ElemV::Prime { p, v: p - 1 }))
    } else {
        p_trim(g.update(1, e_sub(g[1], ElemV::Prime { p, v: 1int })))
    }
}

/// The gcd found only a trivial common factor.
pub open spec fn prim_unit(h: Seq<ElemV>) -> bool {
    h.len() == 1 && e_is_one(h[0])
}

/// The remaining `rounds` rounds of the irreducibility test pass from the
/// running power `g`: each round raises `g` to the `p`-th power modulo the
/// candidate `f` and demands that the gcd of `f` with the shifted power be
/// trivial.
pub open spec fn prim_rounds(f: Seq<ElemV>, p: int, rounds: nat, g: Seq<ElemV>) -> bool
    decreases rounds,
{
    if rounds == 0 {
        true
    } else {
        let g1 = prim_chain(g, g, f, (p - 1) as nat);
        prim_unit(p_gcd(f, prim_shift(g1, p))) && prim_rounds(f, p, (rounds - 1) as nat, g1)
    }
}

/// Candidate `i` passes the whole test, starting from the polynomial `x`.
pub open spec fn prim_passes(p: int, n: nat, i: int) -> bool {
    prim_rounds(
        prim_cand(p, n, i),
        p,
        n / 2,
        seq![ElemV::Prime { p, v: 0int }, ElemV::Prime { p, v: 1int }],
    )
}

impl Polynomial {
    /// Search for a primitive (irreducible, monic) polynomial of degree `n`
    /// over GF(char): enumerate the monic candidates of degree `n` in
    /// ascending order of their coefficient value and return the first that
    /// passes the Euclidean irreducibility test, `n / 2` rounds of raising
    /// `x` to the `char`-th power modulo the candidate and checking that the
    /// greatest common divisor with the candidate stays trivial.
    /// `SearchExhausted` if and only if no candidate passes.
    #[verifier::rlimit(100)]
    pub fn get_primitive_polynomial(char: u32, n: u32) -> (r: Result<Polynomial, FieldError>)
        requires
            is_prime(char as int),
            1 <= n,
            pow(char as int, n as nat) <= 0x7fff_ffff,
        ensures
            r is Ok ==> (r->Ok_0).wf(),
            r is Ok ==> (r->Ok_0)@.len() == n + 1,
            r is Ok ==> e_is_one((r->Ok_0)@[n as int]),
            r is Ok ==> (forall|j: int|
                0 <= j <= n ==> (#[trigger] (r->Ok_0)@[j]) is Prime && e_char((r->Ok_0)@[j])
                    == char as int),
            r is Ok ==> (exists|i: int|
                0 <= i < pow(char as int, n as nat) && (r->Ok_0)@ == prim_cand(
                    char as int,
                    n as nat,
                    i,
                ) && #[trigger] prim_passes(char as int, n as nat, i) && (forall|i2: int|
                    0 <= i2 < i ==> !prim_passes(char as int, n as nat, i2))),
            (r is Err <==> (forall|i: int|
                0 <= i < pow(char as int, n as nat) ==> !prim_passes(char as int, n as nat, i))),
            r is Err ==> r->Err_0 == FieldError::SearchExhausted,
    {
        proof {
            // the degree is small: 2^n <= char^n fits in an i32
            if n > 30 {
                crate::element::lemma_pow_base_le(2, char as nat, n as nat);
                vstd::arithmetic::power2::lemma_pow2(n as nat);
                vstd::arithmetic::power2::lemma_pow2(31);
                vstd::arithmetic::power2::lemma2_to64();
                vstd::arithmetic::power::lemma_pow_increases(2, 31, n as nat);
                assert(pow(2, 31) == vstd::arithmetic::power2::pow2(31));
                assert(false);
            }
            // the characteristic itself fits: char <= char^n
            vstd::arithmetic::power::lemma_pow1(char as int);
            vstd::arithmetic::power::lemma_pow_increases(char as nat, 1, n as nat);
        }
        let ghost pp = char as int;
        let total = pow_u64(char, n);
        let mut i: u64 = 0;
        while i < total
            invariant
                is_prime(pp),
                pp == char as int,
                char_ok(pp),
                1 <= n <= 30,
                total == pow(pp, n as nat),
                total <= 0x7fff_ffff,
                i <= total,
                forall|i2: int| 0 <= i2 < i ==> !prim_passes(pp, n as nat, i2),
            decreases total - i,
        {
            let digits = change_base_from10_to_n(i as i32, char as i32);
            proof {
                if digits@.len() > n as int {
                    vstd::arithmetic::power::lemma_pow_increases(
                        char as nat,
                        n as nat,
                        (digits@.len() - 1) as nat,
                    );
                }
            }
            let ghost dlen = digits@.len();
            let mut fv = digits;
            while fv.len() < n as usize
                invariant
                    char_ok(pp),
                    pp == char as int,
                    dlen <= fv@.len() <= n,
                    forall|j: int|
                        0 <= j < fv@.len() ==> 0 <= (#[trigger] fv@[j] as int) < pp,
                    forall|j: int|
                        0 <= j < dlen ==> (#[trigger] fv@[j]) as int == (i as int / pow(
                            pp,
                            j as nat,
                        )) % pp,
                    forall|j: int| dlen <= j < fv@.len() ==> (#[trigger] fv@[j]) == 0,
                decreases n as int - fv@.len(),
            {
                let ghost fv_prev = fv@;
                fv.push(0);
                proof {
                    assert(forall|j: int| 0 <= j < fv_prev.len() ==> fv@[j] == fv_prev[j]);
                }
            }
            let ghost fv_prev = fv@;
            fv.push(1);
            proof {
                assert(forall|j: int| 0 <= j < fv_prev.len() ==> fv@[j] == fv_prev[j]);
            }
            let mut fc: Vec<FiniteField> = Vec::new();
            let fl = fv.len();
            for j in 0..fl
                invariant
                    char_ok(pp),
                    pp == char as int,
                    fl == fv@.len(),
                    forall|k: int|
                        0 <= k < fv@.len() ==> 0 <= (#[trigger] fv@[k] as int) < pp,
                    fc@.len() == j,
                    forall|k: int|
                        0 <= k < j ==> (#[trigger] fc@[k]) == (FiniteField {
                            char: char,
                            element: Element::PrimeField { element: fv@[k] },
                        }),
            {
                let ghost fc_prev = fc@;
                fc.push(FiniteField { char: char, element: Element::PrimeField { element: fv[j] } });
                proof {
                    assert(forall|k: int| 0 <= k < j ==> fc@[k] == fc_prev[k]);
                }
            }
            let f = Polynomial { coef: fc };
            proof {
                assert(f@.len() == n + 1);
                assert forall|k: int| 0 <= k < f@.len() implies ev_wf(#[trigger] f@[k]) && compat(
                    f@[0],
                    f@[k],
                ) && f.coef@[k].wf() && (f@[k] is Prime) && e_char(f@[k]) == pp by {
                    assert(f@[k] == f.coef@[k]@);
                }
                assert(f.wf());
                assert(e_is_one(f@[n as int]));
                assert(!e_is_zero(f@.last()));
                lemma_p_trim_norm(f@);
                assert(!p_all_zero(f@));
                // the coefficients are exactly the digits of the candidate
                assert forall|j: int| 0 <= j <= n implies #[trigger] f@[j] == prim_cand(
                    pp,
                    n as nat,
                    i as int,
                )[j] by {
                    assert(f@[j] == f.coef@[j]@);
                    if j < n {
                        if j < dlen {
                            assert(fv@[j] as int == (i as int / pow(pp, j as nat)) % pp);
                        } else {
                            vstd::arithmetic::power::lemma_pow_increases(
                                char as nat,
                                dlen as nat,
                                j as nat,
                            );
                            vstd::arithmetic::power::lemma_pow_positive(pp, j as nat);
                            vstd::arithmetic::div_mod::lemma_basic_div(
                                i as int,
                                pow(pp, j as nat),
                            );
                            vstd::arithmetic::div_mod::lemma_small_mod(0, pp as nat);
                            assert(fv@[j] == 0);
                        }
                    }
                }
                assert(f@ =~= prim_cand(pp, n as nat, i as int));
            }
            let mut gv: Vec<FiniteField> = Vec::new();
            gv.push(FiniteField { char: char, element: Element::PrimeField { element: 0 } });
            gv.push(FiniteField { char: char, element: Element::PrimeField { element: 1 } });
            let mut g = Polynomial { coef: gv };
            proof {
                assert forall|k: int| 0 <= k < g@.len() implies ev_wf(#[trigger] g@[k]) && compat(
                    g@[0],
                    g@[k],
                ) && g.coef@[k].wf() by {
                    assert(g@[k] == g.coef@[k]@);
                }
                assert(g.wf());
                assert(compat(g@[0], f@[0]));
                assert(g@ =~= seq![
                    ElemV::Prime { p: pp, v: 0int },
                    ElemV::Prime { p: pp, v: 1int },
                ]);
            }
            let ghost fcand = f@;
            let ghost full = prim_rounds(fcand, pp, (n / 2) as nat, g@);
            proof {
                assert(full == prim_passes(pp, n as nat, i as int));
            }
            let rounds = n / 2;
            let mut ok: bool = true;
            let mut rd: u32 = 0;
            while rd < rounds
                invariant
                    is_prime(pp),
                    pp == char as int,
                    char_ok(pp),
                    1 <= n <= 30,
                    f.wf(),
                    fcand == f@,
                    f@.len() == n + 1,
                    p_trim(f@) == f@,
                    !p_all_zero(f@),
                    e_char(f@[0]) == pp,
                    f@[0] is Prime,
                    g.wf(),
                    g@.len() <= n + 1,
                    compat(g@[0], f@[0]),
                    rd <= rounds,
                    rounds == n / 2,
                    (ok ==> full == prim_rounds(fcand, pp, (rounds - rd) as nat, g@)),
                    (!ok ==> !full),
                decreases rounds - rd,
            {
                if ok {
                    let ghost g_round = g@;
                    let g_temp = dup_poly(&g);
                    let mut t: u32 = 0;
                    while t < char - 1
                        invariant
                            is_prime(pp),
                            pp == char as int,
                            char_ok(pp),
                            1 <= n <= 30,
                            f.wf(),
                            fcand == f@,
                            f@.len() == n + 1,
                            p_trim(f@) == f@,
                            !p_all_zero(f@),
                            e_char(f@[0]) == pp,
                            f@[0] is Prime,
                            g.wf(),
                            g@.len() <= n + 1,
                            compat(g@[0], f@[0]),
                            g_temp.wf(),
                            g_temp@ == g_round,
                            g_temp@.len() <= n + 1,
                            compat(g_temp@[0], f@[0]),
                            t <= char - 1,
                            g@ == prim_chain(g_round, g_round, fcand, t as nat),
                        decreases char - 1 - t,
                    {
                        proof {
                            assert(compat(g@[0], g_temp@[0]));
                            assert(e_char(g@[0]) == pp);
                        }
                        let prod = match g.mul(&g_temp) {
                            Ok(v) => v,
                            Err(_) => {
                                proof {
                                    assert(false);
                                }
                                Polynomial { coef: Vec::new() }
                            },
                        };
                        proof {
                            let cv = p_conv(g@, g_temp@);
                            lemma_p_cell_wf(g@, g_temp@, 0, g@.len());
                            lemma_p_trim_basic(cv);
                            assert(prod@[0] == cv[0]);
                            assert(compat(g@[0], prod@[0]));
                            assert(compat(prod@[0], f@[0]));
                            assert(e_char(prod@[0]) == pp);
                        }
                        let red = prod.divrem_raw(&f).1;
                        proof {
                            lemma_p_rem_len(prod@, f@);
                            assert(red@.len() <= n + 1);
                            assert(compat(prod@[0], red@[0]));
                            assert(compat(red@[0], f@[0]));
                            assert(red@ == prim_mul_step(g@, g_round, fcand));
                            lemma_prim_chain_snoc(g_round, g_round, fcand, t as nat);
                            assert(red@ == prim_chain(g_round, g_round, fcand, (t + 1) as nat));
                        }
                        g = red;
                        t = t + 1;
                    }
                    proof {
                        assert(g@ == prim_chain(g_round, g_round, fcand, (char - 1) as nat));
                    }
                    // g2 is g with one subtracted from its degree-1
                    // coefficient: the test's shifted power
                    let ghost g1v = g@;
                    let mut g2 = dup_poly(&g);
                    if g2.coef.len() == 1 {
                        let ghost g2_old = g2@;
                        g2.coef.push(
                            FiniteField {
                                char: char,
                                element: Element::PrimeField { element: (char - 1) as i32 },
                            },
                        );
                        proof {
                            assert(g2@ =~= g2_old.push(ElemV::Prime { p: pp, v: pp - 1 }));
                            assert forall|k: int| 0 <= k < g2@.len() implies ev_wf(
                                #[trigger] g2@[k],
                            ) && compat(g2@[0], g2@[k]) && g2.coef@[k].wf() by {
                                assert(g2@[k] == g2.coef@[k]@);
                                if k < g2@.len() - 1 {
                                    assert(g2@[k] == g2_old[k]);
                                }
                            }
                            assert(g2.wf());
                        }
                    } else {
                        let one = FiniteField {
                            char: char,
                            element: Element::PrimeField { element: 1 },
                        };
                        let ghost g2_old = g2@;
                        proof {
                            assert(compat(g2@[0], g2@[1]));
                            assert(e_char(g2@[1]) == pp);
                            assert(compat(g2@[1], one@));
                        }
                        let c2 = g2.coef[1].sub_raw(&one);
                        g2.coef[1] = c2;
                        proof {
                            lemma_e_sub_wf(g2_old[1], one@);
                            assert(g2@ =~= g2_old.update(
                                1,
                                e_sub(g2_old[1], ElemV::Prime { p: pp, v: 1int }),
                            ));
                            assert forall|k: int| 0 <= k < g2@.len() implies ev_wf(
                                #[trigger] g2@[k],
                            ) && compat(g2@[0], g2@[k]) && g2.coef@[k].wf() by {
                                assert(g2@[k] == g2.coef@[k]@);
                                if k != 1 {
                                    assert(g2@[k] == g2_old[k]);
                                }
                            }
                            assert(g2.wf());
                        }
                    }
                    let g2t = g2.adjust_func();
                    proof {
                        lemma_p_trim_basic(g2@);
                        assert(g2t@[0] == g2@[0]);
                        assert(compat(f@[0], g2t@[0]));
                        assert(e_char(f@[0]) == pp);
                        assert(g2t@ == prim_shift(g1v, pp));
                    }
                    let h = match f.gcd(&g2t) {
                        Ok(v) => v,
                        Err(_) => {
                            proof {
                                assert(false);
                            }
                            Polynomial { coef: Vec::new() }
                        },
                    };
                    proof {
                        assert(h@ == p_gcd(fcand, prim_shift(g1v, pp)));
                    }
                    let unit = h.coef.len() == 1 && h.coef[0].is_1();
                    proof {
                        assert(h.coef@[0]@ == h@[0]);
                        assert(unit == prim_unit(h@));
                        // one round of the test has been decided
                        assert(prim_rounds(fcand, pp, (rounds - rd) as nat, g_round) == (prim_unit(
                            p_gcd(fcand, prim_shift(g1v, pp)),
                        ) && prim_rounds(fcand, pp, (rounds - rd - 1) as nat, g1v)));
                    }
                    if !unit {
                        ok = false;
                    }
                }
                rd = rd + 1;
            }
            proof {
                if ok {
                    assert(full == prim_rounds(fcand, pp, 0, g@));
                    assert(full);
                    assert(prim_passes(pp, n as nat, i as int));
                } else {
                    assert(!prim_passes(pp, n as nat, i as int));
                }
            }
            if ok {
                proof {
                    assert(0 <= (i as int) < pow(pp, n as nat) && f@ == prim_cand(
                        pp,
                        n as nat,
                        i as int,
                    ) && prim_passes(pp, n as nat, i as int) && (forall|i2: int|
                        0 <= i2 < i as int ==> !prim_passes(pp, n as nat, i2)));
                }
                return Ok(f);
            }
            i = i + 1;
        }
        Err(FieldError::SearchExhausted)
    }
}

} // verus!
