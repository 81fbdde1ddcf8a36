//! Field elements: residues of a prime field GF(p), or extension-field
//! elements of GF(p^n) represented as coefficient vectors reduced modulo a
//! primitive polynomial. The mathematical model of an element, the
//! specification of each operation over that model, and the executable
//! operations proved against them.

use vstd::prelude::*;
use vstd::arithmetic::div_mod::lemma_mod_bound;
use vstd::arithmetic::power::{pow, lemma_pow_positive};
use vstd::arithmetic::power2::pow2;
use crate::arith::{char_ok, extended_euclidean, inv_mod, is_prime, mod_add, mod_mul, mod_sub, pow_u64};
use crate::intpoly::{iadd, iconv, in_range_all, inorm, ireduce, isub, itrim, iview, lemma_icell_range, lemma_ireduce_basic, lemma_itrim_basic, lemma_itrim_range, sget, vadd_mod, vconv_mod, vred_mod, vsub_mod, vtrim_i};
use crate::poly::Polynomial;

verus! {

/// Element of a finite field: a prime-field residue, or an extension-field
/// element given by its coefficient vector (lowest degree first) together
/// with the primitive polynomial that defines the extension.
#[derive(Debug)]
pub enum Element {
    PrimeField { element: i32 },
    GaloisField { element: Vec<i32>, primitive_polynomial: Polynomial },
}

/// A finite-field element together with the field's prime characteristic.
#[derive(Debug)]
pub struct FiniteField {
    pub char: u32,
    pub element: Element,
}

/// The errors an operation can report.
#[derive(Debug, Clone, Copy, PartialEq, Eq, Structural)]
pub enum FieldError {
    /// The operands live in different fields.
    DomainMismatch,
    /// Division by the field's zero, or by the zero polynomial.
    DivisionByZero,
    /// Evaluation of a polynomial with no coefficients.
    EmptyPolynomial,
    /// The primitive-polynomial search ran out of candidates.
    SearchExhausted,
}

/// The mathematical value of a field element.
pub enum ElemV {
    Prime { p: int, v: int },
    Ext { p: int, m: Seq<int>, e: Seq<int> },
}

/// The prime-field residue stored in an element, zero if it is not a
/// prime-field element. Used to read the coefficients of a modulus.
pub open spec fn pval(x: FiniteField) -> int {
    match x.element {
        Element::PrimeField { element } => element as int,
        _ => 0,
    }
}

/// The stored modulus really is a vector of prime-field coefficients of
/// characteristic `p`.
pub open spec fn mod_rep_ok(p: u32, m: Polynomial) -> bool {
    forall|i: int|
        0 <= i < m.coef@.len() ==> ((#[trigger] m.coef@[i]).element is PrimeField && m.coef@[i].char
            == p)
}

/// The coefficients of a modulus polynomial, as integers.
pub open spec fn mview(m: Polynomial) -> Seq<int> {
    Seq::new(m.coef@.len(), |i: int| pval(m.coef@[i]))
}

impl View for FiniteField {
    type V = ElemV;

    open spec fn view(&self) -> ElemV {
        match self.element {
            Element::PrimeField { element } => ElemV::Prime {
                p: self.char as int,
                v: element as int,
            },
            Element::GaloisField { element, primitive_polynomial } => ElemV::Ext {
                p: self.char as int,
                m: mview(primitive_polynomial),
                e: iview(element@),
            },
        }
    }
}

/// A well-formed modulus: at least degree 1, canonical residues, nonzero
/// leading coefficient, and a field order that fits the machine.
pub open spec fn mod_wf(p: int, m: Seq<int>) -> bool {
    &&& m.len() >= 2
    &&& in_range_all(m, p)
    &&& m.last() != 0
    &&& pow(p, (m.len() - 1) as nat) <= 0xffff_ffff
}

/// A well-formed element value: residues in canonical range, and for an
/// extension element a canonical coefficient vector of degree below the
/// modulus degree.
pub open spec fn ev_wf(x: ElemV) -> bool {
    match x {
        ElemV::Prime { p, v } => char_ok(p) && 0 <= v < p,
        ElemV::Ext { p, m, e } => {
            &&& char_ok(p)
            &&& mod_wf(p, m)
            &&& 1 <= e.len() <= m.len() - 1
            &&& in_range_all(e, p)
            &&& inorm(e)
        },
    }
}

/// Two element values live in the same field: equal characteristic, same
/// kind, and for extension elements the same modulus.
pub open spec fn compat(a: ElemV, b: ElemV) -> bool {
    match (a, b) {
        (ElemV::Prime { p: p1, .. }, ElemV::Prime { p: p2, .. }) => p1 == p2,
        (ElemV::Ext { p: p1, m: m1, .. }, ElemV::Ext { p: p2, m: m2, .. }) => p1 == p2 && m1
            == m2,
        _ => false,
    }
}

impl FiniteField {
    /// Well-formed representation: the model value is well formed, and an
    /// extension element's modulus really is stored as prime-field
    /// coefficients of the same characteristic.
    pub open spec fn wf(self) -> bool {
        &&& ev_wf(self@)
        &&& match self.element {
            Element::GaloisField { element, primitive_polynomial } => mod_rep_ok(
                self.char,
                primitive_polynomial,
            ),
            _ => true,
        }
    }
}


/// The characteristic of the field an element value belongs to.
pub open spec fn e_char(a: ElemV) -> int {
    match a {
        ElemV::Prime { p, .. } => p,
        ElemV::Ext { p, .. } => p,
    }
}

/// The additive identity of the field `a` belongs to.
pub open spec fn e_zero(a: ElemV) -> ElemV {
    match a {
        ElemV::Prime { p, .. } => ElemV::Prime { p, v: 0 },
        ElemV::Ext { p, m, .. } => ElemV::Ext { p, m, e: seq![0int] },
    }
}

/// The multiplicative identity of the field `a` belongs to.
pub open spec fn e_one(a: ElemV) -> ElemV {
    match a {
        ElemV::Prime { p, .. } => ElemV::Prime { p, v: 1 },
        ElemV::Ext { p, m, .. } => ElemV::Ext { p, m, e: seq![1int] },
    }
}

/// The element is the zero of its field.
pub open spec fn e_is_zero(a: ElemV) -> bool {
    match a {
        ElemV::Prime { v, .. } => v == 0,
        ElemV::Ext { e, .. } => e.len() == 1 && e[0] == 0,
    }
}

/// The element is the one of its field.
pub open spec fn e_is_one(a: ElemV) -> bool {
    match a {
        ElemV::Prime { v, .. } => v == 1,
        ElemV::Ext { e, .. } => e.len() == 1 && e[0] == 1,
    }
}

/// The sum of two elements of the same field.
pub open spec fn e_add(a: ElemV, b: ElemV) -> ElemV {
    match (a, b) {
        (ElemV::Prime { p, v: x }, ElemV::Prime { v: y, .. }) => ElemV::Prime {
            p,
            v: (x + y) % p,
        },
        (ElemV::Ext { p, m, e: x }, ElemV::Ext { e: y, .. }) => ElemV::Ext {
            p,
            m,
            e: itrim(iadd(x, y, p)),
        },
        _ => a,
    }
}

/// The difference of two elements of the same field.
pub open spec fn e_sub(a: ElemV, b: ElemV) -> ElemV {
    match (a, b) {
        (ElemV::Prime { p, v: x }, ElemV::Prime { v: y, .. }) => ElemV::Prime {
            p,
            v: (x - y) % p,
        },
        (ElemV::Ext { p, m, e: x }, ElemV::Ext { e: y, .. }) => ElemV::Ext {
            p,
            m,
            e: itrim(isub(x, y, p)),
        },
        _ => a,
    }
}

/// The additive inverse of an element.
pub open spec fn e_neg(a: ElemV) -> ElemV {
    e_sub(e_zero(a), a)
}

/// The product of two elements of the same field: for extension elements,
/// the convolution of the coefficient vectors reduced modulo the modulus.
pub open spec fn e_mul(a: ElemV, b: ElemV) -> ElemV {
    match (a, b) {
        (ElemV::Prime { p, v: x }, ElemV::Prime { v: y, .. }) => ElemV::Prime {
            p,
            v: (x * y) % p,
        },
        (ElemV::Ext { p, m, e: x }, ElemV::Ext { e: y, .. }) => ElemV::Ext {
            p,
            m,
            e: itrim(ireduce(iconv(x, y, p), m, p)),
        },
        _ => a,
    }
}

/// The `k`-th power of an element, by repeated multiplication.
pub open spec fn e_pow(a: ElemV, k: nat) -> ElemV
    decreases k,
{
    if k == 0 {
        e_one(a)
    } else if k == 1 {
        a
    } else {
        e_mul(e_pow(a, (k - 1) as nat), a)
    }
}

/// The quotient of two elements of the same field: multiplication by the
/// modular inverse in a prime field, and by `b^(q - 2)` (with `q` the field
/// order) in an extension field.
pub open spec fn e_div(a: ElemV, b: ElemV) -> ElemV {
    match (a, b) {
        (ElemV::Prime { p, v: x }, ElemV::Prime { v: y, .. }) => ElemV::Prime {
            p,
            v: (x * inv_mod(p, y)) % p,
        },
        (ElemV::Ext { p, m, .. }, ElemV::Ext { .. }) => e_mul(
            a,
            e_pow(b, (pow(p, (m.len() - 1) as nat) - 2) as nat),
        ),
        _ => a,
    }
}


/// The identities of a field are well formed and live in that field.
pub proof fn lemma_e_identity_wf(a: ElemV)
    requires
        ev_wf(a),
    ensures
        ev_wf(e_zero(a)),
        ev_wf(e_one(a)),
        compat(a, e_zero(a)),
        compat(a, e_one(a)),
{
    match a {
        ElemV::Prime { .. } => {
        },
        ElemV::Ext { p, m, e } => {
            assert(seq![0int].len() == 1 && seq![0int][0] == 0);
            assert(seq![1int].len() == 1 && seq![1int][0] == 1);
            assert(in_range_all(seq![0int], p));
            assert(in_range_all(seq![1int], p));
        },
    }
}

/// Addition keeps elements well formed and in their field.
pub proof fn lemma_e_add_wf(a: ElemV, b: ElemV)
    requires
        ev_wf(a),
        ev_wf(b),
        compat(a, b),
    ensures
        ev_wf(e_add(a, b)),
        compat(a, e_add(a, b)),
{
    match (a, b) {
        (ElemV::Prime { p, v: x }, ElemV::Prime { v: y, .. }) => {
            lemma_mod_bound(x + y, p);
        },
        (ElemV::Ext { p, m, e: x }, ElemV::Ext { e: y, .. }) => {
            let s = iadd(x, y, p);
            assert forall|i: int| 0 <= i < s.len() implies 0 <= #[trigger] s[i] < p by {
                lemma_mod_bound(sget(x, i) + sget(y, i), p);
            }
            lemma_itrim_basic(s);
            lemma_itrim_range(s, p);
        },
        _ => {
        },
    }
}

/// Subtraction keeps elements well formed and in their field.
pub proof fn lemma_e_sub_wf(a: ElemV, b: ElemV)
    requires
        ev_wf(a),
        ev_wf(b),
        compat(a, b),
    ensures
        ev_wf(e_sub(a, b)),
        compat(a, e_sub(a, b)),
{
    match (a, b) {
        (ElemV::Prime { p, v: x }, ElemV::Prime { v: y, .. }) => {
            lemma_mod_bound(x - y, p);
        },
        (ElemV::Ext { p, m, e: x }, ElemV::Ext { e: y, .. }) => {
            let s = isub(x, y, p);
            assert forall|i: int| 0 <= i < s.len() implies 0 <= #[trigger] s[i] < p by {
                lemma_mod_bound(sget(x, i) - sget(y, i), p);
            }
            lemma_itrim_basic(s);
            lemma_itrim_range(s, p);
        },
        _ => {
        },
    }
}

/// Negation keeps elements well formed and in their field.
pub proof fn lemma_e_neg_wf(a: ElemV)
    requires
        ev_wf(a),
    ensures
        ev_wf(e_neg(a)),
        compat(a, e_neg(a)),
{
    lemma_e_identity_wf(a);
    lemma_e_sub_wf(e_zero(a), a);
}

/// Multiplication keeps elements well formed and in their field.
pub proof fn lemma_e_mul_wf(a: ElemV, b: ElemV)
    requires
        ev_wf(a),
        ev_wf(b),
        compat(a, b),
    ensures
        ev_wf(e_mul(a, b)),
        compat(a, e_mul(a, b)),
{
    match (a, b) {
        (ElemV::Prime { p, v: x }, ElemV::Prime { v: y, .. }) => {
            lemma_mod_bound(x * y, p);
        },
        (ElemV::Ext { p, m, e: x }, ElemV::Ext { e: y, .. }) => {
            let c = iconv(x, y, p);
            assert forall|i: int| 0 <= i < c.len() implies 0 <= #[trigger] c[i] < p by {
                lemma_icell_range(x, y, p, i, x.len());
            }
            lemma_ireduce_basic(c, m, p);
            let red = ireduce(c, m, p);
            lemma_itrim_basic(red);
            lemma_itrim_range(red, p);
        },
        _ => {
        },
    }
}

/// Powers keep elements well formed and in their field.
pub proof fn lemma_e_pow_wf(a: ElemV, k: nat)
    requires
        ev_wf(a),
    ensures
        ev_wf(e_pow(a, k)),
        compat(a, e_pow(a, k)),
    decreases k,
{
    if k == 0 {
        lemma_e_identity_wf(a);
    } else if k > 1 {
        lemma_e_pow_wf(a, (k - 1) as nat);
        lemma_e_mul_wf(e_pow(a, (k - 1) as nat), a);
    }
}

/// Division keeps elements well formed and in their field.
pub proof fn lemma_e_div_wf(a: ElemV, b: ElemV)
    requires
        ev_wf(a),
        ev_wf(b),
        compat(a, b),
    ensures
        ev_wf(e_div(a, b)),
        compat(a, e_div(a, b)),
{
    match (a, b) {
        (ElemV::Prime { p, v: x }, ElemV::Prime { v: y, .. }) => {
            lemma_mod_bound(x * inv_mod(p, y), p);
        },
        (ElemV::Ext { p, m, .. }, ElemV::Ext { .. }) => {
            let k = (pow(p, (m.len() - 1) as nat) - 2) as nat;
            lemma_e_pow_wf(b, k);
            lemma_e_mul_wf(a, e_pow(b, k));
        },
        _ => {
        },
    }
}

/// The prime-field residue stored in an element, zero for an extension
/// element.
pub fn pval_x(c: &FiniteField) -> (r: i32)
    ensures
        r as int == pval(*c),
{
    match &c.element {
        Element::PrimeField { element } => *element,
        Element::GaloisField { .. } => 0,
    }
}

/// Rebuild a modulus polynomial value, coefficient by coefficient.
fn dup_modulus(p: u32, m: &Polynomial) -> (r: Polynomial)
    requires
        mod_rep_ok(p, *m),
    ensures
        mview(r) == mview(*m),
        mod_rep_ok(p, r),
        r.coef@.len() == m.coef@.len(),
{
    let mut c: Vec<FiniteField> = Vec::new();
    let n = m.coef.len();
    for i in 0..n
        invariant
            mod_rep_ok(p, *m),
            n == m.coef@.len(),
            c@.len() == i,
            forall|j: int|
                0 <= j < i ==> ((#[trigger] c@[j]).element is PrimeField && c@[j].char == p && pval(
                    c@[j],
                ) == pval(m.coef@[j])),
    {
        let ghost c_prev = c@;
        let v: i32 = pval_x(&m.coef[i]);
        c.push(FiniteField { char: p, element: Element::PrimeField { element: v } });
        proof {
            assert(forall|j: int| 0 <= j < i ==> c@[j] == c_prev[j]);
            assert(pval(c@[i as int]) == pval(m.coef@[i as int]));
        }
    }
    let r = Polynomial { coef: c };
    proof {
        assert(mview(r) =~= mview(*m));
    }
    r
}

/// The operands live in the same field: equal characteristic, the same
/// kind of element, and for extension elements the same modulus.
pub fn same_field(a: &FiniteField, b: &FiniteField) -> (r: bool)
    ensures
        (r == compat(a@, b@)),
{
    if a.char != b.char {
        return false;
    }
    match (&a.element, &b.element) {
        (Element::PrimeField { .. }, Element::PrimeField { .. }) => true,
        (
            Element::GaloisField { primitive_polynomial: m1, .. },
            Element::GaloisField { primitive_polynomial: m2, .. },
        ) => {
            if m1.coef.len() != m2.coef.len() {
                proof {
                    assert(mview(*m1).len() != mview(*m2).len());
                }
                return false;
            }
            let n = m1.coef.len();
            let mut i: usize = 0;
            let mut eq: bool = true;
            while i < n
                invariant
                    n == m1.coef@.len(),
                    n == m2.coef@.len(),
                    i <= n,
                    eq <==> (forall|j: int| 0 <= j < i ==> mview(*m1)[j] == mview(*m2)[j]),
                decreases n - i,
            {
                let x = pval_x(&m1.coef[i]);
                let y = pval_x(&m2.coef[i]);
                let same = x == y;
                proof {
                    assert(mview(*m1)[i as int] == x as int);
                    assert(mview(*m2)[i as int] == y as int);
                }
                eq = eq && same;
                i = i + 1;
            }
            proof {
                if eq {
                    assert(mview(*m1) =~= mview(*m2));
                } else {
                    assert(mview(*m1) != mview(*m2));
                }
            }
            eq
        },
        _ => false,
    }
}


/// Raising a larger base to the same power gives no smaller a result.
pub proof fn lemma_pow_base_le(a: nat, b: nat, e: nat)
    requires
        1 <= a <= b,
    ensures
        pow(a as int, e) <= pow(b as int, e),
    decreases e,
{
    reveal(pow);
    if e > 0 {
        lemma_pow_base_le(a, b, (e - 1) as nat);
        lemma_pow_positive(a as int, (e - 1) as nat);
        lemma_pow_positive(b as int, (e - 1) as nat);
        assert(a as int * pow(a as int, (e - 1) as nat) <= b as int * pow(b as int, (e - 1) as nat))
            by (nonlinear_arith)
            requires
                1 <= a <= b,
                0 < pow(a as int, (e - 1) as nat) <= pow(b as int, (e - 1) as nat),
        ;
        assert(pow(a as int, e) == a as int * pow(a as int, (e - 1) as nat));
        assert(pow(b as int, e) == b as int * pow(b as int, (e - 1) as nat));
    }
}

/// A modulus with a field order below 2^32 has at most 33 coefficients.
proof fn lemma_mod_wf_len(p: int, m: Seq<int>)
    requires
        char_ok(p),
        mod_wf(p, m),
    ensures
        m.len() <= 33,
{
    if m.len() > 33 {
        let d = (m.len() - 1) as nat;
        lemma_pow_base_le(2, p as nat, d);
        vstd::arithmetic::power2::lemma_pow2(33);
        vstd::arithmetic::power2::lemma2_to64();
        vstd::arithmetic::power2::lemma2_to64_rest();
        vstd::arithmetic::power::lemma_pow_increases(2, 33, d);
        assert(pow(2, d) >= pow(2, 33));
        assert(pow(2, 33) == pow2(33));
    }
}

/// Copy a coefficient vector.
fn copy_vec_i32(v: &Vec<i32>) -> (r: Vec<i32>)
    ensures
        r@ == v@,
{
    let mut r: Vec<i32> = Vec::new();
    let n = v.len();
    for i in 0..n
        invariant
            n == v@.len(),
            r@.len() == i,
            forall|j: int| 0 <= j < i ==> r@[j] == v@[j],
    {
        let ghost r_prev = r@;
        r.push(v[i]);
        proof {
            assert(forall|j: int| 0 <= j < i ==> r@[j] == r_prev[j]);
        }
    }
    proof {
        assert(r@ =~= v@);
    }
    r
}

impl FiniteField {
    /// The element is the zero of its field.
    pub fn is_0(&self) -> (r: bool)
        ensures
            r == e_is_zero(self@),
    {
        match &self.element {
            Element::PrimeField { element } => *element == 0,
            Element::GaloisField { element, .. } => element.len() == 1 && element[0] == 0,
        }
    }

    /// The element is the one of its field.
    pub fn is_1(&self) -> (r: bool)
        ensures
            r == e_is_one(self@),
    {
        match &self.element {
            Element::PrimeField { element } => *element == 1,
            Element::GaloisField { element, .. } => element.len() == 1 && element[0] == 1,
        }
    }

    /// The additive identity of the field this element belongs to.
    pub fn get_0(&self) -> (r: FiniteField)
        requires
            self.wf(),
        ensures
            r@ == e_zero(self@),
            r.wf(),
    {
        proof {
            lemma_e_identity_wf(self@);
        }
        match &self.element {
            Element::PrimeField { .. } => FiniteField {
                char: self.char,
                element: Element::PrimeField { element: 0 },
            },
            Element::GaloisField { primitive_polynomial, .. } => {
                let mut e: Vec<i32> = Vec::new();
                e.push(0);
                let r = FiniteField {
                    char: self.char,
                    element: Element::GaloisField {
                        element: e,
                        primitive_polynomial: dup_modulus(self.char, primitive_polynomial),
                    },
                };
                proof {
                    assert(iview(r.element->GaloisField_element@) =~= seq![0int]);
                }
                r
            },
        }
    }

    /// The multiplicative identity of the field this element belongs to.
    pub fn get_1(&self) -> (r: FiniteField)
        requires
            self.wf(),
        ensures
            r@ == e_one(self@),
            r.wf(),
    {
        proof {
            lemma_e_identity_wf(self@);
        }
        match &self.element {
            Element::PrimeField { .. } => FiniteField {
                char: self.char,
                element: Element::PrimeField { element: 1 },
            },
            Element::GaloisField { primitive_polynomial, .. } => {
                let mut e: Vec<i32> = Vec::new();
                e.push(1);
                let r = FiniteField {
                    char: self.char,
                    element: Element::GaloisField {
                        element: e,
                        primitive_polynomial: dup_modulus(self.char, primitive_polynomial),
                    },
                };
                proof {
                    assert(iview(r.element->GaloisField_element@) =~= seq![1int]);
                }
                r
            },
        }
    }

    /// The sum, for operands already known to share a field.
    pub(crate) fn add_raw(&self, other: &FiniteField) -> (r: FiniteField)
        requires
            self.wf(),
            other.wf(),
            compat(self@, other@),
        ensures
            r@ == e_add(self@, other@),
            r.wf(),
    {
        proof {
            lemma_e_add_wf(self@, other@);
        }
        match (&self.element, &other.element) {
            (Element::PrimeField { element: x }, Element::PrimeField { element: y }) => FiniteField {
                char: self.char,
                element: Element::PrimeField { element: mod_add(self.char, *x, *y) },
            },
            (
                Element::GaloisField { element: x, primitive_polynomial: m },
                Element::GaloisField { element: y, .. },
            ) => {
                let s = vadd_mod(self.char, x, y);
                let t = vtrim_i(&s);
                FiniteField {
                    char: self.char,
                    element: Element::GaloisField {
                        element: t,
                        primitive_polynomial: dup_modulus(self.char, m),
                    },
                }
            },
            _ => {
                proof {
                    assert(false);
                }
                FiniteField { char: self.char, element: Element::PrimeField { element: 0 } }
            },
        }
    }

    /// The difference, for operands already known to share a field.
    pub(crate) fn sub_raw(&self, other: &FiniteField) -> (r: FiniteField)
        requires
            self.wf(),
            other.wf(),
            compat(self@, other@),
        ensures
            r@ == e_sub(self@, other@),
            r.wf(),
    {
        proof {
            lemma_e_sub_wf(self@, other@);
        }
        match (&self.element, &other.element) {
            (Element::PrimeField { element: x }, Element::PrimeField { element: y }) => FiniteField {
                char: self.char,
                element: Element::PrimeField { element: mod_sub(self.char, *x, *y) },
            },
            (
                Element::GaloisField { element: x, primitive_polynomial: m },
                Element::GaloisField { element: y, .. },
            ) => {
                let s = vsub_mod(self.char, x, y);
                let t = vtrim_i(&s);
                FiniteField {
                    char: self.char,
                    element: Element::GaloisField {
                        element: t,
                        primitive_polynomial: dup_modulus(self.char, m),
                    },
                }
            },
            _ => {
                proof {
                    assert(false);
                }
                FiniteField { char: self.char, element: Element::PrimeField { element: 0 } }
            },
        }
    }

    /// The product, for operands already known to share a field.
    pub(crate) fn mul_raw(&self, other: &FiniteField) -> (r: FiniteField)
        requires
            self.wf(),
            other.wf(),
            compat(self@, other@),
            is_prime(self.char as int),
        ensures
            r@ == e_mul(self@, other@),
            r.wf(),
    {
        proof {
            lemma_e_mul_wf(self@, other@);
        }
        match (&self.element, &other.element) {
            (Element::PrimeField { element: x }, Element::PrimeField { element: y }) => FiniteField {
                char: self.char,
                element: Element::PrimeField { element: mod_mul(self.char, *x, *y) },
            },
            (
                Element::GaloisField { element: x, primitive_polynomial: m },
                Element::GaloisField { element: y, .. },
            ) => {
                proof {
                    lemma_mod_wf_len(self.char as int, mview(*m));
                }
                let c = vconv_mod(self.char, x, y);
                let mints = modulus_ints(m);
                let red = vred_mod(self.char, &c, &mints);
                let t = vtrim_i(&red);
                proof {
                    lemma_ireduce_basic(iview(c@), mview(*m), self.char as int);
                }
                FiniteField {
                    char: self.char,
                    element: Element::GaloisField {
                        element: t,
                        primitive_polynomial: dup_modulus(self.char, m),
                    },
                }
            },
            _ => {
                proof {
                    assert(false);
                }
                FiniteField { char: self.char, element: Element::PrimeField { element: 0 } }
            },
        }
    }

    /// The additive inverse: zero minus the element.
    pub fn neg(&self) -> (r: FiniteField)
        requires
            self.wf(),
        ensures
            r@ == e_neg(self@),
            r.wf(),
    {
        proof {
            lemma_e_identity_wf(self@);
            lemma_e_sub_wf(e_zero(self@), self@);
        }
        let z = self.get_0();
        z.sub_raw(self)
    }
}

/// The coefficients of a modulus polynomial, extracted as a plain vector.
fn modulus_ints(m: &Polynomial) -> (r: Vec<i32>)
    ensures
        iview(r@) == mview(*m),
{
    let mut r: Vec<i32> = Vec::new();
    let n = m.coef.len();
    for i in 0..n
        invariant
            n == m.coef@.len(),
            r@.len() == i,
            forall|j: int| 0 <= j < i ==> (r@[j] as int) == pval(m.coef@[j]),
    {
        let ghost r_prev = r@;
        r.push(pval_x(&m.coef[i]));
        proof {
            assert(forall|j: int| 0 <= j < i ==> r@[j] == r_prev[j]);
        }
    }
    proof {
        assert(iview(r@) =~= mview(*m));
    }
    r
}


impl FiniteField {
    /// The quotient, for a nonzero divisor already known to share a field:
    /// in a prime field by the modular inverse, in an extension field by
    /// raising the divisor to the power `q - 2` where `q` is the field order.
    pub(crate) fn div_raw(&self, other: &FiniteField) -> (r: FiniteField)
        requires
            self.wf(),
            other.wf(),
            compat(self@, other@),
            is_prime(self.char as int),
            !e_is_zero(other@),
        ensures
            r@ == e_div(self@, other@),
            r.wf(),
    {
        proof {
            lemma_e_div_wf(self@, other@);
        }
        match (&self.element, &other.element) {
            (Element::PrimeField { element: x }, Element::PrimeField { element: y }) => {
                let t = extended_euclidean(self.char, *y as u32);
                FiniteField {
                    char: self.char,
                    element: Element::PrimeField { element: mod_mul(self.char, *x, t as i32) },
                }
            },
            (
                Element::GaloisField { element: _, primitive_polynomial: m },
                Element::GaloisField { element: y, primitive_polynomial: m2 },
            ) => {
                proof {
                    lemma_mod_wf_len(self.char as int, mview(*m));
                }
                let mlen = m.coef.len();
                let ghost pp = self.char as int;
                let ghost dd = (mlen - 1) as nat;
                let ghost k = (pow(pp, dd) - 2) as nat;
                proof {
                    vstd::arithmetic::power::lemma_pow1(pp);
                    vstd::arithmetic::power::lemma_pow_increases(self.char as nat, 1, dd);
                }
                let q64 = pow_u64(self.char, (mlen - 1) as u32);
                let mut g = FiniteField {
                    char: self.char,
                    element: Element::GaloisField {
                        element: copy_vec_i32(y),
                        primitive_polynomial: dup_modulus(self.char, m2),
                    },
                };
                proof {
                    assert(g@ == other@);
                    assert(compat(other@, g@));
                }
                let iters: u64 = if q64 >= 3 {
                    q64 - 3
                } else {
                    0
                };
                let mut kk: u64 = 0;
                while kk < iters
                    invariant
                        other.wf(),
                        is_prime(other.char as int),
                        kk <= iters,
                        iters < 0xffff_ffff_ffff_ffff,
                        g.wf(),
                        g@ == e_pow(other@, (kk + 1) as nat),
                        compat(g@, other@),
                        g.char == other.char,
                    decreases iters - kk,
                {
                    let g2 = g.mul_raw(other);
                    proof {
                        lemma_e_mul_wf(g@, other@);
                        assert(g2@ == e_mul(e_pow(other@, (kk + 1) as nat), other@));
                        assert(e_pow(other@, (kk + 2) as nat) == e_mul(
                            e_pow(other@, (kk + 1) as nat),
                            other@,
                        ));
                        assert(compat(g2@, other@));
                    }
                    g = g2;
                    kk = kk + 1;
                }
                proof {
                    if q64 >= 3 {
                        assert(g@ == e_pow(other@, k));
                    } else {
                        // q = p^d == 2 forces p == 2 and degree 1, so the only
                        // nonzero element is the one, which is its own 0th power
                        assert(q64 == 2);
                        if dd >= 2 {
                            vstd::arithmetic::power::lemma_pow_strictly_increases(2, 1, dd);
                            lemma_pow_base_le(2, self.char as nat, dd);
                            assert(false);
                        }
                        assert(pp == 2);
                        let e = other@->Ext_e;
                        assert(mview(*m) == other@->Ext_m);
                        assert(e.len() == 1);
                        assert(0 <= e[0] < 2);
                        assert(e[0] != 0);
                        assert(e =~= seq![1int]);
                        assert(other@ == e_one(other@));
                        assert(e_pow(other@, 0) == e_one(other@));
                        assert(g@ == e_pow(other@, k));
                    }
                    assert(compat(self@, g@));
                }
                let r = self.mul_raw(&g);
                proof {
                    assert(r@ == e_mul(self@, e_pow(other@, k)));
                    assert(e_div(self@, other@) == e_mul(self@, e_pow(other@, k)));
                }
                r
            },
            _ => {
                proof {
                    assert(false);
                }
                FiniteField { char: self.char, element: Element::PrimeField { element: 0 } }
            },
        }
    }

    /// The sum of two field elements; `DomainMismatch` if they live in
    /// different fields.
    pub fn add(&self, other: &FiniteField) -> (r: Result<FiniteField, FieldError>)
        requires
            self.wf(),
            other.wf(),
        ensures
            (r is Ok <==> compat(self@, other@)),
            r is Ok ==> (r->Ok_0)@ == e_add(self@, other@) && (r->Ok_0).wf(),
            r is Err ==> r->Err_0 == FieldError::DomainMismatch,
    {
        if same_field(self, other) {
            Ok(self.add_raw(other))
        } else {
            Err(FieldError::DomainMismatch)
        }
    }

    /// The difference of two field elements; `DomainMismatch` if they live
    /// in different fields.
    pub fn sub(&self, other: &FiniteField) -> (r: Result<FiniteField, FieldError>)
        requires
            self.wf(),
            other.wf(),
        ensures
            (r is Ok <==> compat(self@, other@)),
            r is Ok ==> (r->Ok_0)@ == e_sub(self@, other@) && (r->Ok_0).wf(),
            r is Err ==> r->Err_0 == FieldError::DomainMismatch,
    {
        if same_field(self, other) {
            Ok(self.sub_raw(other))
        } else {
            Err(FieldError::DomainMismatch)
        }
    }

    /// The product of two field elements; `DomainMismatch` if they live in
    /// different fields.
    pub fn mul(&self, other: &FiniteField) -> (r: Result<FiniteField, FieldError>)
        requires
            self.wf(),
            other.wf(),
            is_prime(self.char as int),
        ensures
            (r is Ok <==> compat(self@, other@)),
            r is Ok ==> (r->Ok_0)@ == e_mul(self@, other@) && (r->Ok_0).wf(),
            r is Err ==> r->Err_0 == FieldError::DomainMismatch,
    {
        if same_field(self, other) {
            Ok(self.mul_raw(other))
        } else {
            Err(FieldError::DomainMismatch)
        }
    }

    /// The quotient of two field elements: `DomainMismatch` if they live in
    /// different fields, `DivisionByZero` if the divisor is the field zero.
    pub fn div(&self, other: &FiniteField) -> (r: Result<FiniteField, FieldError>)
        requires
            self.wf(),
            other.wf(),
            is_prime(self.char as int),
        ensures
            (r is Ok <==> compat(self@, other@) && !e_is_zero(other@)),
            r is Ok ==> (r->Ok_0)@ == e_div(self@, other@) && (r->Ok_0).wf(),
            (!compat(self@, other@) ==> r is Err && r->Err_0 == FieldError::DomainMismatch),
            (compat(self@, other@) && e_is_zero(other@) ==> r is Err && r->Err_0
                == FieldError::DivisionByZero),
    {
        if !same_field(self, other) {
            Err(FieldError::DomainMismatch)
        } else if other.is_0() {
            Err(FieldError::DivisionByZero)
        } else {
            Ok(self.div_raw(other))
        }
    }
}


/// Adding the field's zero on either side leaves a well-formed element
/// unchanged.
pub proof fn lemma_e_add_zero(a: ElemV)
    requires
        ev_wf(a),
    ensures
        e_add(a, e_zero(a)) == a,
        e_add(e_zero(a), a) == a,
{
    match a {
        ElemV::Prime { p, v } => {
            vstd::arithmetic::div_mod::lemma_small_mod(v as nat, p as nat);
        },
        ElemV::Ext { p, m, e } => {
            let z = seq![0int];
            assert forall|i: int| 0 <= i < e.len() implies #[trigger] iadd(e, z, p)[i] == e[i] by {
                assert(0 <= e[i] < p);
                vstd::arithmetic::div_mod::lemma_small_mod(e[i] as nat, p as nat);
            }
            assert(iadd(e, z, p) =~= e);
            assert forall|i: int| 0 <= i < e.len() implies #[trigger] iadd(z, e, p)[i] == e[i] by {
                assert(0 <= e[i] < p);
                vstd::arithmetic::div_mod::lemma_small_mod(e[i] as nat, p as nat);
            }
            assert(iadd(z, e, p) =~= e);
            crate::intpoly::lemma_itrim_norm(e);
        },
    }
}

/// Rebuild a field element value.
pub(crate) fn dup_elem(x: &FiniteField) -> (r: FiniteField)
    requires
        x.wf(),
    ensures
        r@ == x@,
        r.wf(),
{
    match &x.element {
        Element::PrimeField { element } => FiniteField {
            char: x.char,
            element: Element::PrimeField { element: *element },
        },
        Element::GaloisField { element, primitive_polynomial } => FiniteField {
            char: x.char,
            element: Element::GaloisField {
                element: copy_vec_i32(element),
                primitive_polynomial: dup_modulus(x.char, primitive_polynomial),
            },
        },
    }
}


/// Subtracting the field's zero leaves a well-formed element unchanged.
pub proof fn lemma_e_sub_zero(a: ElemV)
    requires
        ev_wf(a),
    ensures
        e_sub(a, e_zero(a)) == a,
{
    match a {
        ElemV::Prime { p, v } => {
            vstd::arithmetic::div_mod::lemma_small_mod(v as nat, p as nat);
        },
        ElemV::Ext { p, m, e } => {
            let z = seq![0int];
            assert forall|i: int| 0 <= i < e.len() implies #[trigger] isub(e, z, p)[i] == e[i] by {
                assert(0 <= e[i] < p);
                vstd::arithmetic::div_mod::lemma_small_mod(e[i] as nat, p as nat);
            }
            assert(isub(e, z, p) =~= e);
            crate::intpoly::lemma_itrim_norm(e);
        },
    }
}

} // verus!
