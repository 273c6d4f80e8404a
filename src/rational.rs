//! Exact fractions of machine integers, with reduction to lowest terms.

use vstd::prelude::*;

verus! {

/// Greatest common divisor by Euclid's algorithm, with `gcd(x, 0) == x`.
pub open spec fn gcd(x: nat, y: nat) -> nat
    decreases y,
{
    if y == 0 {
        x
    } else {
        gcd(y, x % y)
    }
}

/// `k` divides `x`.
pub open spec fn divides(k: int, x: int) -> bool {
    exists|q: int| #[trigger] (k * q) == x
}

/// The magnitude of `x`.
pub open spec fn magnitude(x: int) -> nat {
    if x < 0 {
        (-x) as nat
    } else {
        x as nat
    }
}

/// `n / d` in lowest terms: both divided by the gcd of their magnitudes.
/// The sign of each part is kept as it was.
pub open spec fn reduce_pair(f: (int, int)) -> (int, int) {
    let g = gcd(magnitude(f.0), magnitude(f.1)) as int;
    (f.0 / g, f.1 / g)
}

/// The two parts share no factor greater than one.
pub open spec fn coprime(a: int, b: int) -> bool {
    forall|k: int| k > 1 ==> !(#[trigger] divides(k, a) && divides(k, b))
}

proof fn lemma_divides_mod(k: int, a: int, b: int)
    requires
        b > 0,
        divides(k, a),
        divides(k, b),
    ensures
        divides(k, a % b),
{
    let qa = choose|q: int| #[trigger] (k * q) == a;
    let qb = choose|q: int| #[trigger] (k * q) == b;
    vstd::arithmetic::div_mod::lemma_fundamental_div_mod(a, b);
    let w = qa - qb * (a / b);
    assert(k * w == a % b) by (nonlinear_arith)
        requires
            k * qa == a,
            k * qb == b,
            w == qa - qb * (a / b),
            a == b * (a / b) + a % b,
    ;
}

proof fn lemma_divides_combination(k: int, a: int, b: int)
    requires
        b > 0,
        divides(k, b),
        divides(k, a % b),
    ensures
        divides(k, a),
{
    let qb = choose|q: int| #[trigger] (k * q) == b;
    let qr = choose|q: int| #[trigger] (k * q) == a % b;
    vstd::arithmetic::div_mod::lemma_fundamental_div_mod(a, b);
    let w = qb * (a / b) + qr;
    assert(k * w == a) by (nonlinear_arith)
        requires
            k * qb == b,
            k * qr == a % b,
            w == qb * (a / b) + qr,
            a == b * (a / b) + a % b,
    ;
}

/// The gcd divides both arguments.
pub proof fn lemma_gcd_divides(x: nat, y: nat)
    ensures
        divides(gcd(x, y) as int, x as int),
        divides(gcd(x, y) as int, y as int),
    decreases y,
{
    if y == 0 {
        assert(x * 1 == x);
        assert(x * 0 == 0);
    } else {
        lemma_gcd_divides(y, x % y);
        lemma_divides_combination(gcd(x, y) as int, x as int, y as int);
    }
}

/// Every common divisor of the arguments divides their gcd.
pub proof fn lemma_common_divisor(x: nat, y: nat, k: int)
    requires
        divides(k, x as int),
        divides(k, y as int),
    ensures
        divides(k, gcd(x, y) as int),
    decreases y,
{
    if y > 0 {
        lemma_divides_mod(k, x as int, y as int);
        lemma_common_divisor(y, x % y, k);
    }
}

/// The gcd is positive when one argument is.
pub proof fn lemma_gcd_positive(x: nat, y: nat)
    requires
        x > 0 || y > 0,
    ensures
        gcd(x, y) > 0,
    decreases y,
{
    if y > 0 {
        if x % y == 0 {
            assert(gcd(y, 0) == y);
        } else {
            lemma_gcd_positive(y, x % y);
        }
    }
}

proof fn lemma_divides_magnitude(k: int, x: int)
    ensures
        divides(k, x) <==> divides(k, magnitude(x) as int),
{
    if divides(k, x) {
        let q = choose|q: int| #[trigger] (k * q) == x;
        assert(k * (-q) == -x) by (nonlinear_arith)
            requires
                k * q == x,
        ;
    }
    if divides(k, magnitude(x) as int) {
        let q = choose|q: int| #[trigger] (k * q) == magnitude(x) as int;
        assert(k * (-q) == -(k * q)) by (nonlinear_arith);
    }
}

/// Reducing `a / b` (with `b != 0`) gives a fraction in lowest terms whose
/// value is still `a / b`.
pub proof fn lemma_reduce_pair(a: int, b: int)
    requires
        b != 0,
    ensures
        coprime(reduce_pair((a, b)).0, reduce_pair((a, b)).1),
        reduce_pair((a, b)).0 * b == a * reduce_pair((a, b)).1,
        reduce_pair((a, b)).1 != 0,
{
    let g = gcd(magnitude(a), magnitude(b)) as int;
    let (n, d) = reduce_pair((a, b));
    lemma_gcd_positive(magnitude(a), magnitude(b));
    lemma_gcd_divides(magnitude(a), magnitude(b));
    lemma_divides_magnitude(g, a);
    lemma_divides_magnitude(g, b);
    let qa = choose|q: int| #[trigger] (g * q) == a;
    let qb = choose|q: int| #[trigger] (g * q) == b;
    vstd::arithmetic::div_mod::lemma_div_multiples_vanish(qa, g);
    vstd::arithmetic::div_mod::lemma_div_multiples_vanish(qb, g);
    assert(n == qa && d == qb);
    assert(n * b == a * d) by (nonlinear_arith)
        requires
            a == g * qa,
            b == g * qb,
            n == qa,
            d == qb,
    ;
    assert(d != 0) by (nonlinear_arith)
        requires
            b == g * qb,
            b != 0,
            d == qb,
    ;
    assert forall|k: int| k > 1 implies !(#[trigger] divides(k, n) && divides(k, d)) by {
        if divides(k, n) && divides(k, d) {
            let kn = choose|q: int| #[trigger] (k * q) == n;
            let kd = choose|q: int| #[trigger] (k * q) == d;
            let kg = k * g;
            assert(kg * kn == a) by (nonlinear_arith)
                requires
                    kg == k * g,
                    k * kn == n,
                    a == g * qa,
                    n == qa,
            ;
            assert(kg * kd == b) by (nonlinear_arith)
                requires
                    kg == k * g,
                    k * kd == d,
                    b == g * qb,
                    d == qb,
            ;
            lemma_divides_magnitude(kg, a);
            lemma_divides_magnitude(kg, b);
            lemma_common_divisor(magnitude(a), magnitude(b), kg);
            let w = choose|q: int| #[trigger] (kg * q) == g;
            assert(false) by (nonlinear_arith)
                requires
                    kg == k * g,
                    kg * w == g,
                    g > 0,
                    k > 1,
            ;
        }
    }
}

/// The reduced denominator is 1 exactly when the denominator is positive and
/// divides the numerator; the reduced numerator is then the quotient.
pub proof fn lemma_reduced_integer(a: int, b: int)
    requires
        b != 0,
    ensures
        reduce_pair((a, b)).1 == 1 <==> (b > 0 && divides(b, a)),
        reduce_pair((a, b)).1 == 1 ==> reduce_pair((a, b)).0 * b == a,
{
    let g = gcd(magnitude(a), magnitude(b)) as int;
    lemma_gcd_positive(magnitude(a), magnitude(b));
    lemma_gcd_divides(magnitude(a), magnitude(b));
    lemma_divides_magnitude(g, a);
    lemma_divides_magnitude(g, b);
    lemma_reduce_pair(a, b);
    let qb = choose|q: int| #[trigger] (g * q) == b;
    vstd::arithmetic::div_mod::lemma_div_multiples_vanish(qb, g);
    if b > 0 && divides(b, a) {
        assert(b * 1 == b);
        lemma_divides_magnitude(b, a);
        lemma_divides_magnitude(b, b);
        lemma_common_divisor(magnitude(a), magnitude(b), b);
        let w = choose|q: int| #[trigger] (b * q) == g;
        assert(g == b) by (nonlinear_arith)
            requires
                g * qb == b,
                b * w == g,
                g > 0,
                b > 0,
        ;
        assert(qb == 1) by (nonlinear_arith)
            requires
                g * qb == b,
                g == b,
                b > 0,
        ;
    }
    if reduce_pair((a, b)).1 == 1 {
        assert(b == g) by (nonlinear_arith)
            requires
                g * qb == b,
                qb == 1,
        ;
        let qa = choose|q: int| #[trigger] (g * q) == a;
        assert(b * qa == a);
        assert(a * 1 == a);
    }
}

/// The gcd of two machine magnitudes, by Euclid's algorithm.
pub fn gcd_u64(x: u64, y: u64) -> (r: u64)
    ensures
        r as nat == gcd(x as nat, y as nat),
{
    let mut a: u64 = x;
    let mut b: u64 = y;
    while b != 0
        invariant
            gcd(a as nat, b as nat) == gcd(x as nat, y as nat),
        decreases b,
    {
        let t = b;
        b = a % b;
        a = t;
    }
    a
}

fn magnitude_u64(x: i64) -> (r: u64)
    ensures
        r as nat == magnitude(x as int),
{
    if x < 0 {
        (-(x as i128)) as u64
    } else {
        x as u64
    }
}

/// `x / g` where `g` divides `x` exactly.
fn divide_exact(x: i64, g: u64) -> (r: i64)
    requires
        g > 0,
        divides(g as int, x as int),
    ensures
        r as int == x as int / g as int,
{
    let m = magnitude_u64(x) / g;
    proof {
        let q = choose|q: int| #[trigger] (g as int * q) == x as int;
        vstd::arithmetic::div_mod::lemma_div_multiples_vanish(q, g as int);
        vstd::arithmetic::div_mod::lemma_div_multiples_vanish(-q, g as int);
        assert(g as int * (-q) == -(x as int)) by (nonlinear_arith)
            requires
                g as int * q == x as int,
        ;
        vstd::arithmetic::div_mod::lemma_div_is_ordered_by_denominator(
            magnitude(x as int) as int,
            1,
            g as int,
        );
    }
    if x < 0 {
        (-(m as i128)) as i64
    } else {
        m as i64
    }
}

/// A fraction `numerator / denominator` of machine integers, with a
/// denominator that is never zero. It is not kept in lowest terms.
#[derive(Debug, Clone, Copy)]
pub struct Rational {
    numerator: i64,
    denominator: i64,
}

impl View for Rational {
    type V = (int, int);

    /// The pair (numerator, denominator).
    closed spec fn view(&self) -> (int, int) {
        (self.numerator as int, self.denominator as int)
    }
}

impl Rational {
    #[verifier::type_invariant]
    spec fn nonzero_denominator(self) -> bool {
        self.denominator != 0
    }

    /// The fraction `numerator / denominator`; `None` when the denominator is zero.
    pub fn new(numerator: i64, denominator: i64) -> (r: Option<Rational>)
        ensures
            denominator == 0 <==> r is None,
            r matches Some(f) ==> f@ == (numerator as int, denominator as int),
    {
        if denominator == 0 {
            None
        } else {
            Some(Rational { numerator, denominator })
        }
    }

    pub fn numerator(&self) -> (r: i64)
        ensures
            r as int == self@.0,
    {
        self.numerator
    }

    pub fn denominator(&self) -> (r: i64)
        ensures
            r as int == self@.1,
    {
        self.denominator
    }

    /// The same fraction in lowest terms: numerator and denominator divided
    /// by the gcd of their magnitudes.
    pub fn reduce(&self) -> (r: Rational)
        ensures
            r@ == reduce_pair(self@),
            coprime(r@.0, r@.1),
            r@.0 * self@.1 == self@.0 * r@.1,
    {
        proof {
            use_type_invariant(self);
        }
        let ghost f = self@;
        let g = gcd_u64(magnitude_u64(self.numerator), magnitude_u64(self.denominator));
        proof {
            lemma_gcd_positive(magnitude(f.0), magnitude(f.1));
            lemma_gcd_divides(magnitude(f.0), magnitude(f.1));
            lemma_divides_magnitude(g as int, f.0);
            lemma_divides_magnitude(g as int, f.1);
            lemma_reduce_pair(f.0, f.1);
        }
        let numerator = divide_exact(self.numerator, g);
        let denominator = divide_exact(self.denominator, g);
        Rational { numerator, denominator }
    }

    /// `self * n`, not reduced: the numerator times `n` over the same
    /// denominator. `None` when that numerator does not fit in an `i64`.
    pub fn multiply_by_integer(&self, n: i64) -> (r: Option<Rational>)
        ensures
            r is Some <==> fits_i64(self@.0 * n),
            r matches Some(f) ==> f@ == (self@.0 * n, self@.1),
    {
        proof {
            use_type_invariant(self);
        }
        match self.numerator.checked_mul(n) {
            Some(numerator) => Some(Rational { numerator, denominator: self.denominator }),
            None => None,
        }
    }

    /// The integer that the fraction equals, when its reduced denominator is 1.
    pub fn as_integer(&self) -> (r: Option<i64>)
        ensures
            r is Some <==> reduce_pair(self@).1 == 1,
            r matches Some(v) ==> v as int == reduce_pair(self@).0,
    {
        let f = self.reduce();
        if f.denominator == 1 {
            Some(f.numerator)
        } else {
            None
        }
    }
}

/// `x` lies in the range of `i64`.
pub open spec fn fits_i64(x: int) -> bool {
    i64::MIN <= x <= i64::MAX
}

} // verus!
