//! The coefficient ring: integers modulo a fixed modulus.

use vstd::prelude::*;

verus! {

/// `p` is at least two and no number strictly between one and `p` divides
/// it.
pub open spec fn is_prime(p: int) -> bool {
    p >= 2 && forall|d: int| 1 < d < p ==> #[trigger] (p % d) != 0
}

/// A common divisor of `a` and `b` that is a combination of the two.
///
/// The result is `(g, x, y, s, t)` with `a == g * s`, `b == g * t` and
/// `a * x + b * y == g`.
proof fn lemma_common_divisor(a: int, b: int) -> (r: (int, int, int, int, int))
    requires
        a >= 0,
        b > 0,
    ensures
        r.0 > 0,
        a == r.0 * r.3,
        b == r.0 * r.4,
        a * r.1 + b * r.2 == r.0,
    decreases a,
{
    if a == 0 {
        (b, 0, 1, 0, 1)
    } else {
        let q = b / a;
        let m = b % a;
        vstd::arithmetic::div_mod::lemma_fundamental_div_mod(b, a);
        vstd::arithmetic::div_mod::lemma_mod_bound(b, a);
        let (g, x1, y1, s1, t1) = lemma_common_divisor(m, a);
        let t = t1 * q + s1;
        let x = y1 - q * x1;
        assert(b == g * t) by (nonlinear_arith)
            requires
                b == a * q + m,
                a == g * t1,
                m == g * s1,
                t == t1 * q + s1,
        ;
        assert(a * x + b * x1 == g) by (nonlinear_arith)
            requires
                b == a * q + m,
                m * x1 + a * y1 == g,
                x == y1 - q * x1,
        ;
        (g, x, x1, t1, t)
    }
}

/// The integers modulo a prime are a field.
pub proof fn lemma_prime_modulus_is_field(ring: RingMetadata)
    requires
        is_prime(ring.modulus as int),
    ensures
        ring.is_field(),
{
    let p = ring.modulus as int;
    assert forall|v: int| ring.residue(v) != 0 implies #[trigger] ring.invertible(v) by {
        let a = v % p;
        vstd::arithmetic::div_mod::lemma_mod_bound(v, p);
        let (g, x, y, s, t) = lemma_common_divisor(a, p);
        assert(t >= 1 && g <= p) by (nonlinear_arith)
            requires
                p == g * t,
                g > 0,
                p > 0,
        ;
        assert(g != p) by (nonlinear_arith)
            requires
                a == g * s,
                0 < a < p,
                g > 0,
        ;
        if g > 1 {
            vstd::arithmetic::div_mod::lemma_mod_multiples_basic(t, g);
            assert(g * t == t * g) by (nonlinear_arith);
            assert(p % g == 0);
        }
        assert(g == 1);
        let w = x % p;
        vstd::arithmetic::div_mod::lemma_mod_bound(x, p);
        vstd::arithmetic::div_mod::lemma_mul_mod_noop_right(a, x, p);
        vstd::arithmetic::div_mod::lemma_mod_multiples_vanish(-y, 1, p);
        vstd::arithmetic::div_mod::lemma_small_mod(1, p as nat);
        assert(a * x == p * (-y) + 1) by (nonlinear_arith)
            requires
                a * x + p * y == 1,
        ;
        assert((a * w) % p == 1);
        assert(ring.is_inverse(v, w));
    }
}

/// Description of the ring of integers modulo `modulus`.
///
/// A coefficient is any `u64`; it stands for its residue class. The results
/// of the ring operations are canonical, that is, below the modulus.
#[derive(Clone, Copy, Debug)]
pub struct RingMetadata {
    pub modulus: u64,
}

impl RingMetadata {
    /// A usable ring has at least the two elements zero and one.
    pub open spec fn wf(&self) -> bool {
        self.modulus >= 2
    }

    /// The canonical representative of `v`.
    pub open spec fn residue(&self, v: int) -> int {
        v % (self.modulus as int)
    }

    /// The canonical representative of the additive inverse of `v`.
    pub open spec fn opposite(&self, v: int) -> int {
        self.residue(self.modulus - self.residue(v))
    }

    /// `w` is the canonical multiplicative inverse of `v`.
    pub open spec fn is_inverse(&self, v: int, w: int) -> bool {
        0 <= w < self.modulus && self.residue(self.residue(v) * w) == 1
    }

    /// `v` is a unit of the ring.
    pub open spec fn invertible(&self, v: int) -> bool {
        exists|w: int| self.is_inverse(v, w)
    }

    /// `w` is the smallest canonical multiplicative inverse of `v`.
    pub open spec fn is_least_inverse(&self, v: int, w: int) -> bool {
        self.is_inverse(v, w) && forall|u: int| 0 <= u < w ==> !self.is_inverse(v, u)
    }

    /// The smallest canonical multiplicative inverse of a unit `v`.
    pub open spec fn least_inverse(&self, v: int) -> int {
        choose|w: int| self.is_least_inverse(v, w)
    }

    /// Every nonzero element is a unit.
    pub open spec fn is_field(&self) -> bool {
        forall|v: int| self.residue(v) != 0 ==> #[trigger] self.invertible(v)
    }

    /// The ring of integers modulo `modulus`, if `modulus` is at least two.
    pub fn new(modulus: u64) -> (r: Option<RingMetadata>)
        ensures
            r.is_some() == (modulus >= 2),
            r.is_some() ==> r.unwrap().modulus == modulus && r.unwrap().wf(),
    {
        if modulus >= 2 {
            Some(RingMetadata { modulus })
        } else {
            None
        }
    }

    /// The additive identity.
    pub fn identity_additive(&self) -> (r: u64)
        ensures
            r == 0,
    {
        0
    }

    /// The multiplicative identity.
    pub fn identity_multiplicative(&self) -> (r: u64)
        requires
            self.wf(),
        ensures
            r == 1,
            r == self.residue(1),
    {
        proof {
            vstd::arithmetic::div_mod::lemma_small_mod(1, self.modulus as nat);
        }
        1
    }

    /// Reduces a value to its canonical representative.
    pub fn simplify(&self, v: u64) -> (r: u64)
        requires
            self.wf(),
        ensures
            r == self.residue(v as int),
            r < self.modulus,
    {
        v % self.modulus
    }

    /// Whether a value stands for zero.
    pub fn is_0(&self, v: u64) -> (r: bool)
        requires
            self.wf(),
        ensures
            r == (self.residue(v as int) == 0),
    {
        v % self.modulus == 0
    }

    /// The canonical sum of two values.
    pub fn sum(&self, a: u64, b: u64) -> (r: u64)
        requires
            self.wf(),
        ensures
            r == self.residue(a + b),
            r < self.modulus,
    {
        let wide: u128 = a as u128 + b as u128;
        let reduced: u128 = wide % (self.modulus as u128);
        reduced as u64
    }

    /// The canonical product of two values.
    pub fn product(&self, a: u64, b: u64) -> (r: u64)
        requires
            self.wf(),
        ensures
            r == self.residue(a * b),
            r < self.modulus,
    {
        assert(a * b <= 0xFFFF_FFFF_FFFF_FFFF * 0xFFFF_FFFF_FFFF_FFFF) by (nonlinear_arith)
            requires
                0 <= a <= 0xFFFF_FFFF_FFFF_FFFF,
                0 <= b <= 0xFFFF_FFFF_FFFF_FFFF,
        ;
        let wide: u128 = (a as u128) * (b as u128);
        let reduced: u128 = wide % (self.modulus as u128);
        reduced as u64
    }

    /// The canonical additive inverse of a value.
    pub fn negate(&self, a: u64) -> (r: u64)
        requires
            self.wf(),
        ensures
            r == self.opposite(a as int),
            r < self.modulus,
    {
        let low: u64 = a % self.modulus;
        (self.modulus - low) % self.modulus
    }

    /// The smallest canonical multiplicative inverse of a value, or `None`
    /// when the value is not a unit of the ring.
    pub fn inverse(&self, v: u64) -> (r: Option<u64>)
        requires
            self.wf(),
        ensures
            r.is_some() == self.invertible(v as int),
            r.is_some() ==> r.unwrap() == self.least_inverse(v as int),
            r.is_some() ==> self.is_least_inverse(v as int, r.unwrap() as int),
    {
        let low: u64 = v % self.modulus;
        let mut w: u64 = 0;
        while w < self.modulus
            invariant
                self.wf(),
                low == self.residue(v as int),
                0 <= w <= self.modulus,
                forall|u: int| 0 <= u < w ==> !self.is_inverse(v as int, u),
            decreases self.modulus - w,
        {
            let p: u64 = self.product(low, w);
            if p == 1 {
                assert(p == self.residue(low * w));
                assert(self.is_inverse(v as int, w as int));
                assert(self.is_least_inverse(v as int, w as int));
                let ghost chosen = self.least_inverse(v as int);
                assert(self.is_least_inverse(v as int, chosen));
                assert(chosen == w) by {
                    if chosen < w {
                        assert(!self.is_inverse(v as int, chosen));
                    }
                    if w < chosen {
                        assert(!self.is_inverse(v as int, w as int));
                    }
                }
                return Some(w);
            }
            assert(!self.is_inverse(v as int, w as int));
            w = w + 1;
        }
        None
    }
}

} // verus!
