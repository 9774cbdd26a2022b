//! The prime field `Z/pZ` with `u64` residues.
use crate::error::ExperimentError;
use crate::modular::{gcd, lemma_divisible_combination, lemma_mod_ops, lemma_small};
use vstd::prelude::*;

verus! {

/// A residue; it belongs to a field whose modulus exceeds its value.
#[derive(Clone, Copy, Debug, PartialEq, Eq, Structural)]
pub struct Fp {
    value: u64,
}

impl Fp {
    /// The residue as a natural number.
    pub closed spec fn val(self) -> int {
        self.value as int
    }

    pub fn is_zero(self) -> (r: bool)
        ensures
            r == (self.val() == 0),
    {
        self.value == 0
    }
}

/// Two residues are equal exactly when their values are.
pub proof fn lemma_fp_eq(a: Fp, b: Fp)
    ensures
        (a == b) <==> (a.val() == b.val()),
        0 <= a.val() <= u64::MAX,
{
}

/// The field of residues modulo `prime`.
#[derive(Clone, Copy, Debug)]
pub struct Field {
    prime: u64,
}

impl Field {
    /// The modulus.
    pub closed spec fn modulus(self) -> int {
        self.prime as int
    }

    /// A usable modulus: at least 2.
    pub open spec fn wf(self) -> bool {
        self.modulus() >= 2 && self.modulus() <= u64::MAX
    }

    /// `x` is a residue of this field.
    pub open spec fn holds(self, x: Fp) -> bool {
        0 <= x.val() < self.modulus()
    }

    /// The residue that stands for the integer `v`.
    pub open spec fn of(self, v: int) -> int {
        v % self.modulus()
    }

    pub proof fn lemma_modulus_bound(self)
        ensures
            self.modulus() <= u64::MAX,
    {
    }

    pub fn new(prime: u64) -> (r: Result<Self, ExperimentError>)
        ensures
            match r {
                Ok(f) => prime >= 2 && f.modulus() == prime && f.wf(),
                Err(ExperimentError::InvalidConfig(msg)) => prime < 2 && msg@ == "prime must be >= 2"@,
            },
    {
        if prime < 2 {
            return Err(ExperimentError::InvalidConfig("prime must be >= 2".to_string()));
        }
        Ok(Self { prime })
    }

    pub fn prime(self) -> (r: u64)
        ensures
            r == self.modulus(),
    {
        self.prime
    }

    pub fn zero(self) -> (r: Fp)
        ensures
            r.val() == 0,
    {
        Fp { value: 0 }
    }

    pub fn one(self) -> (r: Fp)
        requires
            self.wf(),
        ensures
            r.val() == 1,
    {
        proof {
            lemma_small(1, self.prime as int);
        }
        self.reduce_u64(1)
    }

    pub fn reduce_u64(self, value: u64) -> (r: Fp)
        requires
            self.wf(),
        ensures
            r.val() == self.of(value as int),
            self.holds(r),
    {
        Fp { value: value % self.prime }
    }

    pub fn reduce_i64(self, value: i64) -> (r: Fp)
        requires
            self.wf(),
        ensures
            r.val() == self.of(value as int),
            self.holds(r),
    {
        let prime = self.prime as i128;
        let v = value as i128;
        let mut reduced = v % prime;
        proof {
            crate::modular::lemma_trunc_rem(v as int, prime as int);
            lemma_mod_ops(v as int, prime as int, prime as int);
        }
        if reduced < 0 {
            reduced = reduced + prime;
        }
        proof {
            if v < 0 {
                let t = (-v) as int % prime as int;
                assert(reduced == 0 || reduced == prime - t);
            }
        }
        Fp { value: reduced as u64 }
    }

    pub fn add(self, left: Fp, right: Fp) -> (r: Fp)
        requires
            self.wf(),
            self.holds(left),
            self.holds(right),
        ensures
            r.val() == self.of(left.val() + right.val()),
            self.holds(r),
    {
        let sum = (left.value as u128 + right.value as u128) % self.prime as u128;
        Fp { value: sum as u64 }
    }

    pub fn sub(self, left: Fp, right: Fp) -> (r: Fp)
        requires
            self.wf(),
            self.holds(left),
            self.holds(right),
        ensures
            r.val() == self.of(left.val() - right.val()),
            self.holds(r),
    {
        let ghost p = self.prime as int;
        if left.value >= right.value {
            proof {
                lemma_small(left.val() - right.val(), p);
            }
            Fp { value: left.value - right.value }
        } else {
            proof {
                let d = left.val() - right.val();
                lemma_small(d + p, p);
                vstd::arithmetic::div_mod::lemma_mod_add_multiples_vanish(d, p);
            }
            Fp { value: self.prime - (right.value - left.value) }
        }
    }

    pub fn mul(self, left: Fp, right: Fp) -> (r: Fp)
        requires
            self.wf(),
            self.holds(left),
            self.holds(right),
        ensures
            r.val() == self.of(left.val() * right.val()),
            self.holds(r),
    {
        proof {
            assert(left.value as u128 * right.value as u128 <= u64::MAX as u128 * u64::MAX as u128)
                by (nonlinear_arith)
                requires
                    left.value <= u64::MAX,
                    right.value <= u64::MAX,
            ;
        }
        let prod = (left.value as u128 * right.value as u128) % self.prime as u128;
        Fp { value: prod as u64 }
    }

    /// The multiplicative inverse by the extended Euclidean algorithm.
    pub fn inv(self, value: Fp) -> (r: Option<Fp>)
        requires
            self.wf(),
            self.holds(value),
        ensures
            r.is_some() <==> (value.val() != 0 && gcd(self.modulus() as nat, value.val() as nat) == 1),
            r matches Some(y) ==> self.holds(y) && self.of(y.val() * value.val()) == 1,
    {
        if value.is_zero() {
            return None;
        }
        let ghost p = self.prime as int;
        let ghost v = value.value as int;
        let mut t: i128 = 0;
        let mut new_t: i128 = 1;
        let mut r: i128 = self.prime as i128;
        let mut new_r: i128 = value.value as i128;
        proof {
            assert((0 * v - p) % p == 0) by {
                assert(0 * v - p == (-1) * p);
                vstd::arithmetic::div_mod::lemma_mod_multiples_basic(-1, p);
            }
            assert((1 * v - v) % p == 0) by {
                lemma_small(0, p);
            }
        }
        while new_r != 0
            invariant
                p == self.prime,
                p >= 2,
                v == value.val(),
                0 < v < p,
                0 <= new_r < r <= p,
                gcd(r as nat, new_r as nat) == gcd(p as nat, v as nat),
                (t * v - r) % p == 0,
                (new_t * v - new_r) % p == 0,
                t * new_r - new_t * r == p || t * new_r - new_t * r == -p,
                (t <= 0 && new_t >= 0) || (t >= 0 && new_t <= 0),
                -p <= t <= p,
            decreases new_r,
        {
            let ghost (t0, nt0, r0, nr0) = (t, new_t, r, new_r);
            let q = r / new_r;
            proof {
                assert(0 <= q) by (nonlinear_arith)
                    requires
                        r0 > 0,
                        nr0 > 0,
                        q == r0 / nr0,
                ;
                vstd::arithmetic::div_mod::lemma_fundamental_div_mod(r0 as int, nr0 as int);
                assert(q * nr0 <= r0) by (nonlinear_arith)
                    requires
                        r0 == nr0 * q + r0 % nr0,
                        r0 % nr0 >= 0,
                ;
                // |new_t| * r <= p from the determinant identity and the sign pattern
                let a = if nt0 >= 0 { nt0 as int } else { -nt0 as int };
                if nt0 >= 0 && t0 <= 0 {
                    assert(t0 * nr0 <= 0) by (nonlinear_arith)
                        requires
                            t0 <= 0,
                            nr0 > 0,
                    ;
                    assert(nt0 * r0 >= 0) by (nonlinear_arith)
                        requires
                            nt0 >= 0,
                            r0 > 0,
                    ;
                    assert(a * r0 == nt0 * r0);
                } else {
                    assert(t0 * nr0 >= 0) by (nonlinear_arith)
                        requires
                            t0 >= 0,
                            nr0 > 0,
                    ;
                    assert(nt0 * r0 <= 0) by (nonlinear_arith)
                        requires
                            nt0 <= 0,
                            r0 > 0,
                    ;
                    assert(a * r0 == -(nt0 * r0)) by (nonlinear_arith)
                        requires
                            a == -nt0,
                    ;
                }
                assert(a * r0 <= p);
                assert(q * a <= p) by (nonlinear_arith)
                    requires
                        q * nr0 <= r0,
                        a * r0 <= p,
                        q >= 0,
                        a >= 0,
                        nr0 >= 1,
                ;
                assert(a <= p) by (nonlinear_arith)
                    requires
                        a * r0 <= p,
                        r0 >= 1,
                        a >= 0,
                ;
                assert(-p <= q * nt0 <= p) by (nonlinear_arith)
                    requires
                        q * a <= p,
                        q >= 0,
                        a == (if nt0 >= 0 { nt0 as int } else { -nt0 as int }),
                ;
            }
            let next_t = t - q * new_t;
            t = new_t;
            new_t = next_t;
            let next_r = r - q * new_r;
            r = new_r;
            new_r = next_r;
            proof {
                vstd::arithmetic::div_mod::lemma_fundamental_div_mod(r0 as int, nr0 as int);
                vstd::arithmetic::div_mod::lemma_mod_bound(r0 as int, nr0 as int);
                assert(next_r == r0 % nr0) by (nonlinear_arith)
                    requires
                        r0 == nr0 * (r0 / nr0) + r0 % nr0,
                        q == r0 / nr0,
                        next_r == r0 - q * nr0,
                ;
                assert(gcd(r0 as nat, nr0 as nat) == gcd(nr0 as nat, (r0 as nat) % (nr0 as nat)));
                // congruences
                assert(next_t * v - next_r == (t0 * v - r0) - q * (nt0 * v - nr0)) by (nonlinear_arith)
                    requires
                        next_t == t0 - q * nt0,
                        next_r == r0 - q * nr0,
                ;
                lemma_divisible_combination(t0 * v - r0, nt0 * v - nr0, q as int, p);
                // determinant
                assert(nt0 * next_r - next_t * nr0 == -(t0 * nr0 - nt0 * r0)) by (nonlinear_arith)
                    requires
                        next_t == t0 - q * nt0,
                        next_r == r0 - q * nr0,
                ;
                assert((nt0 <= 0 && next_t >= 0) || (nt0 >= 0 && next_t <= 0)) by (nonlinear_arith)
                    requires
                        (t0 <= 0 && nt0 >= 0) || (t0 >= 0 && nt0 <= 0),
                        next_t == t0 - q * nt0,
                        q >= 0,
                ;
            }
        }
        if r != 1 {
            return None;
        }
        let ghost t1 = t;
        if t < 0 {
            t += self.prime as i128;
        }
        proof {
            // t*v ≡ 1 and the shifted t is congruent to it
            assert((t * v - 1) % p == 0) by {
                if t1 < 0 {
                    assert(t * v - 1 == (t1 * v - 1) + v * p) by (nonlinear_arith)
                        requires
                            t == t1 + p,
                    ;
                    assert((v * p) % p == 0) by {
                        vstd::arithmetic::div_mod::lemma_mod_multiples_basic(v, p);
                    }
                    lemma_divisible_combination(t1 * v - 1, v * p, -1, p);
                    assert((t1 * v - 1) - (-1) * (v * p) == t * v - 1) by (nonlinear_arith)
                        requires
                            t == t1 + p,
                    ;
                }
            }
            assert(0 <= t <= p);
            vstd::arithmetic::div_mod::lemma_mod_equivalence(t * v, 1, p);
            lemma_small(1, p);
            lemma_mod_ops(t as int, v, p);
        }
        Some(self.reduce_u64(t as u64))
    }
}

} // verus!
