//! Modular arithmetic over the integers: the greatest common divisor, modular
//! powers, and the lemmas that the finite-field code of this crate rests on.
use vstd::arithmetic::div_mod::{
    lemma_add_mod_noop, lemma_fundamental_div_mod, lemma_fundamental_div_mod_converse,
    lemma_mod_bound, lemma_mul_mod_noop_general, lemma_sub_mod_noop,
};
use vstd::prelude::*;

verus! {

/// Greatest common divisor by Euclid's recursion.
pub open spec fn gcd(a: nat, b: nat) -> nat
    decreases b,
{
    if b == 0 {
        a
    } else {
        gcd(b, a % b)
    }
}

/// `base` raised to `exp`, as a mathematical integer.
pub open spec fn pow(base: int, exp: nat) -> int
    decreases exp,
{
    if exp == 0 {
        1
    } else {
        base * pow(base, (exp - 1) as nat)
    }
}

/// What the truncating remainder of Rust computes, in terms of the Euclidean one.
pub proof fn lemma_trunc_rem(a: int, p: int)
    requires
        p > 0,
    ensures
        a >= 0 ==> a % p == a % p,
        a < 0 ==> (if (-a) % p == 0 {
            a % p == 0
        } else {
            a % p == p - (-a) % p
        }),
{
    if a < 0 {
        let t = (-a) % p;
        let q = (-a) / p;
        lemma_fundamental_div_mod(-a, p);
        lemma_mod_bound(-a, p);
        if t == 0 {
            assert(a == (-q) * p + 0) by (nonlinear_arith)
                requires
                    -a == p * q + t,
                    t == 0,
            ;
            lemma_fundamental_div_mod_converse(a, p, -q, 0);
        } else {
            assert(a == (-q - 1) * p + (p - t)) by (nonlinear_arith)
                requires
                    -a == p * q + t,
            ;
            lemma_fundamental_div_mod_converse(a, p, -q - 1, p - t);
        }
    }
}

/// A multiple of `p` stays a multiple under integer combinations.
pub proof fn lemma_divisible_combination(x: int, y: int, q: int, p: int)
    requires
        p > 0,
        x % p == 0,
        y % p == 0,
    ensures
        (x - q * y) % p == 0,
        (x + y) % p == 0,
{
    lemma_fundamental_div_mod(x, p);
    lemma_fundamental_div_mod(y, p);
    let a = x / p;
    let b = y / p;
    assert(x - q * y == (a - q * b) * p + 0) by (nonlinear_arith)
        requires
            x == p * a + 0,
            y == p * b + 0,
    ;
    lemma_fundamental_div_mod_converse(x - q * y, p, a - q * b, 0);
    assert(x + y == (a + b) * p + 0) by (nonlinear_arith)
        requires
            x == p * a + 0,
            y == p * b + 0,
    ;
    lemma_fundamental_div_mod_converse(x + y, p, a + b, 0);
}

/// Congruence modulo `p` is kept by multiplication.
pub proof fn lemma_mul_congruent(x: int, y: int, z: int, p: int)
    requires
        p > 0,
        x % p == y % p,
    ensures
        (x * z) % p == (y * z) % p,
{
    lemma_mul_mod_noop_general(x, z, p);
    lemma_mul_mod_noop_general(y, z, p);
}

/// `(x % p) * y` and `x * y` agree modulo `p`; so do sums and differences.
pub proof fn lemma_mod_ops(x: int, y: int, p: int)
    requires
        p > 0,
    ensures
        ((x % p) * (y % p)) % p == (x * y) % p,
        ((x % p) * y) % p == (x * y) % p,
        (x * (y % p)) % p == (x * y) % p,
        ((x % p) + (y % p)) % p == (x + y) % p,
        ((x % p) - (y % p)) % p == (x - y) % p,
        (x + (y % p)) % p == (x + y) % p,
        (x - (y % p)) % p == (x - y) % p,
        ((x % p) + y) % p == (x + y) % p,
        ((x % p) - y) % p == (x - y) % p,
        (x % p) % p == x % p,
        0 <= x % p < p,
{
    lemma_mul_mod_noop_general(x, y, p);
    lemma_add_mod_noop(x, y, p);
    lemma_sub_mod_noop(x, y, p);
    lemma_add_mod_noop(x, y % p, p);
    lemma_sub_mod_noop(x, y % p, p);
    lemma_add_mod_noop(x % p, y, p);
    lemma_sub_mod_noop(x % p, y, p);
    lemma_mod_bound(x, p);
    lemma_mod_bound(y, p);
    vstd::arithmetic::div_mod::lemma_small_mod((y % p) as nat, p as nat);
    vstd::arithmetic::div_mod::lemma_small_mod((x % p) as nat, p as nat);
}

/// Residues can replace the values in an integer combination.
pub proof fn lemma_lin_mod(alpha: int, x: int, beta: int, y: int, p: int)
    requires
        p > 0,
    ensures
        (alpha * (x % p) + beta * (y % p)) % p == (alpha * x + beta * y) % p,
{
    lemma_mod_ops(alpha, x, p);
    lemma_mod_ops(beta, y, p);
    lemma_mod_ops(alpha * (x % p), beta * (y % p), p);
    lemma_mod_ops(alpha * x, beta * y, p);
    assert((alpha * (x % p)) % p == (alpha * x) % p) by {
        lemma_mod_ops(alpha, x, p);
    }
    assert((beta * (y % p)) % p == (beta * y) % p) by {
        lemma_mod_ops(beta, y, p);
    }
}

/// A value already in `[0, p)` is its own residue.
pub proof fn lemma_small(x: int, p: int)
    requires
        0 <= x < p,
    ensures
        x % p == x,
{
    vstd::arithmetic::div_mod::lemma_small_mod(x as nat, p as nat);
}

/// `pow` splits over a successor exponent.
pub proof fn lemma_pow_add(base: int, a: nat, b: nat)
    ensures
        pow(base, a + b) == pow(base, a) * pow(base, b),
    decreases a,
{
    if a == 0 {
        assert(pow(base, b) == 1 * pow(base, b));
    } else {
        lemma_pow_add(base, (a - 1) as nat, b);
        assert(pow(base, a + b) == base * pow(base, (a - 1 + b) as nat));
        assert(base * (pow(base, (a - 1) as nat) * pow(base, b)) == (base * pow(
            base,
            (a - 1) as nat,
        )) * pow(base, b)) by (nonlinear_arith);
    }
}

/// Residues of powers only depend on the residue of the base.
pub proof fn lemma_pow_mod(base: int, exp: nat, p: int)
    requires
        p > 0,
    ensures
        pow(base % p, exp) % p == pow(base, exp) % p,
    decreases exp,
{
    if exp > 0 {
        lemma_pow_mod(base, (exp - 1) as nat, p);
        let a = pow(base % p, (exp - 1) as nat);
        let b = pow(base, (exp - 1) as nat);
        lemma_mod_ops(base % p, a, p);
        lemma_mod_ops(base, b, p);
        lemma_mod_ops(base % p, b, p);
        lemma_mod_ops(base, a, p);
        assert((base % p) * a % p == (base % p) * (a % p) % p);
        assert((base % p) * (b % p) % p == (base % p) * b % p);
        assert((base % p) * b % p == base * b % p) by {
            lemma_mod_ops(base, b, p);
        }
    }
}


/// The greatest common divisor divides both arguments, and is positive
/// unless both are zero.
pub proof fn lemma_gcd_divides(a: nat, b: nat)
    ensures
        (a > 0 || b > 0) ==> gcd(a, b) > 0,
        gcd(a, b) > 0 ==> a % gcd(a, b) == 0 && b % gcd(a, b) == 0,
        gcd(a, b) <= if a > b { a } else { b },
    decreases b,
{
    if b > 0 {
        let r = a % b;
        lemma_mod_bound(a as int, b as int);
        lemma_gcd_divides(b, r as nat);
        let g = gcd(b, r as nat);
        if g > 0 {
            lemma_fundamental_div_mod(a as int, b as int);
            let q = a as int / b as int;
            let qb = b as int / g as int;
            let qr = r as int / g as int;
            lemma_fundamental_div_mod(b as int, g as int);
            lemma_fundamental_div_mod(r as int, g as int);
            assert(a as int == (q * qb + qr) * g + 0) by (nonlinear_arith)
                requires
                    a as int == b as int * q + r,
                    b as int == g * qb + 0,
                    r == g * qr + 0,
            ;
            lemma_fundamental_div_mod_converse(a as int, g as int, q * qb + qr, 0);
        }
    }
}

/// `gcd(a c, b c) = gcd(a, b) c`.
pub proof fn lemma_gcd_scale(a: nat, b: nat, c: nat)
    requires
        c > 0,
    ensures
        gcd(a * c, b * c) == gcd(a, b) * c,
    decreases b,
{
    if b == 0 {
        assert(b * c == 0);
    } else {
        let q = a / b;
        let r = a % b;
        vstd::arithmetic::div_mod::lemma_fundamental_div_mod(a as int, b as int);
        assert(a * c == q * (b * c) + r * c) by (nonlinear_arith)
            requires
                a == b * q + r,
        ;
        assert(0 <= r * c < b * c) by (nonlinear_arith)
            requires
                0 <= r < b,
                c > 0,
        ;
        assert(b * c > 0) by (nonlinear_arith)
            requires
                b > 0,
                c > 0,
        ;
        vstd::arithmetic::div_mod::lemma_fundamental_div_mod_converse((a * c) as int, (b * c) as int, q as int, (r * c) as int);
        assert(((a * c) as nat) % ((b * c) as nat) == (r * c) as nat);
        lemma_gcd_scale(b, r, c);
    }
}

/// A common divisor of `a` and `b` divides `gcd(a, b)`.
pub proof fn lemma_common_divides_gcd(a: nat, b: nat, d: nat)
    requires
        d > 0,
        a % d == 0,
        b % d == 0,
    ensures
        gcd(a, b) % d == 0,
    decreases b,
{
    if b > 0 {
        let r = a % b;
        vstd::arithmetic::div_mod::lemma_fundamental_div_mod(a as int, b as int);
        vstd::arithmetic::div_mod::lemma_fundamental_div_mod(a as int, d as int);
        vstd::arithmetic::div_mod::lemma_fundamental_div_mod(b as int, d as int);
        let (qa, qb, q) = (a as int / d as int, b as int / d as int, a as int / b as int);
        assert(r == (qa - q * qb) * d) by (nonlinear_arith)
            requires
                a == b * q + r,
                a == d * qa,
                b == d * qb,
        ;
        assert(r % d == 0) by {
            vstd::arithmetic::div_mod::lemma_mod_multiples_basic(qa - q * qb, d as int);
        }
        lemma_common_divides_gcd(b, r, d);
    }
}

/// When `b` divides `a c` and has no common divisor with `a`, it divides `c`.
pub proof fn lemma_coprime_divides(a: nat, b: nat, c: nat)
    requires
        b > 0,
        gcd(a, b) == 1,
        (a * c) % b == 0,
    ensures
        c % b == 0,
{
    if c == 0 {
        assert(c % b == 0);
    } else {
        lemma_gcd_scale(a, b, c);
        assert((b * c) % b == 0) by {
            vstd::arithmetic::div_mod::lemma_mod_multiples_basic(c as int, b as int);
            assert(b * c == c * b) by (nonlinear_arith);
        }
        lemma_common_divides_gcd(a * c, b * c, b);
        assert(gcd(a, b) * c == c);
    }
}

/// A divisor `b` of `a` is their greatest common divisor.
pub proof fn lemma_gcd_of_divisor(a: nat, b: nat)
    requires
        b > 0,
        a % b == 0,
    ensures
        gcd(a, b) == b,
{
    assert(gcd(a, b) == gcd(b, a % b));
    assert(gcd(b, 0) == b);
}

} // verus!
