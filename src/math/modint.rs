use vstd::prelude::*;

use vstd::arithmetic::div_mod::{
    lemma_fundamental_div_mod, lemma_fundamental_div_mod_converse_mod, lemma_mod_twice, lemma_small_mod,
    lemma_mul_mod_noop_general,
};
use vstd::arithmetic::power::{lemma_pow_mod_noop, lemma_pow_multiplies, pow};

verus! {

/// An integer modulo a positive modulus, held as its least non-negative residue.
pub struct ModInt {
    value: i64,
    modulus: i64,
}

impl ModInt {
    #[verifier::type_invariant]
    spec fn inv(&self) -> bool {
        0 < self.modulus && 0 <= self.value < self.modulus
    }

    /// The residue, in `[0, modulus)`.
    pub closed spec fn residue(&self) -> int {
        self.value as int
    }

    /// The modulus.
    pub closed spec fn modulus(&self) -> int {
        self.modulus as int
    }

    /// The residue of `value` modulo `modulus`.
    pub fn new(value: i64, modulus: i64) -> (r: ModInt)
        requires
            modulus > 0,
        ensures
            r.modulus() == modulus,
            r.residue() == value % modulus,
    {
        let v = if value >= 0 {
            value % modulus
        } else {
            // For negative `value`, work from `-(value + 1)`, which is non-negative and cannot
            // overflow, so that only remainders of non-negative numbers are taken.
            let k = -(value + 1);
            let q = k % modulus;
            proof {
                lemma_fundamental_div_mod(k as int, modulus as int);
                let t = k / modulus;
                assert(value == (-t - 1) * modulus + (modulus - 1 - q)) by (nonlinear_arith)
                    requires
                        k == modulus * t + q,
                        value == -k - 1,
                ;
                lemma_fundamental_div_mod_converse_mod(value as int, modulus as int, -t - 1, modulus - 1 - q);
            }
            modulus - 1 - q
        };
        ModInt { value: v, modulus }
    }

    /// The sum of two residues of one modulus.
    pub fn add(&self, other: &ModInt) -> (r: ModInt)
        requires
            self.modulus() == other.modulus(),
        ensures
            r.modulus() == self.modulus(),
            r.residue() == (self.residue() + other.residue()) % self.modulus(),
    {
        proof {
            use_type_invariant(self);
            use_type_invariant(other);
        }
        let m = self.modulus;
        let v = if self.value >= m - other.value {
            proof {
                lemma_fundamental_div_mod_converse_mod(self.value + other.value, m as int, 1, self.value + other.value - m);
            }
            self.value - (m - other.value)
        } else {
            proof {
                lemma_fundamental_div_mod_converse_mod(self.value + other.value, m as int, 0, self.value + other.value);
            }
            self.value + other.value
        };
        ModInt { value: v, modulus: m }
    }

    /// The difference of two residues of one modulus.
    pub fn sub(&self, other: &ModInt) -> (r: ModInt)
        requires
            self.modulus() == other.modulus(),
        ensures
            r.modulus() == self.modulus(),
            r.residue() == (self.residue() - other.residue()) % self.modulus(),
    {
        proof {
            use_type_invariant(self);
            use_type_invariant(other);
        }
        let m = self.modulus;
        let v = if self.value >= other.value {
            proof {
                lemma_fundamental_div_mod_converse_mod(self.value - other.value, m as int, 0, self.value - other.value);
            }
            self.value - other.value
        } else {
            proof {
                lemma_fundamental_div_mod_converse_mod(self.value - other.value, m as int, -1, self.value - other.value + m);
            }
            m - (other.value - self.value)
        };
        ModInt { value: v, modulus: m }
    }

    /// The product of two residues of one modulus.
    pub fn mul(&self, other: &ModInt) -> (r: ModInt)
        requires
            self.modulus() == other.modulus(),
        ensures
            r.modulus() == self.modulus(),
            r.residue() == (self.residue() * other.residue()) % self.modulus(),
    {
        proof {
            use_type_invariant(self);
            use_type_invariant(other);
        }
        let m = self.modulus;
        let a = self.value as i128;
        let b = other.value as i128;
        assert(0 <= a * b <= 0x7fff_ffff_ffff_ffff * 0x7fff_ffff_ffff_ffff) by (nonlinear_arith)
            requires
                0 <= a <= 0x7fff_ffff_ffff_ffff,
                0 <= b <= 0x7fff_ffff_ffff_ffff,
        ;
        let p = (a * b) % (m as i128);
        ModInt { value: p as i64, modulus: m }
    }

    /// This residue raised to `exponent`; an exponent of zero or less gives the residue of one.
    pub fn pow(&self, exponent: i64) -> (r: ModInt)
        ensures
            r.modulus() == self.modulus(),
            r.residue() == pow(self.residue(), if exponent > 0 { exponent as nat } else { 0 })
                % self.modulus(),
    {
        proof {
            use_type_invariant(self);
        }
        let ghost m = self.modulus();
        let ghost a = self.residue();
        let ghost e0: nat = if exponent > 0 { exponent as nat } else { 0 };
        let mut result = ModInt::new(1, self.modulus);
        let mut base = ModInt { value: self.value, modulus: self.modulus };
        let mut exp = exponent;
        proof {
            reveal(pow);
            lemma_mod_twice(1, m);
            lemma_mul_mod_noop_general(1, pow(a, e0), m);
        }
        while exp > 0
            invariant
                m > 0,
                result.modulus() == m,
                base.modulus() == m,
                exp > 0 ==> exp == e0 || exp < e0,
                exp <= 0 ==> e0 == 0 || exp >= 0,
                exp >= 0 || e0 == 0,
                (result.residue() * pow(base.residue(), if exp > 0 { exp as nat } else { 0 })) % m
                    == pow(a, e0) % m,
            decreases exp,
        {
            proof {
                use_type_invariant(&result);
                use_type_invariant(&base);
                lemma_pow_step(result.residue(), base.residue(), exp as nat, m);
            }
            if exp % 2 == 1 {
                result = result.mul(&base);
            }
            base = base.mul(&base);
            exp = exp / 2;
        }
        proof {
            reveal(pow);
            use_type_invariant(&result);
            lemma_small_mod(result.residue() as nat, m as nat);
        }
        result
    }

    /// The residue.
    pub fn value(&self) -> (r: i64)
        ensures
            r == self.residue(),
            0 <= r < self.modulus(),
    {
        proof {
            use_type_invariant(self);
        }
        self.value
    }
}

impl Clone for ModInt {
    fn clone(&self) -> (r: ModInt)
        ensures
            r.residue() == self.residue(),
            r.modulus() == self.modulus(),
    {
        proof {
            use_type_invariant(self);
        }
        ModInt { value: self.value, modulus: self.modulus }
    }
}

/// One step of square-and-multiply keeps `r * b^e` unchanged modulo `m`.
proof fn lemma_pow_step(r: int, b: int, e: nat, m: int)
    requires
        m > 0,
        e > 0,
    ensures
        (if e % 2 == 1 { (r * b) % m } else { r }) * pow((b * b) % m, e / 2) % m == (r * pow(b, e)) % m,
{
    reveal(pow);
    let h = e / 2;
    lemma_pow_multiplies(b, 2, h);
    assert(pow(b, 2) == b * b) by {
        assert(pow(b, 1) == b * pow(b, 0));
    }
    lemma_pow_mod_noop(b * b, h, m);
    let q = pow((b * b) % m, h);
    let p = pow(b * b, h);
    assert(q % m == p % m);
    if e % 2 == 1 {
        assert(pow(b, e) == b * pow(b, (2 * h) as nat)) by {
            assert(e == 2 * h + 1);
        }
        lemma_mul_mod_noop_general(r * b, q, m);
        lemma_mul_mod_noop_general(r * b, p, m);
        assert((r * b) * p == r * (b * p)) by (nonlinear_arith);
    } else {
        assert(e == 2 * h);
        lemma_mul_mod_noop_general(r, q, m);
        lemma_mul_mod_noop_general(r, p, m);
    }
}

} // verus!
