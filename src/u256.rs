use vstd::prelude::*;

verus! {

/// The radix of one limb.
pub open spec fn limb_base() -> nat {
    0x1_0000_0000_0000_0000nat
}

/// An unsigned 256-bit integer held as four 64-bit limbs, least significant first.
#[derive(Clone, Copy, Debug, PartialEq, Eq, Structural)]
pub struct U256 {
    pub w0: u64,
    pub w1: u64,
    pub w2: u64,
    pub w3: u64,
}

/// 2^256.
pub open spec fn u256_modulus() -> nat {
    limb_base() * limb_base() * limb_base() * limb_base()
}

/// The easiest target that a chain accepts: the 208 low bits set.
pub open spec fn min_target_value() -> nat {
    0xFFFF_FFFF_FFFF_FFFF_FFFF_FFFF_FFFF_FFFF_FFFF_FFFF_FFFF_FFFF_FFFFnat
}

impl U256 {
    /// The number that the limbs stand for.
    pub open spec fn value(self) -> nat {
        self.w0 as nat + limb_base() * (self.w1 as nat + limb_base() * (self.w2 as nat
            + limb_base() * (self.w3 as nat)))
    }

    pub fn zero() -> (r: U256)
        ensures
            r.value() == 0,
    {
        U256 { w0: 0, w1: 0, w2: 0, w3: 0 }
    }

    pub fn from_u64(v: u64) -> (r: U256)
        ensures
            r.value() == v,
    {
        U256 { w0: v, w1: 0, w2: 0, w3: 0 }
    }

    pub fn min_target() -> (r: U256)
        ensures
            r.value() == min_target_value(),
    {
        let r = U256 {
            w0: 0xFFFF_FFFF_FFFF_FFFF,
            w1: 0xFFFF_FFFF_FFFF_FFFF,
            w2: 0xFFFF_FFFF_FFFF_FFFF,
            w3: 0x0000_0000_0000_FFFF,
        };
        proof {
            let b = limb_base();
            let v = r.value();
            assert(v == 0xFFFF_FFFF_FFFF_FFFFnat + b * (0xFFFF_FFFF_FFFF_FFFFnat + b * (
            0xFFFF_FFFF_FFFF_FFFFnat + b * 0xFFFFnat)));
            let t = min_target_value();
            assert(t == 0xFFFF_FFFF_FFFF_FFFF_FFFF_FFFF_FFFF_FFFF_FFFF_FFFF_FFFF_FFFF_FFFFnat);
            assert(v == t) by (nonlinear_arith)
                requires
                    t == 0xFFFF_FFFF_FFFF_FFFF_FFFF_FFFF_FFFF_FFFF_FFFF_FFFF_FFFF_FFFF_FFFFnat,
                    b == 0x1_0000_0000_0000_0000nat,
                    v == 0xFFFF_FFFF_FFFF_FFFFnat + b * (0xFFFF_FFFF_FFFF_FFFFnat + b * (
                    0xFFFF_FFFF_FFFF_FFFFnat + b * 0xFFFFnat)),
            ;
        }
        r
    }

    pub proof fn lemma_bounds(self)
        ensures
            self.value() < u256_modulus(),
            self.w3 as nat * (limb_base() * limb_base() * limb_base()) <= self.value(),
            self.value() < (self.w3 as nat + 1) * (limb_base() * limb_base() * limb_base()),
    {
        let b = limb_base();
        let (a0, a1, a2, a3) = (self.w0 as nat, self.w1 as nat, self.w2 as nat, self.w3 as nat);
        assert(a0 + b * (a1 + b * (a2 + b * a3)) == a0 + b * a1 + b * b * a2 + b * b * b * a3)
            by (nonlinear_arith);
        lemma_horner_lt(a1, a2, 0, b, b);
        lemma_horner_lt(a0, a1 + b * a2, 0, b * b, b);
        assert(a0 + b * (a1 + b * a2) == a0 + b * a1 + b * b * a2) by (nonlinear_arith);
        assert(b * b * b * a3 + b * b * b == (a3 + 1) * (b * b * b)) by (nonlinear_arith);
        assert(a3 * (b * b * b) == b * b * b * a3) by (nonlinear_arith);
        assert((a3 + 1) * (b * b * b) <= b * (b * b * b)) by (nonlinear_arith)
            requires
                a3 < b,
        ;
        let md = u256_modulus();
        assert(b * (b * b * b) == md) by (nonlinear_arith)
            requires
                md == b * b * b * b,
        ;
    }

    /// Numeric comparison: the limbs are compared from the most significant one down.
    pub fn le(&self, other: &U256) -> (r: bool)
        ensures
            r == (self.value() <= other.value()),
    {
        proof {
            lemma_lex_order(*self, *other);
        }
        if self.w3 != other.w3 {
            self.w3 < other.w3
        } else if self.w2 != other.w2 {
            self.w2 < other.w2
        } else if self.w1 != other.w1 {
            self.w1 < other.w1
        } else {
            self.w0 <= other.w0
        }
    }

    pub fn lt(&self, other: &U256) -> (r: bool)
        ensures
            r == (self.value() < other.value()),
    {
        !other.le(self)
    }

    /// The smaller of two numbers.
    pub fn min(self, other: U256) -> (r: U256)
        ensures
            r.value() == if self.value() <= other.value() {
                self.value()
            } else {
                other.value()
            },
    {
        if self.le(&other) {
            self
        } else {
            other
        }
    }

    /// Multiplication by a 64-bit factor, where the product fits in 256 bits.
    pub fn mul_u64(&self, m: u64) -> (r: U256)
        requires
            self.value() * m < u256_modulus(),
        ensures
            r.value() == self.value() * m,
    {
        proof {
            lemma_limb_step(self.w0, m, 0);
        }
        let prod0: u128 = self.w0 as u128 * m as u128;
        let r0: u64 = (prod0 % 0x1_0000_0000_0000_0000u128) as u64;
        let c0: u128 = prod0 / 0x1_0000_0000_0000_0000u128;
        proof {
            lemma_limb_step(self.w1, m, c0);
        }
        let prod1: u128 = self.w1 as u128 * m as u128 + c0;
        let r1: u64 = (prod1 % 0x1_0000_0000_0000_0000u128) as u64;
        let c1: u128 = prod1 / 0x1_0000_0000_0000_0000u128;
        proof {
            lemma_limb_step(self.w2, m, c1);
        }
        let prod2: u128 = self.w2 as u128 * m as u128 + c1;
        let r2: u64 = (prod2 % 0x1_0000_0000_0000_0000u128) as u64;
        let c2: u128 = prod2 / 0x1_0000_0000_0000_0000u128;
        proof {
            lemma_limb_step(self.w3, m, c2);
        }
        let prod3: u128 = self.w3 as u128 * m as u128 + c2;
        proof {
            let b = limb_base();
            let v = self.value();
            let (a0, a1, a2, a3) = (
                self.w0 as nat,
                self.w1 as nat,
                self.w2 as nat,
                self.w3 as nat,
            );
            let mm = m as nat;
            assert(v * mm == a0 * mm + b * (a1 * mm + b * (a2 * mm + b * (a3 * mm))))
                by (nonlinear_arith)
                requires
                    v == a0 + b * (a1 + b * (a2 + b * a3)),
            ;
            // Carry the digits through: v * m == r0 + b * (r1 + b * (r2 + b * prod3)).
            assert(v * mm == r0 + b * (r1 + b * (r2 + b * prod3))) by (nonlinear_arith)
                requires
                    v * mm == a0 * mm + b * (a1 * mm + b * (a2 * mm + b * (a3 * mm))),
                    a0 * mm == r0 + b * c0,
                    a1 * mm + c0 == r1 + b * c1,
                    a2 * mm + c1 == r2 + b * c2,
                    a3 * mm + c2 == prod3,
            ;
            if prod3 >= b {
                assert(b * (b * (b * prod3)) >= b * (b * (b * b))) by (nonlinear_arith)
                    requires
                        prod3 >= b,
                ;
                assert(b * b * b * b == u256_modulus());
                assert(b * (b * (b * b)) == b * b * b * b) by (nonlinear_arith);
                assert(r0 + b * (r1 + b * (r2 + b * prod3)) >= b * (b * (b * prod3)))
                    by (nonlinear_arith);
            }
        }
        U256 { w0: r0, w1: r1, w2: r2, w3: prod3 as u64 }
    }

    /// Division by a non-zero 64-bit divisor, rounding down.
    pub fn div_u64(&self, d: u64) -> (r: U256)
        requires
            d > 0,
        ensures
            r.value() == self.value() / (d as nat),
    {
        let q3: u64 = self.w3 / d;
        let m3: u64 = self.w3 % d;
        let x2: u128 = m3 as u128 * 0x1_0000_0000_0000_0000u128 + self.w2 as u128;
        proof {
            lemma_div_step_bound(m3, d, self.w2);
        }
        let q2: u64 = (x2 / d as u128) as u64;
        let m2: u64 = (x2 % d as u128) as u64;
        let x1: u128 = m2 as u128 * 0x1_0000_0000_0000_0000u128 + self.w1 as u128;
        proof {
            lemma_div_step_bound(m2, d, self.w1);
        }
        let q1: u64 = (x1 / d as u128) as u64;
        let m1: u64 = (x1 % d as u128) as u64;
        let x0: u128 = m1 as u128 * 0x1_0000_0000_0000_0000u128 + self.w0 as u128;
        proof {
            lemma_div_step_bound(m1, d, self.w0);
        }
        let q0: u64 = (x0 / d as u128) as u64;
        let m0: u64 = (x0 % d as u128) as u64;
        let r = U256 { w0: q0, w1: q1, w2: q2, w3: q3 };
        proof {
            let b = limb_base();
            let dd = d as nat;
            let (a0, a1, a2, a3) = (
                self.w0 as nat,
                self.w1 as nat,
                self.w2 as nat,
                self.w3 as nat,
            );
            let (n0, n1, n2, n3) = (q0 as nat, q1 as nat, q2 as nat, q3 as nat);
            let (k0, k1, k2, k3) = (m0 as nat, m1 as nat, m2 as nat, m3 as nat);
            vstd::arithmetic::div_mod::lemma_fundamental_div_mod(a3 as int, dd as int);
            vstd::arithmetic::div_mod::lemma_fundamental_div_mod(x2 as int, dd as int);
            vstd::arithmetic::div_mod::lemma_fundamental_div_mod(x1 as int, dd as int);
            vstd::arithmetic::div_mod::lemma_fundamental_div_mod(x0 as int, dd as int);
            assert(a3 == dd * n3 + k3);
            assert(k3 * b + a2 == dd * n2 + k2);
            assert(k2 * b + a1 == dd * n1 + k1);
            assert(k1 * b + a0 == dd * n0 + k0);
            let h2 = a2 + b * a3;
            assert(h2 == dd * (n2 + b * n3) + k2) by (nonlinear_arith)
                requires
                    h2 == a2 + b * a3,
                    a3 == dd * n3 + k3,
                    k3 * b + a2 == dd * n2 + k2,
            ;
            let h1 = a1 + b * h2;
            assert(h1 == dd * (n1 + b * (n2 + b * n3)) + k1) by (nonlinear_arith)
                requires
                    h1 == a1 + b * h2,
                    h2 == dd * (n2 + b * n3) + k2,
                    k2 * b + a1 == dd * n1 + k1,
            ;
            let h0 = a0 + b * h1;
            assert(h0 == dd * (n0 + b * (n1 + b * (n2 + b * n3))) + k0) by (nonlinear_arith)
                requires
                    h0 == a0 + b * h1,
                    h1 == dd * (n1 + b * (n2 + b * n3)) + k1,
                    k1 * b + a0 == dd * n0 + k0,
            ;
            assert(self.value() == h0);
            assert(r.value() == n0 + b * (n1 + b * (n2 + b * n3)));
            assert(dd * r.value() == r.value() * dd) by (nonlinear_arith);
            assert(k0 < dd);
            vstd::arithmetic::div_mod::lemma_fundamental_div_mod_converse(
                self.value() as int,
                dd as int,
                r.value() as int,
                k0 as int,
            );
        }
        r
    }
}

proof fn lemma_horner_lt(lo_a: nat, hi_a: nat, lo_b: nat, hi_b: nat, b: nat)
    requires
        lo_a < b,
        hi_a < hi_b,
    ensures
        lo_a + b * hi_a < lo_b + b * hi_b,
{
    assert(b * hi_a + b <= b * hi_b) by (nonlinear_arith)
        requires
            hi_a < hi_b,
    ;
}

proof fn lemma_lex_order(a: U256, b: U256)
    ensures
        a.w3 < b.w3 ==> a.value() < b.value(),
        a.w3 == b.w3 && a.w2 < b.w2 ==> a.value() < b.value(),
        a.w3 == b.w3 && a.w2 == b.w2 && a.w1 < b.w1 ==> a.value() < b.value(),
        a.w3 == b.w3 && a.w2 == b.w2 && a.w1 == b.w1 ==> (a.value() <= b.value() <==> a.w0
            <= b.w0),
{
    let bb = limb_base();
    let a2 = a.w2 as nat + bb * (a.w3 as nat);
    let b2 = b.w2 as nat + bb * (b.w3 as nat);
    let a1 = a.w1 as nat + bb * a2;
    let b1 = b.w1 as nat + bb * b2;
    if a.w3 < b.w3 {
        lemma_horner_lt(a.w2 as nat, a.w3 as nat, b.w2 as nat, b.w3 as nat, bb);
    }
    if a.w3 == b.w3 && a.w2 < b.w2 {
        assert(a2 < b2);
    }
    if a2 < b2 {
        lemma_horner_lt(a.w1 as nat, a2, b.w1 as nat, b2, bb);
    }
    if a2 == b2 && a.w1 < b.w1 {
        assert(a1 < b1);
    }
    if a1 < b1 {
        lemma_horner_lt(a.w0 as nat, a1, b.w0 as nat, b1, bb);
    }
}

proof fn lemma_limb_step(w: u64, m: u64, c: u128)
    requires
        c < limb_base(),
    ensures
        ({
            let x = (w as nat) * (m as nat) + (c as nat);
            &&& x < 0x1_0000_0000_0000_0000_0000_0000_0000_0000nat
            &&& x % limb_base() + limb_base() * (x / limb_base()) == x
            &&& x / limb_base() < limb_base()
        }),
{
    let b = limb_base();
    assert((w as nat) * (m as nat) <= (b - 1) * (b - 1)) by (nonlinear_arith)
        requires
            w < b,
            m < b,
    ;
    assert((b - 1) * (b - 1) + b == b * b - b + 1) by (nonlinear_arith);
    let x = (w as nat) * (m as nat) + (c as nat);
    vstd::arithmetic::div_mod::lemma_fundamental_div_mod(x as int, b as int);
    vstd::arithmetic::div_mod::lemma_multiply_divide_lt(x as int, b as int, b as int);
}

proof fn lemma_div_step_bound(m: u64, d: u64, w: u64)
    requires
        m < d,
    ensures
        (m as nat) * limb_base() + (w as nat) < (d as nat) * limb_base(),
        (m as nat) * limb_base() + (w as nat) < 0x1_0000_0000_0000_0000_0000_0000_0000_0000nat,
        ((m as nat) * limb_base() + (w as nat)) / (d as nat) < limb_base(),
{
    let b = limb_base();
    assert((m as nat) * b + (w as nat) < (d as nat) * b) by (nonlinear_arith)
        requires
            m < d,
            w < b,
    {
        assert((m as nat + 1) * b <= (d as nat) * b);
    }
    assert((d as nat) * b <= b * b) by (nonlinear_arith)
        requires
            d < b,
    ;
    let x = (m as nat) * b + (w as nat);
    vstd::arithmetic::div_mod::lemma_multiply_divide_lt(x as int, d as int, b as int);
}

} // verus!
