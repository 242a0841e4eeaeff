//! Natural numbers of any size, as far as rounding a decimal numeral needs them.
use vstd::arithmetic::power::{lemma_pow_adds, lemma_pow_positive, pow};
use vstd::prelude::*;

verus! {

/// The weight of one limb.
pub open spec fn limb_base() -> int {
    0x1_0000_0000
}

/// The number that little-endian 32-bit limbs stand for.
pub open spec fn limbs_value(limbs: Seq<u32>) -> int
    decreases limbs.len(),
{
    if limbs.len() == 0 {
        0
    } else {
        limbs_value(limbs.drop_last()) + limbs.last() * pow(
            limb_base(),
            (limbs.len() - 1) as nat,
        )
    }
}

proof fn lemma_limbs_push(limbs: Seq<u32>, limb: u32)
    ensures
        limbs_value(limbs.push(limb)) == limbs_value(limbs) + limb * pow(limb_base(), limbs.len()),
{
    assert(limbs.push(limb).drop_last() =~= limbs);
}

proof fn lemma_limbs_take(limbs: Seq<u32>, i: int)
    requires
        0 <= i < limbs.len(),
    ensures
        limbs_value(limbs.take(i + 1)) == limbs_value(limbs.take(i)) + limbs[i] * pow(
            limb_base(),
            i as nat,
        ),
{
    assert(limbs.take(i + 1).drop_last() =~= limbs.take(i));
}

proof fn lemma_limbs_bound(limbs: Seq<u32>)
    ensures
        0 <= limbs_value(limbs) < pow(limb_base(), limbs.len()),
    decreases limbs.len(),
{
    reveal(pow);
    if limbs.len() > 0 {
        lemma_limbs_bound(limbs.drop_last());
        let p = pow(limb_base(), (limbs.len() - 1) as nat);
        let x = limbs.last() as int;
        assert(x * p + p <= limb_base() * p && 0 <= x * p) by (nonlinear_arith)
            requires
                0 <= x < limb_base(),
                0 <= p,
        ;
    }
}

proof fn lemma_base_step(i: nat)
    ensures
        pow(limb_base(), i + 1) == limb_base() * pow(limb_base(), i),
{
    reveal(pow);
}

/// How one number stands to another.
#[derive(Clone, Copy, PartialEq, Eq, Structural)]
pub enum Rank {
    Below,
    Same,
    Above,
}

/// How `a` stands to `b`.
pub open spec fn rank(a: int, b: int) -> Rank {
    if a < b {
        Rank::Below
    } else if a == b {
        Rank::Same
    } else {
        Rank::Above
    }
}

/// A natural number of any size.
pub struct Natural {
    limbs: Vec<u32>,
}

impl View for Natural {
    type V = int;

    closed spec fn view(&self) -> int {
        limbs_value(self.limbs@)
    }
}

impl Natural {
    /// The number 0.
    pub fn zero() -> (r: Natural)
        ensures
            r@ == 0,
    {
        Natural { limbs: Vec::new() }
    }

    /// This number times `factor`, plus `summand`.
    pub fn scaled(&self, factor: u64, summand: u64) -> (r: Natural)
        ensures
            r@ == self@ * factor + summand,
    {
        let ghost base = limb_base();
        let ghost s = self.limbs@;
        let mut out: Vec<u32> = Vec::new();
        let mut carry: u128 = summand as u128;
        proof {
            reveal(pow);
            assert(s.take(0) =~= Seq::empty());
        }
        for i in 0..self.limbs.len()
            invariant
                s == self.limbs@,
                base == limb_base(),
                out.len() == i,
                carry <= u64::MAX,
                limbs_value(out@) + carry * pow(base, i as nat) == limbs_value(s.take(i as int))
                    * factor + summand,
        {
            let limb: u32 = self.limbs[i];
            assert(limb * factor <= 0xffff_ffff * 0xffff_ffff_ffff_ffff) by (nonlinear_arith)
                requires
                    limb <= 0xffff_ffff,
                    factor <= 0xffff_ffff_ffff_ffff,
            ;
            let sum: u128 = (limb as u128) * (factor as u128) + carry;
            let low: u32 = (sum % 0x1_0000_0000) as u32;
            proof {
                lemma_limbs_take(s, i as int);
                lemma_limbs_push(out@, low);
                lemma_base_step(i as nat);
                let p = pow(base, i as nat);
                let high = sum as int / base;
                let before = limbs_value(s.take(i as int));
                assert(sum == low + base * high);
                assert((before + limb * p) * factor == before * factor + (limb * factor) * p)
                    by (nonlinear_arith);
                assert(carry * p + (limb * factor) * p == low * p + high * (base * p))
                    by (nonlinear_arith)
                    requires
                        carry + limb * factor == low + base * high,
                ;
            }
            out.push(low);
            carry = sum / 0x1_0000_0000;
        }
        assert(s.take(s.len() as int) =~= s);
        while carry > 0
            invariant
                base == limb_base(),
                carry <= u64::MAX,
                limbs_value(out@) + carry * pow(base, out@.len()) == limbs_value(s) * factor
                    + summand,
            decreases carry,
        {
            let low: u32 = (carry % 0x1_0000_0000) as u32;
            proof {
                lemma_limbs_push(out@, low);
                lemma_base_step(out@.len());
                let p = pow(base, out@.len());
                let high = carry as int / base;
                assert(carry * p == low * p + high * (base * p)) by (nonlinear_arith)
                    requires
                        carry == low + base * high,
                ;
            }
            out.push(low);
            carry = carry / 0x1_0000_0000;
        }
        Natural { limbs: out }
    }

    /// This number times two to the power of `bits`.
    pub fn shifted(&self, bits: u32) -> (r: Natural)
        ensures
            r@ == self@ * pow(2, bits as nat),
    {
        let whole: u32 = bits / 32;
        let part: u32 = bits % 32;
        let ghost base = limb_base();
        let mut out: Vec<u32> = Vec::new();
        let mut k: u32 = 0;
        while k < whole
            invariant
                k <= whole,
                out.len() == k,
                limbs_value(out@) == 0,
            decreases whole - k,
        {
            proof {
                lemma_limbs_push(out@, 0);
            }
            out.push(0);
            k += 1;
        }
        let ghost s = self.limbs@;
        let ghost lift = pow(base, whole as nat);
        assert(s.take(0) =~= Seq::empty());
        for j in 0..self.limbs.len()
            invariant
                s == self.limbs@,
                base == limb_base(),
                out.len() == whole + j,
                lift == pow(base, whole as nat),
                limbs_value(out@) == limbs_value(s.take(j as int)) * lift,
        {
            proof {
                lemma_limbs_take(s, j as int);
                lemma_limbs_push(out@, s[j as int]);
                lemma_pow_adds(base, whole as nat, j as nat);
                let p = pow(base, j as nat);
                let before = limbs_value(s.take(j as int));
                let x = s[j as int];
                assert((before + x * p) * lift == before * lift + x * (lift * p))
                    by (nonlinear_arith);
            }
            let limb: u32 = self.limbs[j];
            out.push(limb);
        }
        assert(s.take(s.len() as int) =~= s);
        let aligned = Natural { limbs: out };
        let mut factor: u64 = 1;
        let mut k: u32 = 0;
        proof {
            reveal(pow);
            vstd::arithmetic::power2::lemma2_to64();
            vstd::arithmetic::power2::lemma_pow2(32);
        }
        while k < part
            invariant
                k <= part < 32,
                factor == pow(2, k as nat),
                factor <= 0x1_0000_0000,
                k < 32 ==> factor * pow(2, (32 - k) as nat) == 0x1_0000_0000,
            decreases part - k,
        {
            proof {
                reveal(pow);
                lemma_pow_positive(2, (31 - k) as nat);
                let f = factor as int;
                let q = pow(2, (31 - k) as nat);
                assert(pow(2, (32 - k) as nat) == 2 * q);
                assert(f * (2 * q) == (2 * f) * q) by (nonlinear_arith);
                assert(2 * f <= (2 * f) * q) by (nonlinear_arith)
                    requires
                        q >= 1,
                        f >= 0,
                ;
            }
            factor = factor * 2;
            k += 1;
        }
        let r = aligned.scaled(factor, 0);
        proof {
            lemma_lift(whole as nat);
            lemma_pow_adds(2, (32 * whole) as nat, part as nat);
            let v = self@;
            let f = factor as int;
            assert((v * lift) * f == v * (lift * f)) by (nonlinear_arith);
        }
        r
    }

    /// How this number stands to another.
    pub fn against(&self, other: &Natural) -> (r: Rank)
        ensures
            r == rank(self@, other@),
    {
        let ghost a = self.limbs@;
        let ghost b = other.limbs@;
        let ghost base = limb_base();
        let n: usize = if self.limbs.len() < other.limbs.len() {
            other.limbs.len()
        } else {
            self.limbs.len()
        };
        let mut r = Rank::Same;
        proof {
            assert(prefix(a, 0) =~= Seq::empty());
            assert(prefix(b, 0) =~= Seq::empty());
        }
        for i in 0..n
            invariant
                a == self.limbs@,
                b == other.limbs@,
                a.len() <= n,
                b.len() <= n,
                base == limb_base(),
                r == rank(limbs_value(prefix(a, i as int)), limbs_value(prefix(b, i as int))),
        {
            let x: u32 = if i < self.limbs.len() {
                self.limbs[i]
            } else {
                0
            };
            let y: u32 = if i < other.limbs.len() {
                other.limbs[i]
            } else {
                0
            };
            proof {
                lemma_prefix(a, i as int);
                lemma_prefix(b, i as int);
                let p = pow(base, i as nat);
                let va = limbs_value(prefix(a, i as int));
                let vb = limbs_value(prefix(b, i as int));
                if x < y {
                    assert(x * p + p <= y * p) by (nonlinear_arith)
                        requires
                            x + 1 <= y,
                            0 <= p,
                    ;
                } else if y < x {
                    assert(y * p + p <= x * p) by (nonlinear_arith)
                        requires
                            y + 1 <= x,
                            0 <= p,
                    ;
                }
            }
            if x < y {
                r = Rank::Below;
            } else if y < x {
                r = Rank::Above;
            }
        }
        proof {
            assert(prefix(a, n as int) =~= a);
            assert(prefix(b, n as int) =~= b);
        }
        r
    }
}

/// The first limbs, as many of the `i` as there are.
spec fn prefix(limbs: Seq<u32>, i: int) -> Seq<u32> {
    if i < limbs.len() {
        limbs.take(i)
    } else {
        limbs
    }
}

proof fn lemma_prefix(limbs: Seq<u32>, i: int)
    requires
        0 <= i,
    ensures
        limbs_value(prefix(limbs, i + 1)) == limbs_value(prefix(limbs, i)) + (if i < limbs.len() {
            limbs[i]
        } else {
            0
        }) * pow(limb_base(), i as nat),
        0 <= limbs_value(prefix(limbs, i)) < pow(limb_base(), i as nat),
{
    lemma_limbs_bound(prefix(limbs, i));
    if i < limbs.len() {
        lemma_limbs_take(limbs, i);
        assert(prefix(limbs, i + 1) =~= limbs.take(i + 1));
    } else {
        vstd::arithmetic::power::lemma_pow_increases(0x1_0000_0000, limbs.len(), i as nat);
    }
}

proof fn lemma_lift(whole: nat)
    ensures
        pow(limb_base(), whole) == pow(2, 32 * whole),
    decreases whole,
{
    reveal(pow);
    if whole > 0 {
        lemma_lift((whole - 1) as nat);
        lemma_pow_adds(2, 32, (32 * (whole - 1)) as nat);
        assert(pow(2, 32) == 0x1_0000_0000) by {
            vstd::arithmetic::power2::lemma2_to64();
            vstd::arithmetic::power2::lemma_pow2(32);
        }
    }
}

} // verus!
