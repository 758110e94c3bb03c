//! Natural numbers of any size, enough of them to divide exactly.

use vstd::arithmetic::div_mod::{lemma_fundamental_div_mod, lemma_fundamental_div_mod_converse};
use vstd::arithmetic::power2::{lemma2_to64, lemma_pow2_adds, lemma_pow2_pos, pow2};
use vstd::prelude::*;

verus! {

/// The number that base-2^32 digits stand for, least significant first.
pub open spec fn limbs_value(s: Seq<u32>) -> nat
    decreases s.len(),
{
    if s.len() == 0 {
        0
    } else {
        (s.last() * pow2((32 * (s.len() - 1)) as nat) + limbs_value(s.drop_last())) as nat
    }
}

/// A natural number.
pub struct BigNat {
    limbs: Vec<u32>,
}

impl BigNat {
    pub closed spec fn view(&self) -> nat {
        limbs_value(self.limbs@)
    }

    /// Zero.
    pub fn zero() -> (r: BigNat)
        ensures
            r@ == 0,
    {
        BigNat { limbs: Vec::new() }
    }

    /// A small number.
    pub fn small(n: u32) -> (r: BigNat)
        ensures
            r@ == n,
    {
        let mut r: BigNat = BigNat::zero();
        r.mul_add(1, n);
        r
    }

    /// A copy of this number.
    pub fn duplicate(&self) -> (r: BigNat)
        ensures
            r@ == self@,
    {
        let mut limbs: Vec<u32> = Vec::new();
        let mut i: usize = 0;
        while i < self.limbs.len()
            invariant
                i <= self.limbs@.len(),
                limbs@ == self.limbs@.take(i as int),
            decreases self.limbs@.len() - i,
        {
            limbs.push(self.limbs[i]);
            i += 1;
            assert(limbs@ =~= self.limbs@.take(i as int));
        }
        assert(limbs@ =~= self.limbs@);
        BigNat { limbs }
    }

    /// Replaces the number `n` by `n * m + a`.
    pub fn mul_add(&mut self, m: u32, a: u32)
        ensures
            final(self)@ == old(self)@ * m + a,
    {
        let ghost s0 = self.limbs@;
        let mut carry: u64 = a as u64;
        let mut i: usize = 0;
        proof {
            lemma2_to64();
            assert(s0.take(0).len() == 0);
            assert(self.limbs@.take(0).len() == 0);
            assert(carry * pow2(0) == carry) by (nonlinear_arith)
                requires
                    pow2(0) == 1,
            ;
            assert(limbs_value(s0.take(0)) * m == 0) by (nonlinear_arith)
                requires
                    limbs_value(s0.take(0)) == 0,
            ;
        }
        while i < self.limbs.len()
            invariant
                i <= self.limbs@.len(),
                self.limbs@.len() == s0.len(),
                carry <= u32::MAX,
                forall|k: int| i <= k < s0.len() ==> self.limbs@[k] == s0[k],
                limbs_value(self.limbs@.take(i as int)) + carry * pow2((32 * i) as nat)
                    == limbs_value(s0.take(i as int)) * m + a,
            decreases self.limbs@.len() - i,
        {
            let ghost before = self.limbs@;
            let x: u32 = self.limbs[i];
            assert(x * m + carry <= u64::MAX) by (nonlinear_arith)
                requires
                    0 <= x <= u32::MAX,
                    0 <= m <= u32::MAX,
                    carry <= u32::MAX,
            ;
            let t: u64 = x as u64 * m as u64 + carry;
            let low: u32 = (t % 0x1_0000_0000) as u32;
            self.limbs.set(i, low);
            let ghost old_carry = carry;
            carry = t / 0x1_0000_0000;
            proof {
                assert(carry <= u32::MAX) by (nonlinear_arith)
                    requires
                        carry == t / 0x1_0000_0000,
                        t <= u64::MAX,
                ;
                let p = pow2((32 * i) as nat) as int;
                lemma2_to64();
                lemma_pow2_adds((32 * i) as nat, 32);
                assert((32 * i) as nat + 32 == (32 * (i + 1)) as nat);
                let cur = self.limbs@.take(i as int + 1);
                assert(cur.drop_last() == before.take(i as int));
                let src = s0.take(i as int + 1);
                assert(src.drop_last() == s0.take(i as int));
                assert(cur.last() == low);
                assert(src.last() == x);
                let lo_cur = limbs_value(cur.drop_last()) as int;
                let lo_src = limbs_value(src.drop_last()) as int;
                assert(low * p + lo_cur + carry * (p * 0x1_0000_0000) == (x * p + lo_src) * m + a)
                    by (nonlinear_arith)
                    requires
                        lo_cur + old_carry * p == lo_src * m + a,
                        x * m + old_carry == carry * 0x1_0000_0000 + low,
                ;
            }
            i += 1;
        }
        proof {
            assert(self.limbs@.take(i as int) == self.limbs@);
            assert(s0.take(i as int) == s0);
        }
        if carry > 0 {
            let ghost before = self.limbs@;
            self.limbs.push(carry as u32);
            assert(self.limbs@.drop_last() == before);
        } else {
            assert(carry * pow2((32 * i) as nat) == 0) by (nonlinear_arith)
                requires
                    carry == 0,
            ;
        }
    }

    fn limb(&self, i: usize) -> (r: u32)
        ensures
            r == (if i < self.limbs@.len() {
                self.limbs@[i as int]
            } else {
                0
            }),
    {
        if i < self.limbs.len() {
            self.limbs[i]
        } else {
            0
        }
    }

    /// Whether this number is zero.
    pub fn is_zero(&self) -> (r: bool)
        ensures
            r == (self@ == 0),
    {
        let mut i: usize = 0;
        assert(self.limbs@.take(0).len() == 0);
        while i < self.limbs.len()
            invariant
                i <= self.limbs@.len(),
                limbs_value(self.limbs@.take(i as int)) == 0,
            decreases self.limbs@.len() - i,
        {
            let ghost cur = self.limbs@.take(i as int + 1);
            assert(cur.drop_last() == self.limbs@.take(i as int));
            if self.limbs[i] != 0 {
                proof {
                    let p = pow2((32 * i) as nat) as int;
                    lemma_pow2_pos((32 * i) as nat);
                    assert(cur.last() * p > 0) by (nonlinear_arith)
                        requires
                            cur.last() > 0,
                            p > 0,
                    ;
                    lemma_value_grows(self.limbs@, i as int + 1);
                }
                return false;
            }
            proof {
                let p = pow2((32 * i) as nat) as int;
                assert(cur.last() * p == 0) by (nonlinear_arith)
                    requires
                        cur.last() == 0,
                ;
            }
            i += 1;
        }
        assert(self.limbs@.take(i as int) == self.limbs@);
        true
    }

    /// Whether this number is at least `other`.
    pub fn at_least(&self, other: &BigNat) -> (r: bool)
        ensures
            r == (self@ >= other@),
    {
        let n: usize = if self.limbs.len() > other.limbs.len() {
            self.limbs.len()
        } else {
            other.limbs.len()
        };
        let mut i: usize = n;
        proof {
            lemma_padded(self.limbs@, n as int);
            lemma_padded(other.limbs@, n as int);
        }
        let ghost a = padded(self.limbs@, n as int);
        let ghost b = padded(other.limbs@, n as int);
        assert(a.take(n as int) == a);
        assert(b.take(n as int) == b);
        while i > 0
            invariant
                i <= n,
                a == padded(self.limbs@, n as int),
                b == padded(other.limbs@, n as int),
                self.limbs@.len() <= n,
                other.limbs@.len() <= n,
                (self@ >= other@) == (limbs_value(a.take(i as int)) >= limbs_value(b.take(i as int))),
            decreases i,
        {
            let x: u32 = self.limb(i - 1);
            let y: u32 = other.limb(i - 1);
            proof {
                let ta = a.take(i as int);
                let tb = b.take(i as int);
                assert(ta.drop_last() == a.take(i as int - 1));
                assert(tb.drop_last() == b.take(i as int - 1));
                assert(ta.last() == x);
                assert(tb.last() == y);
                lemma_value_bound(ta.drop_last());
                lemma_value_bound(tb.drop_last());
                let p = pow2((32 * (i - 1)) as nat) as int;
                assert(x > y ==> x * p >= y * p + p) by (nonlinear_arith)
                    requires
                        p > 0,
                ;
                assert(y > x ==> y * p >= x * p + p) by (nonlinear_arith)
                    requires
                        p > 0,
                ;
            }
            if x != y {
                return x > y;
            }
            i -= 1;
        }
        true
    }

    /// Subtracts a number that is not larger.
    pub fn subtract(&mut self, other: &BigNat)
        requires
            old(self)@ >= other@,
        ensures
            final(self)@ == old(self)@ - other@,
    {
        while self.limbs.len() < other.limbs.len()
            invariant
                self@ == old(self)@,
            decreases other.limbs@.len() - self.limbs@.len(),
        {
            let ghost before = self.limbs@;
            self.limbs.push(0);
            assert(self.limbs@.drop_last() == before);
            assert(0 * pow2((32 * before.len()) as nat) == 0);
        }
        let n: usize = self.limbs.len();
        let ghost s0 = self.limbs@;
        let ghost b = padded(other.limbs@, n as int);
        let mut borrow: u64 = 0;
        let mut i: usize = 0;
        proof {
            lemma2_to64();
            lemma_padded(other.limbs@, n as int);
            assert(s0.take(0).len() == 0);
            assert(b.take(0).len() == 0);
            assert(self.limbs@.take(0).len() == 0);
            assert(0 * pow2(0) == 0);
        }
        while i < n
            invariant
                i <= n,
                n == s0.len(),
                self.limbs@.len() == n,
                other.limbs@.len() <= n,
                b == padded(other.limbs@, n as int),
                borrow <= 1,
                forall|k: int| i <= k < n ==> self.limbs@[k] == s0[k],
                limbs_value(self.limbs@.take(i as int)) + limbs_value(b.take(i as int))
                    == limbs_value(s0.take(i as int)) + borrow * pow2((32 * i) as nat),
            decreases n - i,
        {
            let ghost before = self.limbs@;
            let ghost old_borrow = borrow;
            let x: u64 = self.limbs[i] as u64;
            let y: u64 = other.limb(i) as u64 + borrow;
            let t: u64 = if x >= y {
                borrow = 0;
                x - y
            } else {
                borrow = 1;
                0x1_0000_0000 + x - y
            };
            self.limbs.set(i, t as u32);
            proof {
                let p = pow2((32 * i) as nat) as int;
                lemma2_to64();
                lemma_pow2_adds((32 * i) as nat, 32);
                assert((32 * i) as nat + 32 == (32 * (i + 1)) as nat);
                let cur = self.limbs@.take(i as int + 1);
                assert(cur.drop_last() == before.take(i as int));
                let src = s0.take(i as int + 1);
                assert(src.drop_last() == s0.take(i as int));
                let tb = b.take(i as int + 1);
                assert(tb.drop_last() == b.take(i as int));
                let (c0, a0, b0) = (
                    limbs_value(cur.drop_last()) as int,
                    limbs_value(src.drop_last()) as int,
                    limbs_value(tb.drop_last()) as int,
                );
                let yb = tb.last() as int;
                assert((t * p + c0) + (yb * p + b0) == (x * p + a0) + borrow * (p * 0x1_0000_0000))
                    by (nonlinear_arith)
                    requires
                        c0 + b0 == a0 + old_borrow * p,
                        t == x - (yb + old_borrow) + borrow * 0x1_0000_0000,
                ;
            }
            i += 1;
        }
        proof {
            assert(self.limbs@.take(n as int) == self.limbs@);
            assert(s0.take(n as int) == s0);
            assert(b.take(n as int) == b);
            lemma_value_bound(self.limbs@);
            lemma_value_bound(s0);
            if borrow == 1 {
                assert(borrow * pow2((32 * n) as nat) == pow2((32 * n) as nat)) by (nonlinear_arith)
                    requires
                        borrow == 1,
                ;
            } else {
                assert(borrow * pow2((32 * n) as nat) == 0) by (nonlinear_arith)
                    requires
                        borrow == 0,
                ;
            }
        }
    }
}

impl BigNat {
    /// Divides by a small number; returns the remainder.
    pub fn divide(&mut self, d: u32) -> (r: u32)
        requires
            d > 0,
        ensures
            final(self)@ == old(self)@ / (d as nat),
            r == old(self)@ % (d as nat),
    {
        let ghost s0 = self.limbs@;
        let mut rem: u64 = 0;
        let mut i: usize = self.limbs.len();
        proof {
            assert(s0.skip(i as int).len() == 0);
            assert(self.limbs@.skip(i as int).len() == 0);
            assert(limbs_value(self.limbs@.skip(i as int)) * d == 0) by (nonlinear_arith)
                requires
                    limbs_value(self.limbs@.skip(i as int)) == 0,
            ;
        }
        while i > 0
            invariant
                d > 0,
                i <= self.limbs@.len(),
                self.limbs@.len() == s0.len(),
                rem < d,
                forall|k: int| 0 <= k < i ==> self.limbs@[k] == s0[k],
                limbs_value(self.limbs@.skip(i as int)) * d + rem == limbs_value(
                    s0.skip(i as int),
                ),
            decreases i,
        {
            let ghost before = self.limbs@;
            i -= 1;
            let x: u64 = self.limbs[i] as u64;
            let ghost old_rem = rem;
            assert(rem * 0x1_0000_0000 + x < d * 0x1_0000_0000) by (nonlinear_arith)
                requires
                    rem + 1 <= d,
                    x < 0x1_0000_0000,
            ;
            let cur: u64 = rem * 0x1_0000_0000 + x;
            let q: u64 = cur / d as u64;
            rem = cur % d as u64;
            proof {
                lemma_fundamental_div_mod(cur as int, d as int);
                assert(q < 0x1_0000_0000) by (nonlinear_arith)
                    requires
                        cur == d * q + rem,
                        rem >= 0,
                        cur < d * 0x1_0000_0000,
                        d > 0,
                ;
            }
            self.limbs.set(i, q as u32);
            proof {
                let hi = limbs_value(before.skip(i + 1)) as int;
                let hi0 = limbs_value(s0.skip(i + 1)) as int;
                assert(self.limbs@.skip(i as int).drop_first() == before.skip(i + 1));
                assert(s0.skip(i as int).drop_first() == s0.skip(i + 1));
                lemma_value_first(self.limbs@.skip(i as int));
                lemma_value_first(s0.skip(i as int));
                assert((q + 0x1_0000_0000 * hi) * d + rem == x + 0x1_0000_0000 * hi0)
                    by (nonlinear_arith)
                    requires
                        hi * d + old_rem == hi0,
                        old_rem * 0x1_0000_0000 + x == d * q + rem,
                ;
            }
        }
        proof {
            assert(self.limbs@.skip(0) == self.limbs@);
            assert(s0.skip(0) == s0);
            lemma_fundamental_div_mod_converse(
                limbs_value(s0) as int,
                d as int,
                limbs_value(self.limbs@) as int,
                rem as int,
            );
        }
        rem as u32
    }
}

/// The least significant digit apart from the rest.
proof fn lemma_value_first(s: Seq<u32>)
    requires
        s.len() > 0,
    ensures
        limbs_value(s) == s[0] + 0x1_0000_0000 * limbs_value(s.drop_first()),
    decreases s.len(),
{
    lemma2_to64();
    if s.len() == 1 {
        assert(s.drop_last().len() == 0);
        assert(s.drop_first().len() == 0);
        assert(limbs_value(s.drop_last()) == 0);
        assert(limbs_value(s.drop_first()) == 0);
        assert((32 * (s.len() - 1)) as nat == 0);
        assert(s.last() * pow2(0) == s.last()) by (nonlinear_arith)
            requires
                pow2(0) == 1,
        ;
        assert(limbs_value(s) == s[0]);
    } else {
        let t = s.drop_last();
        lemma_value_first(t);
        let u = s.drop_first();
        assert(u.drop_last() == t.drop_first());
        assert(u.last() == s.last());
        let n = (32 * (u.len() - 1)) as nat;
        lemma_pow2_adds(n, 32);
        assert(n + 32 == (32 * (s.len() - 1)) as nat);
        let (x, p) = (s.last() as int, pow2(n) as int);
        assert(x * (p * 0x1_0000_0000) == 0x1_0000_0000 * (x * p)) by (nonlinear_arith);
        assert(limbs_value(u) == x * p + limbs_value(t.drop_first()));
        assert(limbs_value(s) == x * (p * 0x1_0000_0000) + limbs_value(t));
    }
}

spec fn padded(s: Seq<u32>, n: int) -> Seq<u32> {
    Seq::new(
        n as nat,
        |i: int|
            if i < s.len() {
                s[i]
            } else {
                0
            },
    )
}

proof fn lemma_padded(s: Seq<u32>, n: int)
    requires
        s.len() <= n,
    ensures
        limbs_value(padded(s, n)) == limbs_value(s),
    decreases n - s.len(),
{
    if s.len() == n {
        assert(padded(s, n) =~= s);
    } else {
        let t = padded(s, n);
        assert(t.drop_last() =~= padded(s, n - 1));
        lemma_padded(s, n - 1);
        assert(0 * pow2((32 * (n - 1)) as nat) == 0);
    }
}

proof fn lemma_value_bound(s: Seq<u32>)
    ensures
        limbs_value(s) < pow2((32 * s.len()) as nat),
    decreases s.len(),
{
    lemma2_to64();
    if s.len() > 0 {
        lemma_value_bound(s.drop_last());
        let n = (32 * (s.len() - 1)) as nat;
        lemma_pow2_adds(n, 32);
        assert(n + 32 == (32 * s.len()) as nat);
        lemma_pow2_pos(n);
        let p = pow2(n) as int;
        let x = s.last() as int;
        assert(x * p + p <= p * 0x1_0000_0000) by (nonlinear_arith)
            requires
                x <= 0xffff_ffff,
                p > 0,
        ;
    }
}

proof fn lemma_value_grows(s: Seq<u32>, n: int)
    requires
        0 <= n <= s.len(),
    ensures
        limbs_value(s.take(n)) <= limbs_value(s),
    decreases s.len(),
{
    if n < s.len() {
        assert(s.take(n) == s.drop_last().take(n));
        lemma_value_grows(s.drop_last(), n);
        let p = pow2((32 * (s.len() - 1)) as nat) as int;
        lemma_pow2_pos((32 * (s.len() - 1)) as nat);
        assert(s.last() * p >= 0) by (nonlinear_arith)
            requires
                s.last() >= 0,
                p > 0,
        ;
    } else {
        assert(s.take(n) == s);
    }
}

} // verus!
