//! Natural numbers of any size.

use vstd::arithmetic::mul::*;
use vstd::arithmetic::power2::*;
use vstd::prelude::*;

verus! {

/// A natural number in base two to the 32, the lowest digit first.
pub struct Natural {
    limbs: Vec<u32>,
}

/// The digit at a place; there are only zeros beyond the last one.
spec fn limb(s: Seq<u32>, i: int) -> nat {
    if 0 <= i < s.len() {
        s[i] as nat
    } else {
        0
    }
}

/// The weight of the digit at a place.
spec fn weight(i: nat) -> nat {
    pow2(32 * i)
}

/// The number that the lowest `i` digits form.
spec fn prefix(s: Seq<u32>, i: nat) -> nat
    decreases i,
{
    if i == 0 {
        0
    } else {
        prefix(s, (i - 1) as nat) + limb(s, i - 1) * weight((i - 1) as nat)
    }
}

proof fn lemma_weight(i: nat)
    ensures
        weight(i + 1) == 0x1_0000_0000 * weight(i),
        weight(i) > 0,
        weight(0) == 1,
{
    lemma2_to64();
    lemma_pow2_adds(32, 32 * i);
    lemma_pow2_pos(32 * i);
}

/// The lowest digits stay below the next weight.
proof fn lemma_prefix_bound(s: Seq<u32>, i: nat)
    ensures
        prefix(s, i) < weight(i),
    decreases i,
{
    lemma_weight(i);
    if i > 0 {
        lemma_prefix_bound(s, (i - 1) as nat);
        lemma_weight((i - 1) as nat);
        let w = weight((i - 1) as nat);
        let x = limb(s, i - 1);
        assert(x * w <= 0xFFFF_FFFF * w) by (nonlinear_arith)
            requires
                x <= 0xFFFF_FFFF,
        ;
    }
}

/// The number that the lowest digits form depends on them alone.
proof fn lemma_prefix_same(s: Seq<u32>, t: Seq<u32>, i: nat)
    requires
        forall|j: int| 0 <= j < i ==> limb(s, j) == limb(t, j),
    ensures
        prefix(s, i) == prefix(t, i),
    decreases i,
{
    if i > 0 {
        lemma_prefix_same(s, t, (i - 1) as nat);
    }
}

/// Places beyond the last digit add nothing.
proof fn lemma_prefix_beyond(s: Seq<u32>, i: nat)
    requires
        i >= s.len(),
    ensures
        prefix(s, i) == prefix(s, s.len()),
    decreases i,
{
    if i > s.len() {
        lemma_prefix_beyond(s, (i - 1) as nat);
        lemma_mul_basics(weight((i - 1) as nat) as int);
    }
}

impl View for Natural {
    type V = nat;

    closed spec fn view(&self) -> nat {
        prefix(self.limbs@, self.limbs@.len())
    }
}

impl Natural {
    /// The number of digits.
    pub closed spec fn size(self) -> nat {
        self.limbs@.len()
    }

    /// Whether the highest digit is not zero.
    pub closed spec fn compact(self) -> bool {
        self.size() == 0 || weight((self.size() - 1) as nat) <= self@
    }

    /// A bound on a number gives one on its digits.
    pub proof fn lemma_size(self, k: nat)
        requires
            self.compact(),
            self@ < pow2(k),
        ensures
            32 * self.size() < k + 32,
    {
        if self.size() > 0 && 32 * (self.size() - 1) >= k {
            let j = (32 * (self.size() - 1)) as nat;
            if j > k {
                lemma_pow2_strictly_increases(k, j);
            }
        }
    }

    /// The number that a small integer holds.
    pub fn new(x: u32) -> (r: Natural)
        ensures
            r@ == x,
            r.size() <= 1,
            r.compact(),
    {
        let mut limbs: Vec<u32> = Vec::new();
        proof {
            lemma_weight(0);
            reveal_with_fuel(prefix, 2);
        }
        if x > 0 {
            limbs.push(x);
            proof {
                assert(limbs@.len() == 1);
                assert(limb(limbs@, 0) * weight(0) == x);
            }
        }
        Natural { limbs }
    }

    /// Multiplies by `factor` and adds `more`.
    pub fn scale(&mut self, factor: u32, more: u32)
        requires
            old(self).size() < usize::MAX,
        ensures
            final(self)@ == old(self)@ * factor + more,
            final(self).size() <= old(self).size() + 1,
            old(self).compact() && factor > 0 ==> final(self).compact(),
    {
        let ghost before = self.limbs@;
        let n = self.limbs.len();
        let mut carry: u64 = more as u64;
        let mut i: usize = 0;
        proof {
            lemma_weight(0);
            assert(0 * factor == 0);
            assert(carry * weight(0) == carry);
        }
        while i < n
            invariant
                i <= n,
                self.limbs@.len() == n,
                before.len() == n,
                carry <= 0xFFFF_FFFF,
                forall|j: int| i <= j < n ==> self.limbs@[j] == before[j],
                prefix(self.limbs@, i as nat) + carry * weight(i as nat) == prefix(before, i as nat) * factor + more,
            decreases n - i,
        {
            let ghost s = self.limbs@;
            let x = self.limbs[i];
            proof {
                assert(x * factor <= 0xFFFF_FFFF * 0xFFFF_FFFF) by (nonlinear_arith)
                    requires
                        x <= 0xFFFF_FFFF,
                        factor <= 0xFFFF_FFFF,
                ;
            }
            let product: u64 = x as u64 * factor as u64 + carry;
            let low: u32 = (product % 0x1_0000_0000) as u32;
            let high: u64 = product / 0x1_0000_0000;
            self.limbs.set(i, low);
            proof {
                let t = self.limbs@;
                let w = weight(i as nat);
                lemma_weight(i as nat);
                lemma_prefix_same(s, t, i as nat);
                assert(limb(t, i as int) == low);
                assert(limb(before, i as int) == x);
                assert(product == high * 0x1_0000_0000 + low);
                assert(low * w + high * (0x1_0000_0000 * w) == x * w * factor + carry * w) by (nonlinear_arith)
                    requires
                        product == high * 0x1_0000_0000 + low,
                        product == x * factor + carry,
                ;
                let p = prefix(before, i as nat);
                assert((p + x * w) * factor == p * factor + x * w * factor) by (nonlinear_arith);
            }
            carry = high;
            i = i + 1;
        }
        if carry > 0 {
            let ghost s = self.limbs@;
            self.limbs.push(carry as u32);
            proof {
                lemma_prefix_same(s, self.limbs@, n as nat);
                assert(carry * weight(n as nat) >= weight(n as nat)) by (nonlinear_arith)
                    requires
                        carry >= 1,
                ;
            }
        } else {
            assert(0 * weight(n as nat) == 0);
        }
        proof {
            let x = prefix(before, n as nat);
            if factor > 0 {
                assert(x * factor >= x) by (nonlinear_arith)
                    requires
                        factor >= 1,
                ;
            }
        }
    }

    /// The digit at a place; there are only zeros beyond the last one.
    fn digit(&self, i: usize) -> (r: u32)
        ensures
            r == limb(self.limbs@, i as int),
    {
        if i < self.limbs.len() {
            self.limbs[i]
        } else {
            0
        }
    }

    /// Whether the number is zero.
    pub fn is_zero(&self) -> (r: bool)
        ensures
            r == (self@ == 0),
    {
        let mut i: usize = 0;
        while i < self.limbs.len()
            invariant
                i <= self.limbs@.len(),
                prefix(self.limbs@, i as nat) == 0,
            decreases self.limbs@.len() - i,
        {
            if self.limbs[i] > 0 {
                proof {
                    lemma_weight(i as nat);
                    lemma_mul_strictly_positive(self.limbs@[i as int] as int, weight(i as nat) as int);
                    lemma_prefix_grows(self.limbs@, i as nat + 1, self.limbs@.len());
                }
                return false;
            }
            assert(0 * weight(i as nat) == 0);
            i = i + 1;
        }
        true
    }

    /// Whether the number is odd.
    pub fn is_odd(&self) -> (r: bool)
        ensures
            r == (self@ % 2 == 1),
    {
        let r = self.digit(0) % 2 == 1;
        proof {
            lemma_prefix_parity(self.limbs@, self.limbs@.len());
        }
        r
    }

    /// Whether this number is smaller than another.
    pub fn less(&self, other: &Natural) -> (r: bool)
        ensures
            r == (self@ < other@),
    {
        let n = if self.limbs.len() >= other.limbs.len() {
            self.limbs.len()
        } else {
            other.limbs.len()
        };
        let mut i: usize = n;
        proof {
            lemma_prefix_beyond(self.limbs@, n as nat);
            lemma_prefix_beyond(other.limbs@, n as nat);
        }
        while i > 0
            invariant
                (self@ < other@) <==> (prefix(self.limbs@, i as nat) < prefix(other.limbs@, i as nat)),
            decreases i,
        {
            let a = self.digit(i - 1);
            let b = other.digit(i - 1);
            proof {
                let j = (i - 1) as nat;
                let w = weight(j);
                lemma_prefix_bound(self.limbs@, j);
                lemma_prefix_bound(other.limbs@, j);
                if a < b {
                    assert(a * w + w <= b * w) by (nonlinear_arith)
                        requires
                            a < b,
                    ;
                }
                if b < a {
                    assert(b * w + w <= a * w) by (nonlinear_arith)
                        requires
                            b < a,
                    ;
                }
            }
            if a < b {
                return true;
            }
            if b < a {
                return false;
            }
            i = i - 1;
        }
        false
    }

    /// Divides by a small number and gives the remainder.
    pub fn divide(&mut self, divisor: u32) -> (r: u32)
        requires
            divisor > 0,
        ensures
            final(self)@ == old(self)@ / divisor as nat,
            r == old(self)@ % divisor as nat,
            final(self).size() == old(self).size(),
    {
        let ghost before = self.limbs@;
        let n = self.limbs.len();
        let mut rest: u64 = 0;
        let mut i: usize = n;
        assert(0 * divisor == 0);
        assert(0 * weight(n as nat) == 0);
        while i > 0
            invariant
                i <= n,
                divisor > 0,
                self.limbs@.len() == n,
                before.len() == n,
                rest < divisor,
                forall|j: int| 0 <= j < i ==> self.limbs@[j] == before[j],
                suffix(before, i as nat, n as nat) == suffix(self.limbs@, i as nat, n as nat) * divisor + rest * weight(
                    i as nat,
                ),
            decreases i,
        {
            let ghost s = self.limbs@;
            let x = self.limbs[i - 1];
            let wide: u64 = rest * 0x1_0000_0000 + x as u64;
            let q: u64 = wide / divisor as u64;
            let next: u64 = wide % divisor as u64;
            proof {
                vstd::arithmetic::div_mod::lemma_fundamental_div_mod(wide as int, divisor as int);
                assert(q < 0x1_0000_0000) by (nonlinear_arith)
                    requires
                        wide == divisor * q + next,
                        wide < divisor * 0x1_0000_0000,
                        divisor > 0,
                ;
            }
            self.limbs.set(i - 1, q as u32);
            proof {
                let j = (i - 1) as nat;
                let w = weight(j);
                let t = self.limbs@;
                lemma_weight(j);
                lemma_suffix_same(s, t, i as nat, n as nat);
                let high = suffix(s, i as nat, n as nat);
                assert(limb(before, j as int) == x);
                assert(limb(t, j as int) == q);
                assert(x * w + (high * divisor + rest * (0x1_0000_0000 * w)) == (q * w + high) * divisor + next * w)
                    by (nonlinear_arith)
                    requires
                        rest * 0x1_0000_0000 + x == divisor * q + next,
                ;
            }
            rest = next;
            i = i - 1;
        }
        proof {
            lemma_weight(0);
            lemma_suffix_prefix(before, 0, n as nat);
            lemma_suffix_prefix(self.limbs@, 0, n as nat);
            assert(rest * weight(0) == rest);
            crate::rounding::lemma_quotient(
                prefix(before, n as nat),
                divisor as nat,
                prefix(self.limbs@, n as nat),
                rest as nat,
            );
        }
        rest as u32
    }

    /// Subtracts a number that is not larger.
    pub fn subtract(&mut self, other: &Natural)
        requires
            other@ <= old(self)@,
        ensures
            final(self)@ == old(self)@ - other@,
            final(self).size() == old(self).size(),
    {
        let ghost before = self.limbs@;
        let n = self.limbs.len();
        let mut borrow: u64 = 0;
        let mut i: usize = 0;
        proof {
            lemma_weight(0);
            assert(0 * weight(0) == 0);
        }
        while i < n
            invariant
                i <= n,
                self.limbs@.len() == n,
                before.len() == n,
                borrow <= 1,
                forall|j: int| i <= j < n ==> self.limbs@[j] == before[j],
                prefix(self.limbs@, i as nat) + prefix(other.limbs@, i as nat) == prefix(before, i as nat) + borrow
                    * weight(i as nat),
            decreases n - i,
        {
            let ghost s = self.limbs@;
            let a = self.limbs[i] as u64;
            let b = other.digit(i) as u64 + borrow;
            let (low, next): (u64, u64) = if a >= b {
                (a - b, 0)
            } else {
                (a + 0x1_0000_0000 - b, 1)
            };
            self.limbs.set(i, low as u32);
            proof {
                let t = self.limbs@;
                let w = weight(i as nat);
                let d = limb(other.limbs@, i as int);
                lemma_weight(i as nat);
                lemma_prefix_same(s, t, i as nat);
                assert(limb(t, i as int) == low);
                assert(limb(before, i as int) == a);
                assert(low * w + d * w + borrow * w == a * w + next * (0x1_0000_0000 * w)) by (nonlinear_arith)
                    requires
                        low + d + borrow == a + next * 0x1_0000_0000,
                ;
            }
            borrow = next;
            i = i + 1;
        }
        proof {
            let m = other.limbs@.len();
            if m >= n {
                lemma_prefix_grows(other.limbs@, n as nat, m);
            } else {
                lemma_prefix_beyond(other.limbs@, n as nat);
            }
            lemma_prefix_bound(self.limbs@, n as nat);
            lemma_prefix_bound(before, n as nat);
            if borrow == 1 {
                assert(1 * weight(n as nat) == weight(n as nat));
            } else {
                assert(0 * weight(n as nat) == 0);
            }
            if m > n {
                lemma_remaining_zero(other.limbs@, n as nat, m, prefix(before, n as nat));
            }
        }
    }
}

/// The lowest digit decides whether a number is odd.
proof fn lemma_prefix_parity(s: Seq<u32>, i: nat)
    ensures
        prefix(s, i) % 2 == if i == 0 {
            0
        } else {
            limb(s, 0) % 2
        },
    decreases i,
{
    if i > 0 {
        let j = (i - 1) as nat;
        lemma_prefix_parity(s, j);
        lemma_weight(0);
        if j > 0 {
            lemma_weight((j - 1) as nat);
            let x = limb(s, j as int);
            let h = weight((j - 1) as nat);
            assert(x * (0x1_0000_0000 * h) == 2 * (x * (0x8000_0000 * h))) by (nonlinear_arith);
        } else {
            assert(limb(s, 0) * 1 == limb(s, 0));
        }
    }
}

/// The number that the digits from `i` up to `n` form.
spec fn suffix(s: Seq<u32>, i: nat, n: nat) -> nat
    decreases n - i,
{
    if i >= n {
        0
    } else {
        limb(s, i as int) * weight(i) + suffix(s, i + 1, n)
    }
}

proof fn lemma_suffix_same(s: Seq<u32>, t: Seq<u32>, i: nat, n: nat)
    requires
        forall|j: int| i <= j < n ==> limb(s, j) == limb(t, j),
    ensures
        suffix(s, i, n) == suffix(t, i, n),
    decreases n - i,
{
    if i < n {
        lemma_suffix_same(s, t, i + 1, n);
    }
}

/// The low and the high digits form the number.
proof fn lemma_suffix_prefix(s: Seq<u32>, i: nat, n: nat)
    requires
        i <= n,
    ensures
        prefix(s, i) + suffix(s, i, n) == prefix(s, n),
    decreases n - i,
{
    if i < n {
        lemma_suffix_prefix(s, i + 1, n);
    }
}

/// More digits do not make the number smaller.
proof fn lemma_prefix_grows(s: Seq<u32>, i: nat, j: nat)
    requires
        i <= j,
    ensures
        prefix(s, i) <= prefix(s, j),
    decreases j - i,
{
    if i < j {
        lemma_prefix_grows(s, i, (j - 1) as nat);
        lemma_mul_nonnegative(limb(s, j - 1) as int, weight((j - 1) as nat) as int);
    }
}

/// A number below the weight of a place has only zeros from there on.
proof fn lemma_remaining_zero(s: Seq<u32>, i: nat, j: nat, bound: nat)
    requires
        i <= j,
        prefix(s, j) <= bound < weight(i),
    ensures
        prefix(s, i) == prefix(s, j),
    decreases j - i,
{
    if i < j {
        let k = (j - 1) as nat;
        lemma_prefix_grows(s, k, j);
        lemma_remaining_zero(s, i, k, bound);
        if limb(s, k as int) > 0 {
            let x = limb(s, k as int);
            let w = weight(k);
            assert(x * w >= w) by (nonlinear_arith)
                requires
                    x >= 1,
            ;
            if i < k {
                lemma_pow2_strictly_increases(32 * i, 32 * k);
            }
        } else {
            assert(0 * weight(k) == 0);
        }
    }
}

} // verus!
