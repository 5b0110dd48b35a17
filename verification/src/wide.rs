//! Natural numbers of any width, in 32-bit limbs: wide enough for the cube of
//! any `u128`.

use vstd::arithmetic::div_mod::*;
use vstd::arithmetic::mul::*;
use vstd::arithmetic::power::*;
use vstd::prelude::*;

use crate::digits;

verus! {

/// One more than the largest limb.
pub open spec fn radix() -> int {
    0x1_0000_0000
}

/// The number that a sequence of limbs stands for, least significant first.
pub open spec fn value(s: Seq<u32>) -> int
    decreases s.len(),
{
    if s.len() == 0 {
        0
    } else {
        s[0] + radix() * value(s.drop_first())
    }
}

/// The limb at position `j`, zero past the end.
spec fn limb(s: Seq<u32>, j: int) -> int {
    if 0 <= j < s.len() {
        s[j] as int
    } else {
        0
    }
}

/// The number that the `j` lowest limbs stand for.
spec fn low_value(s: Seq<u32>, j: nat) -> int
    decreases j,
{
    if j == 0 {
        0
    } else {
        low_value(s, (j - 1) as nat) + limb(s, j - 1) * pow(radix(), (j - 1) as nat)
    }
}

proof fn lemma_value_nonnegative(s: Seq<u32>)
    ensures
        value(s) >= 0,
    decreases s.len(),
{
    if s.len() > 0 {
        lemma_value_nonnegative(s.drop_first());
    }
}

proof fn lemma_value_push(s: Seq<u32>, v: u32)
    ensures
        value(s.push(v)) == value(s) + v * pow(radix(), s.len()),
    decreases s.len(),
{
    digits::lemma_pow_step(radix(), 0);
    let t = s.push(v);
    if s.len() == 0 {
        assert(t.drop_first() =~= Seq::<u32>::empty());
        assert(value(t.drop_first()) == 0);
    } else {
        let j = (s.len() - 1) as nat;
        assert(t.drop_first() =~= s.drop_first().push(v));
        lemma_value_push(s.drop_first(), v);
        digits::lemma_pow_step(radix(), j);
        let p = pow(radix(), j);
        let r = radix();
        let rest = value(s.drop_first());
        assert(r * (rest + v * p) == r * rest + v * (r * p)) by (nonlinear_arith);
    }
}

/// The lowest `j` limbs, taken as a sequence, have the value `low_value`.
proof fn lemma_low_value(s: Seq<u32>, j: nat)
    ensures
        j <= s.len() ==> low_value(s, j) == value(s.take(j as int)),
        j >= s.len() ==> low_value(s, j) == value(s),
    decreases j,
{
    if j == 0 {
        assert(s.take(0) =~= Seq::<u32>::empty());
        if s.len() == 0 {
            assert(s =~= Seq::<u32>::empty());
        }
    } else {
        let i = (j - 1) as nat;
        lemma_low_value(s, i);
        if j <= s.len() {
            assert(s.take(j as int) =~= s.take(i as int).push(s[i as int]));
            lemma_value_push(s.take(i as int), s[i as int]);
        } else {
            assert(limb(s, i as int) * pow(radix(), i) == 0) by (nonlinear_arith)
                requires
                    limb(s, i as int) == 0,
            ;
        }
        if j == s.len() {
            assert(s.take(j as int) =~= s);
        }
    }
}

/// `acc · 2^32 + x · m`, limb by limb.
fn shift_add(acc: &Vec<u32>, x: &Vec<u32>, m: u32) -> (out: Vec<u32>)
    requires
        acc.len() < 0x1000_0000,
        x.len() < 0x1000_0000,
    ensures
        value(out@) == radix() * value(acc@) + value(x@) * m,
        out.len() <= acc.len() + 2 || out.len() <= x.len() + 1,
{
    let ghost sh = seq![0u32] + acc@;
    let n: usize = if acc.len() + 1 < x.len() {
        x.len()
    } else {
        acc.len() + 1
    };
    let mut out: Vec<u32> = Vec::new();
    let mut carry: u64 = 0;
    let mut j: usize = 0;
    proof {
        digits::lemma_pow_step(radix(), 0);
        assert(low_value(sh, 0) == 0);
        assert(low_value(x@, 0) == 0);
        assert(value(out@) == 0);
    }
    while j < n
        invariant
            j <= n,
            n == if acc.len() + 1 < x.len() { x.len() as int } else { acc.len() + 1 },
            acc.len() < 0x1000_0000,
            x.len() < 0x1000_0000,
            sh == seq![0u32] + acc@,
            out.len() == j,
            carry < 0x1_0000_0000,
            value(out@) + carry * pow(radix(), j as nat) == low_value(sh, j as nat) + low_value(
                x@,
                j as nat,
            ) * m,
        decreases n - j,
    {
        let a: u64 = if 0 < j && j <= acc.len() {
            acc[j - 1] as u64
        } else {
            0
        };
        let b: u64 = if j < x.len() {
            x[j] as u64
        } else {
            0
        };
        proof {
            assert(a == limb(sh, j as int));
            assert(b == limb(x@, j as int));
            assert(b * m <= 0xffff_ffff * 0xffff_ffff) by (nonlinear_arith)
                requires
                    b <= 0xffff_ffff,
                    m <= 0xffff_ffff,
            ;
        }
        let t: u64 = a + b * (m as u64) + carry;
        let low: u32 = (t % 0x1_0000_0000) as u32;
        let ghost old_out = out@;
        let ghost old_carry = carry as int;
        out.push(low);
        carry = t / 0x1_0000_0000;
        proof {
            lemma_value_push(old_out, low);
            digits::lemma_pow_step(radix(), j as nat);
            let p = pow(radix(), j as nat);
            let c = carry as int;
            let r = radix();
            assert(low + r * c == a + b * m + old_carry);
            assert(low * p + c * (r * p) == a * p + (b * p) * m + old_carry * p)
                by (nonlinear_arith)
                requires
                    low + r * c == a + b * m + old_carry,
            ;
            let xs = low_value(x@, j as nat);
            assert((xs + b * p) * m == xs * m + (b * p) * m) by (nonlinear_arith);
        }
        j = j + 1;
    }
    let ghost before = out@;
    out.push(carry as u32);
    proof {
        lemma_value_push(before, carry as u32);
        lemma_low_value(sh, n as nat);
        lemma_low_value(x@, n as nat);
        assert(sh.drop_first() =~= acc@);
    }
    out
}

/// A natural number of any width.
pub struct Wide {
    limbs: Vec<u32>,
}

impl Wide {
    /// The number itself.
    pub closed spec fn view(&self) -> int {
        value(self.limbs@)
    }

    /// The number of limbs that are stored.
    pub closed spec fn width(&self) -> nat {
        self.limbs@.len()
    }

    /// A wide number is a natural number.
    pub proof fn lemma_nonnegative(&self)
        ensures
            self@ >= 0,
    {
        lemma_value_nonnegative(self.limbs@);
    }

    /// Widen a `u128`.
    pub fn from_u128(n: u128) -> (w: Wide)
        ensures
            w@ == n,
            w.width() <= 4,
    {
        let mut limbs: Vec<u32> = Vec::new();
        let mut x: u128 = n;
        proof {
            digits::lemma_pow_step(radix(), 0);
            lemma_mul_basics(x as int);
        }
        let ghost top = 0x1_0000_0000_0000_0000_0000_0000_0000_0000int;
        while x > 0
            invariant
                value(limbs@) + x * pow(radix(), limbs@.len()) == n,
                limbs@.len() <= 4,
                top == 0x1_0000_0000_0000_0000_0000_0000_0000_0000int,
                limbs@.len() == 0 ==> x < top,
                limbs@.len() == 1 ==> x < 0x1_0000_0000_0000_0000_0000_0000int,
                limbs@.len() == 2 ==> x < 0x1_0000_0000_0000_0000int,
                limbs@.len() == 3 ==> x < 0x1_0000_0000int,
                limbs@.len() == 4 ==> x == 0,
            decreases x,
        {
            let low: u32 = (x % 0x1_0000_0000) as u32;
            let ghost before = limbs@;
            limbs.push(low);
            proof {
                lemma_value_push(before, low);
                digits::lemma_pow_step(radix(), before.len());
                let p = pow(radix(), before.len());
                let r = radix();
                let q = x as int / 0x1_0000_0000;
                assert(x * p == low * p + q * (r * p)) by (nonlinear_arith)
                    requires
                        x == low + r * q,
                ;
            }
            x = x / 0x1_0000_0000;
        }
        Wide { limbs }
    }

    /// The product with a `u128`.
    pub fn mul_u128(&self, n: u128) -> (w: Wide)
        requires
            self.width() < 0x100_0000,
        ensures
            w@ == self@ * n,
            w.width() <= self.width() + 8,
    {
        let factor: Wide = Wide::from_u128(n);
        let len: usize = factor.limbs.len();
        let mut acc: Vec<u32> = Vec::new();
        let mut i: usize = len;
        proof {
            assert(factor.limbs@.skip(len as int) =~= Seq::<u32>::empty());
            assert(value(factor.limbs@.skip(len as int)) == 0);
            assert(self@ * 0 == 0);
        }
        while i > 0
            invariant
                i <= len,
                len == factor.limbs@.len(),
                len <= 4,
                self.width() < 0x100_0000,
                acc.len() <= self.width() + 2 * (len - i),
                value(acc@) == self@ * value(factor.limbs@.skip(i as int)),
            decreases i,
        {
            i = i - 1;
            let m: u32 = factor.limbs[i];
            let ghost before = value(acc@);
            acc = shift_add(&acc, &self.limbs, m);
            proof {
                let s = factor.limbs@.skip(i as int);
                assert(s.drop_first() =~= factor.limbs@.skip(i as int + 1));
                let rest = value(s.drop_first());
                let v = self@;
                let r = radix();
                assert(v * (m + r * rest) == r * (v * rest) + v * m) by (nonlinear_arith);
            }
        }
        proof {
            assert(factor.limbs@.skip(0) =~= factor.limbs@);
        }
        Wide { limbs: acc }
    }

    /// Whether the number is zero.
    pub fn is_zero(&self) -> (zero: bool)
        ensures
            zero == (self@ == 0),
    {
        let len: usize = self.limbs.len();
        let mut i: usize = len;
        proof {
            assert(self.limbs@.skip(len as int) =~= Seq::<u32>::empty());
        }
        while i > 0
            invariant
                i <= len,
                len == self.limbs@.len(),
                value(self.limbs@.skip(i as int)) == 0,
            decreases i,
        {
            i = i - 1;
            let ghost s = self.limbs@.skip(i as int);
            proof {
                assert(s.drop_first() =~= self.limbs@.skip(i as int + 1));
            }
            if self.limbs[i] != 0 {
                proof {
                    lemma_value_split(self.limbs@, i as int);
                    lemma_value_nonnegative(self.limbs@.take(i as int));
                    let p = pow(radix(), i as nat);
                    let v = value(s);
                    digits::lemma_pow_step(radix(), i as nat);
                    assert(p * v > 0) by (nonlinear_arith)
                        requires
                            p > 0,
                            v > 0,
                    ;
                }
                return false;
            }
        }
        proof {
            assert(self.limbs@.skip(0) =~= self.limbs@);
        }
        true
    }

    /// Divide in place by `d` and return the remainder.
    pub fn div_assign_rem_u32(&mut self, d: u32) -> (rem: u32)
        requires
            d > 0,
        ensures
            final(self)@ == old(self)@ / (d as int),
            rem == old(self)@ % (d as int),
            final(self).width() <= old(self).width(),
    {
        let ghost dividend = self.limbs@;
        let len: usize = self.limbs.len();
        let mut i: usize = len;
        let mut rem: u64 = 0;
        proof {
            assert(self.limbs@.skip(len as int) =~= Seq::<u32>::empty());
        }
        while i > 0
            invariant
                i <= len,
                len == dividend.len(),
                self.limbs@.len() == len,
                d > 0,
                rem < d,
                forall|j: int| 0 <= j < i ==> self.limbs@[j] == dividend[j],
                value(dividend.skip(i as int)) == d * value(self.limbs@.skip(i as int)) + rem,
            decreases i,
        {
            i = i - 1;
            let cur: u64 = rem * 0x1_0000_0000 + self.limbs[i] as u64;
            let q: u64 = cur / (d as u64);
            proof {
                assert(q < 0x1_0000_0000) by (nonlinear_arith)
                    requires
                        q == cur / (d as u64),
                        cur < d * 0x1_0000_0000,
                        d > 0,
                ;
                lemma_fundamental_div_mod(cur as int, d as int);
            }
            let ghost before = self.limbs@;
            let ghost old_rem = rem as int;
            self.limbs.set(i, q as u32);
            rem = cur % (d as u64);
            proof {
                let s = dividend.skip(i as int);
                let t = self.limbs@.skip(i as int);
                assert(s.drop_first() =~= dividend.skip(i as int + 1));
                assert(t.drop_first() =~= before.skip(i as int + 1));
                let r = radix();
                let dd = d as int;
                let v = value(t.drop_first());
                assert(r * (dd * v + old_rem) + s[0] == dd * (q + r * v) + rem)
                    by (nonlinear_arith)
                    requires
                        r * old_rem + s[0] == dd * q + rem,
                ;
            }
        }
        proof {
            assert(dividend.skip(0) =~= dividend);
            assert(self.limbs@.skip(0) =~= self.limbs@);
            lemma_mul_is_commutative(d as int, value(self.limbs@));
            lemma_fundamental_div_mod_converse(
                value(dividend),
                d as int,
                value(self.limbs@),
                rem as int,
            );
        }
        let ghost quotient = value(self.limbs@);
        let mut top: usize = len;
        while top > 0 && self.limbs[top - 1] == 0
            invariant
                top == self.limbs@.len(),
                top <= len,
                value(self.limbs@) == quotient,
            decreases top,
        {
            let ghost before = self.limbs@;
            let _ = self.limbs.pop();
            top = top - 1;
            proof {
                lemma_value_push(self.limbs@, 0);
                assert(self.limbs@.push(0) =~= before);
                assert(0 * pow(radix(), self.limbs@.len()) == 0);
            }
        }
        rem as u32
    }
}

/// Splitting the limbs at `i` splits the value.
proof fn lemma_value_split(s: Seq<u32>, i: int)
    requires
        0 <= i <= s.len(),
    ensures
        value(s) == value(s.take(i)) + pow(radix(), i as nat) * value(s.skip(i)),
    decreases i,
{
    digits::lemma_pow_step(radix(), 0);
    if i == 0 {
        assert(s.take(0) =~= Seq::<u32>::empty());
        assert(s.skip(0) =~= s);
        lemma_mul_basics(value(s));
    } else {
        let j = i - 1;
        lemma_value_split(s, j);
        assert(s.take(i) =~= s.take(j).push(s[j]));
        lemma_value_push(s.take(j), s[j]);
        assert(s.skip(j).drop_first() =~= s.skip(i));
        digits::lemma_pow_step(radix(), j as nat);
        let p = pow(radix(), j as nat);
        let r = radix();
        let rest = value(s.skip(i));
        assert(p * (s[j] + r * rest) == s[j] * p + (r * p) * rest) by (nonlinear_arith);
    }
}

} // verus!
