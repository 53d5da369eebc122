//! Token amounts: natural numbers of any size, held as 64-bit limbs, least
//! significant first.

use vstd::prelude::*;

verus! {

/// The base of a limb: `2^64`.
pub open spec fn limb_base() -> nat {
    0x1_0000_0000_0000_0000
}

/// `limb_base()` to the power `n`.
pub open spec fn base_pow(n: nat) -> nat
    decreases n,
{
    if n == 0 {
        1
    } else {
        limb_base() * base_pow((n - 1) as nat)
    }
}

/// The number that the limbs `s` write, least significant limb first.
pub open spec fn limbs_value(s: Seq<u64>) -> nat
    decreases s.len(),
{
    if s.len() == 0 {
        0
    } else {
        s[0] as nat + limb_base() * limbs_value(s.drop_first())
    }
}

proof fn lemma_base_pow_positive(n: nat)
    ensures
        base_pow(n) > 0,
    decreases n,
{
    if n > 0 {
        lemma_base_pow_positive((n - 1) as nat);
        let p = base_pow((n - 1) as nat);
        assert(limb_base() * p > 0) by (nonlinear_arith)
            requires
                p > 0,
        ;
    }
}

/// A limb added at the top counts `base_pow` of its position.
proof fn lemma_value_push(s: Seq<u64>, x: u64)
    ensures
        limbs_value(s.push(x)) == limbs_value(s) + x * base_pow(s.len()),
    decreases s.len(),
{
    if s.len() == 0 {
        assert(s.push(x).drop_first() =~= Seq::<u64>::empty());
        assert(s.push(x)[0] == x);
        assert(limbs_value(Seq::<u64>::empty()) == 0);
        assert(limbs_value(s.push(x)) == x);
        assert(base_pow(0) == 1);
        assert(x * base_pow(s.len()) == x);
    } else {
        let t = s.drop_first();
        assert(s.push(x).drop_first() =~= t.push(x));
        assert(s.push(x)[0] == s[0]);
        assert(t.len() == (s.len() - 1) as nat);
        assert(base_pow(s.len()) == limb_base() * base_pow(t.len()));
        lemma_value_push(t, x);
        let b = limb_base() as int;
        let vt = limbs_value(t) as int;
        let p = base_pow(t.len()) as int;
        assert(b * (vt + x * p) == b * vt + x * (b * p)) by (nonlinear_arith);
        assert(limbs_value(s.push(x)) == s[0] + b * limbs_value(t.push(x)));
        assert(limbs_value(s) == s[0] + b * vt);
    }
}

/// The limbs write a number below `base_pow` of their count.
proof fn lemma_value_bound(s: Seq<u64>)
    ensures
        limbs_value(s) < base_pow(s.len()),
    decreases s.len(),
{
    if s.len() > 0 {
        let t = s.drop_first();
        lemma_value_bound(t);
        let b = limb_base() as int;
        let vt = limbs_value(t) as int;
        let p = base_pow(t.len()) as int;
        let x = s[0] as int;
        assert(x + b * vt < b * p) by (nonlinear_arith)
            requires
                0 <= x < b,
                0 <= vt < p,
        ;
    }
}

/// The first `i + 1` limbs: the first `i` and limb `i` on top.
proof fn lemma_value_take_next(s: Seq<u64>, i: int)
    requires
        0 <= i < s.len(),
    ensures
        limbs_value(s.take(i + 1)) == limbs_value(s.take(i)) + s[i] * base_pow(i as nat),
{
    assert(s.take(i + 1) =~= s.take(i).push(s[i]));
    lemma_value_push(s.take(i), s[i]);
}

/// A step of a carry loop: limb `lo` and carry `hi` of a digit `t` put at
/// position `i`.
proof fn lemma_digit_split(t: int, lo: int, hi: int, p: int)
    requires
        t == lo + limb_base() * hi,
    ensures
        t * p == lo * p + hi * (limb_base() * p),
{
    let b = limb_base() as int;
    assert(t * p == lo * p + hi * (b * p)) by (nonlinear_arith)
        requires
            t == lo + b * hi,
    ;
}

/// A token amount: a natural number of any size.
#[derive(Debug)]
pub struct Amount {
    limbs: Vec<u64>,
}

impl View for Amount {
    type V = nat;

    closed spec fn view(&self) -> nat {
        limbs_value(self.limbs@)
    }
}

/// `s` with zero limbs added on top up to `n` limbs: the same number.
fn pad_limbs(s: &Vec<u64>, n: usize) -> (r: Vec<u64>)
    requires
        s@.len() <= n,
    ensures
        r@.len() == n,
        limbs_value(r@) == limbs_value(s@),
{
    let mut r: Vec<u64> = Vec::new();
    let mut i: usize = 0;
    while i < s.len()
        invariant
            i <= s@.len(),
            r@ == s@.take(i as int),
        decreases s@.len() - i,
    {
        r.push(s[i]);
        assert(r@ =~= s@.take(i + 1));
        i += 1;
    }
    assert(r@ =~= s@);
    while r.len() < n
        invariant
            r@.len() <= n,
            limbs_value(r@) == limbs_value(s@),
        decreases n - r@.len(),
    {
        proof {
            lemma_value_push(r@, 0);
        }
        r.push(0);
    }
    r
}

impl Amount {
    /// Nought.
    pub fn zero() -> (r: Amount)
        ensures
            r@ == 0,
    {
        Amount { limbs: Vec::new() }
    }

    /// The amount `x`.
    pub fn from_u64(x: u64) -> (r: Amount)
        ensures
            r@ == x,
    {
        let mut limbs: Vec<u64> = Vec::new();
        limbs.push(x);
        let r = Amount { limbs };
        assert(r.limbs@.drop_first() =~= Seq::<u64>::empty());
        assert(r.limbs@[0] == x);
        assert(limbs_value(Seq::<u64>::empty()) == 0);
        r
    }

    /// The amount `x`.
    pub fn from_u128(x: u128) -> (r: Amount)
        ensures
            r@ == x,
    {
        let lo = (x % 0x1_0000_0000_0000_0000) as u64;
        let hi = (x / 0x1_0000_0000_0000_0000) as u64;
        let mut limbs: Vec<u64> = Vec::new();
        limbs.push(lo);
        limbs.push(hi);
        let r = Amount { limbs };
        proof {
            let s = r.limbs@;
            assert(s.drop_first() =~= seq![hi]);
            assert(s.drop_first().drop_first() =~= Seq::<u64>::empty());
            assert(seq![hi].drop_first() =~= Seq::<u64>::empty());
            assert(seq![hi][0] == hi);
            assert(limbs_value(Seq::<u64>::empty()) == 0);
            assert(limbs_value(seq![hi]) == hi);
            assert(s[0] == lo);
        }
        r
    }

    /// A copy of the amount.
    pub fn copy(&self) -> (r: Amount)
        ensures
            r@ == self@,
    {
        let limbs = self.limbs.clone();
        assert(limbs@ =~= self.limbs@);
        Amount { limbs }
    }

    /// The sum of two amounts.
    pub fn add(&self, other: &Amount) -> (r: Amount)
        ensures
            r@ == self@ + other@,
    {
        let n = if self.limbs.len() >= other.limbs.len() {
            self.limbs.len()
        } else {
            other.limbs.len()
        };
        let a = pad_limbs(&self.limbs, n);
        let b = pad_limbs(&other.limbs, n);
        let mut res: Vec<u64> = Vec::new();
        let mut carry: u64 = 0;
        let mut i: usize = 0;
        assert(a@.take(0) =~= Seq::<u64>::empty());
        assert(b@.take(0) =~= Seq::<u64>::empty());
        while i < n
            invariant
                i <= n,
                a@.len() == n,
                b@.len() == n,
                res@.len() == i,
                carry <= 1,
                limbs_value(res@) + carry * base_pow(i as nat) == limbs_value(a@.take(i as int))
                    + limbs_value(b@.take(i as int)),
            decreases n - i,
        {
            let t: u128 = a[i] as u128 + b[i] as u128 + carry as u128;
            let lo = (t % 0x1_0000_0000_0000_0000) as u64;
            let hi = (t / 0x1_0000_0000_0000_0000) as u64;
            proof {
                let p = base_pow(i as nat);
                lemma_value_push(res@, lo);
                lemma_value_take_next(a@, i as int);
                lemma_value_take_next(b@, i as int);
                lemma_digit_split(t as int, lo as int, hi as int, p as int);
                assert(base_pow((i + 1) as nat) == limb_base() * p);
                assert(t * p == a@[i as int] * p + b@[i as int] * p + carry * p) by (nonlinear_arith)
                    requires
                        t == a@[i as int] + b@[i as int] + carry,
                ;
            }
            res.push(lo);
            carry = hi;
            i += 1;
        }
        proof {
            lemma_value_push(res@, carry);
            assert(a@.take(n as int) =~= a@);
            assert(b@.take(n as int) =~= b@);
        }
        res.push(carry);
        Amount { limbs: res }
    }

    /// `self` less `other`, where `other` is not larger.
    pub fn checked_sub(&self, other: &Amount) -> (r: Option<Amount>)
        ensures
            (r is Some) == (self@ >= other@),
            r matches Some(d) ==> d@ == self@ - other@,
    {
        let n = if self.limbs.len() >= other.limbs.len() {
            self.limbs.len()
        } else {
            other.limbs.len()
        };
        let a = pad_limbs(&self.limbs, n);
        let b = pad_limbs(&other.limbs, n);
        let mut res: Vec<u64> = Vec::new();
        let mut borrow: u64 = 0;
        let mut i: usize = 0;
        assert(a@.take(0) =~= Seq::<u64>::empty());
        assert(b@.take(0) =~= Seq::<u64>::empty());
        while i < n
            invariant
                i <= n,
                a@.len() == n,
                b@.len() == n,
                res@.len() == i,
                borrow <= 1,
                limbs_value(res@) + limbs_value(b@.take(i as int)) == limbs_value(a@.take(i as int))
                    + borrow * base_pow(i as nat),
            decreases n - i,
        {
            let need: u128 = b[i] as u128 + borrow as u128;
            let x: u128 = a[i] as u128;
            let (d, nb) = if x >= need {
                ((x - need) as u64, 0u64)
            } else {
                ((x + 0x1_0000_0000_0000_0000 - need) as u64, 1u64)
            };
            proof {
                let p = base_pow(i as nat);
                lemma_value_push(res@, d);
                lemma_value_take_next(a@, i as int);
                lemma_value_take_next(b@, i as int);
                assert(base_pow((i + 1) as nat) == limb_base() * p);
                assert(d + need == x + limb_base() * nb);
                lemma_digit_split(d + need, x as int, nb as int, p as int);
                assert((d + need) * p == d * p + b@[i as int] * p + borrow * p) by (nonlinear_arith)
                    requires
                        need == b@[i as int] + borrow,
                ;
            }
            res.push(d);
            borrow = nb;
            i += 1;
        }
        proof {
            lemma_value_bound(res@);
            assert(a@.take(n as int) =~= a@);
            assert(b@.take(n as int) =~= b@);
        }
        if borrow == 0 {
            Some(Amount { limbs: res })
        } else {
            None
        }
    }

    /// Whether `self` is at least `other`.
    pub fn ge(&self, other: &Amount) -> (r: bool)
        ensures
            r == (self@ >= other@),
    {
        self.checked_sub(other).is_some()
    }

    /// Whether the amounts are equal.
    pub fn same(&self, other: &Amount) -> (r: bool)
        ensures
            r == (self@ == other@),
    {
        self.ge(other) && other.ge(self)
    }

    /// Whether the amount is nought.
    pub fn is_zero(&self) -> (r: bool)
        ensures
            r == (self@ == 0),
    {
        Amount::zero().ge(self)
    }

    /// The amount times `k`.
    pub fn mul_u64(&self, k: u64) -> (r: Amount)
        ensures
            r@ == self@ * k,
    {
        let n = self.limbs.len();
        let mut res: Vec<u64> = Vec::new();
        let mut carry: u64 = 0;
        let mut i: usize = 0;
        assert(self.limbs@.take(0) =~= Seq::<u64>::empty());
        assert(res@ =~= Seq::<u64>::empty());
        assert(limbs_value(Seq::<u64>::empty()) == 0);
        while i < n
            invariant
                i <= n,
                n == self.limbs@.len(),
                res@.len() == i,
                limbs_value(res@) + carry * base_pow(i as nat) == limbs_value(
                    self.limbs@.take(i as int),
                ) * k,
            decreases n - i,
        {
            let ai = self.limbs[i];
            assert(ai as int * k as int + carry as int <= 0xffff_ffff_ffff_ffff_ffff_ffff_ffff_ffff)
                by (nonlinear_arith)
                requires
                    ai <= 0xffff_ffff_ffff_ffff,
                    k <= 0xffff_ffff_ffff_ffff,
                    carry <= 0xffff_ffff_ffff_ffff,
            ;
            let t: u128 = ai as u128 * k as u128 + carry as u128;
            let lo = (t % 0x1_0000_0000_0000_0000) as u64;
            let hi = (t / 0x1_0000_0000_0000_0000) as u64;
            proof {
                let p = base_pow(i as nat);
                let va = limbs_value(self.limbs@.take(i as int));
                lemma_value_push(res@, lo);
                lemma_value_take_next(self.limbs@, i as int);
                lemma_digit_split(t as int, lo as int, hi as int, p as int);
                assert(base_pow((i + 1) as nat) == limb_base() * p);
                assert(t * p == ai * k * p + carry * p) by (nonlinear_arith)
                    requires
                        t == ai * k + carry,
                ;
                assert((va + ai * p) * k == va * k + ai * k * p) by (nonlinear_arith);
            }
            res.push(lo);
            carry = hi;
            i += 1;
        }
        proof {
            lemma_value_push(res@, carry);
            assert(self.limbs@.take(n as int) =~= self.limbs@);
        }
        res.push(carry);
        Amount { limbs: res }
    }

    /// The amount divided by `d`, rounded down.
    pub fn div_u64(&self, d: u64) -> (r: Amount)
        requires
            d > 0,
        ensures
            r@ == self@ / (d as nat),
    {
        let n = self.limbs.len();
        let mut q: Vec<u64> = Vec::new();
        let mut rem: u64 = 0;
        let mut i: usize = n;
        assert(self.limbs@.skip(n as int) =~= Seq::<u64>::empty());
        assert(q@ =~= Seq::<u64>::empty());
        assert(limbs_value(Seq::<u64>::empty()) == 0);
        while i > 0
            invariant
                i <= n,
                n == self.limbs@.len(),
                d > 0,
                rem < d,
                limbs_value(q@) * d + rem == limbs_value(self.limbs@.skip(i as int)),
            decreases i,
        {
            let ai = self.limbs[i - 1];
            assert((rem as int) * 0x1_0000_0000_0000_0000 + (ai as int) < (d as int) * 0x1_0000_0000_0000_0000)
                by (nonlinear_arith)
                requires
                    rem < d,
                    ai <= 0xffff_ffff_ffff_ffff,
            ;
            let t: u128 = rem as u128 * 0x1_0000_0000_0000_0000 + ai as u128;
            let qi128 = t / (d as u128);
            let r2 = (t % (d as u128)) as u64;
            proof {
                vstd::arithmetic::div_mod::lemma_fundamental_div_mod(t as int, d as int);
                assert(qi128 < 0x1_0000_0000_0000_0000) by (nonlinear_arith)
                    requires
                        t < d * 0x1_0000_0000_0000_0000,
                        t == d * qi128 + (t as int) % (d as int),
                        0 <= (t as int) % (d as int),
                        d > 0,
                ;
            }
            let qi = qi128 as u64;
            let ghost old_q = q@;
            q.insert(0, qi);
            proof {
                let s = self.limbs@;
                let b = limb_base() as int;
                assert(s.skip(i - 1).drop_first() =~= s.skip(i as int));
                assert(s.skip(i - 1)[0] == ai);
                assert(q@.drop_first() =~= old_q);
                assert(q@[0] == qi);
                let vq = limbs_value(old_q) as int;
                let vs = limbs_value(s.skip(i as int)) as int;
                assert((qi + b * vq) * d + r2 == ai + b * vs) by (nonlinear_arith)
                    requires
                        vq * d + rem == vs,
                        t == rem * b + ai,
                        t == d * qi + r2,
                ;
            }
            rem = r2;
            i -= 1;
        }
        proof {
            assert(self.limbs@.skip(0) =~= self.limbs@);
            vstd::arithmetic::div_mod::lemma_fundamental_div_mod_converse(
                self@ as int,
                d as int,
                limbs_value(q@) as int,
                rem as int,
            );
        }
        Amount { limbs: q }
    }

    /// The amount as a 64-bit number, where it fits.
    pub fn to_u64(&self) -> (r: Option<u64>)
        ensures
            (r is Some) == (self@ <= u64::MAX),
            r matches Some(v) ==> v == self@,
    {
        if !Amount::from_u64(u64::MAX).ge(self) {
            return None;
        }
        if self.limbs.len() == 0 {
            return Some(0);
        }
        proof {
            let b = limb_base() as int;
            let x = self.limbs@[0] as int;
            let v = limbs_value(self.limbs@.drop_first()) as int;
            assert(v == 0) by (nonlinear_arith)
                requires
                    x + b * v <= 0xffff_ffff_ffff_ffff,
                    x >= 0,
                    v >= 0,
                    b == 0x1_0000_0000_0000_0000,
            ;
        }
        Some(self.limbs[0])
    }

    /// The amount as a 128-bit number, where it fits.
    pub fn to_u128(&self) -> (r: Option<u128>)
        ensures
            (r is Some) == (self@ <= u128::MAX),
            r matches Some(v) ==> v == self@,
    {
        if !Amount::from_u128(u128::MAX).ge(self) {
            return None;
        }
        if self.limbs.len() == 0 {
            return Some(0);
        }
        if self.limbs.len() == 1 {
            assert(self.limbs@.drop_first() =~= Seq::<u64>::empty());
            assert(limbs_value(Seq::<u64>::empty()) == 0);
            return Some(self.limbs[0] as u128);
        }
        let lo = self.limbs[0];
        let hi = self.limbs[1];
        proof {
            let b = limb_base() as int;
            let s = self.limbs@;
            assert(s.drop_first()[0] == hi);
            assert(s[0] == lo);
            let v = limbs_value(s.drop_first().drop_first()) as int;
            assert(limbs_value(s.drop_first()) == hi + b * v);
            assert(self@ == lo + b * limbs_value(s.drop_first()));
            assert(v == 0) by (nonlinear_arith)
                requires
                    lo + b * (hi + b * v) <= 0xffff_ffff_ffff_ffff_ffff_ffff_ffff_ffff,
                    lo >= 0,
                    hi >= 0,
                    v >= 0,
                    b == 0x1_0000_0000_0000_0000,
            ;
            assert(lo + b * hi <= 0xffff_ffff_ffff_ffff_ffff_ffff_ffff_ffff);
        }
        Some(lo as u128 + hi as u128 * 0x1_0000_0000_0000_0000)
    }
}

} // verus!
