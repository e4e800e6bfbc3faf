use vstd::prelude::*;

verus! {

/// One limb's worth: 2^64.
pub open spec fn base() -> nat {
    0x1_0000_0000_0000_0000
}

/// `base()` to the power `n`.
pub open spec fn bpow(n: nat) -> nat
    decreases n,
{
    if n == 0 {
        1
    } else {
        bpow((n - 1) as nat) * base()
    }
}

/// Limb `i` of `s`, zero past its end.
pub open spec fn limb(s: Seq<u64>, i: int) -> nat {
    if 0 <= i < s.len() {
        s[i] as nat
    } else {
        0
    }
}

/// The number that the first `n` limbs of `s` spell, least significant first.
pub open spec fn val_upto(s: Seq<u64>, n: nat) -> nat
    decreases n,
{
    if n == 0 {
        0
    } else {
        val_upto(s, (n - 1) as nat) + limb(s, n - 1) * bpow((n - 1) as nat)
    }
}

pub open spec fn val(s: Seq<u64>) -> nat {
    val_upto(s, s.len())
}

/// A natural number of any size, as 64-bit limbs.
#[derive(Debug)]
pub struct Big {
    limbs: Vec<u64>,
}

impl View for Big {
    type V = nat;

    closed spec fn view(&self) -> nat {
        val(self.limbs@)
    }
}

/// Limbs past the end add nothing.
proof fn lemma_val_extend(s: Seq<u64>, n: nat)
    requires
        n >= s.len(),
    ensures
        val_upto(s, n) == val(s),
    decreases n,
{
    if n > s.len() {
        lemma_val_extend(s, (n - 1) as nat);
    }
}

/// The first `n` limbs spell less than `base()^n`.
proof fn lemma_val_bound(s: Seq<u64>, n: nat)
    ensures
        val_upto(s, n) < bpow(n),
    decreases n,
{
    if n > 0 {
        lemma_val_bound(s, (n - 1) as nat);
        let v = val_upto(s, (n - 1) as nat);
        let l = limb(s, n - 1);
        let p = bpow((n - 1) as nat);
        assert(l < base());
        assert(v + l * p < p * base()) by (nonlinear_arith)
            requires
                v < p,
                l < base(),
                l >= 0,
        ;
    }
}

/// Pushing a limb adds it at the top.
proof fn lemma_val_push(s: Seq<u64>, x: u64)
    ensures
        val(s.push(x)) == val(s) + x * bpow(s.len()),
{
    let t = s.push(x);
    assert forall|i: int| 0 <= i < s.len() implies limb(t, i) == limb(s, i) by {}
    lemma_val_upto_same(s, t, s.len());
}

proof fn lemma_val_upto_same(s: Seq<u64>, t: Seq<u64>, n: nat)
    requires
        forall|i: int| 0 <= i < n ==> limb(t, i) == limb(s, i),
    ensures
        val_upto(s, n) == val_upto(t, n),
    decreases n,
{
    if n > 0 {
        lemma_val_upto_same(s, t, (n - 1) as nat);
    }
}

/// Comparing from the top limb down decides the order.
proof fn lemma_cmp(s: Seq<u64>, t: Seq<u64>, n: nat, i: nat)
    requires
        i < n,
        forall|j: int| i < j < n ==> limb(s, j) == limb(t, j),
        limb(s, i as int) < limb(t, i as int),
    ensures
        val_upto(s, n) < val_upto(t, n),
    decreases n,
{
    let p = bpow((n - 1) as nat);
    if i == n - 1 {
        lemma_val_bound(s, (n - 1) as nat);
        let vs = val_upto(s, (n - 1) as nat);
        let vt = val_upto(t, (n - 1) as nat);
        let ls = limb(s, n - 1);
        let lt = limb(t, n - 1);
        assert(vs + ls * p < vt + lt * p) by (nonlinear_arith)
            requires
                vs < p,
                vt >= 0,
                ls + 1 <= lt,
                p >= 1,
        ;
    } else {
        lemma_cmp(s, t, (n - 1) as nat, i);
    }
}

impl Big {
    pub fn from_u64(x: u64) -> (r: Big)
        ensures
            r@ == x,
    {
        let mut limbs: Vec<u64> = Vec::new();
        limbs.push(x);
        proof {
            lemma_val_push(Seq::<u64>::empty(), x);
            assert(limbs@ == Seq::<u64>::empty().push(x));
            assert(val(Seq::<u64>::empty()) == 0);
            assert(bpow(0) == 1);
            assert(val(limbs@) == val(Seq::<u64>::empty()) + x * bpow(0));
            assert(x * bpow(0) == x) by (nonlinear_arith)
                requires
                    bpow(0) == 1,
            ;
        }
        Big { limbs }
    }

    pub fn from_u128(x: u128) -> (r: Big)
        ensures
            r@ == x,
    {
        let lo = (x % 0x1_0000_0000_0000_0000) as u64;
        let hi = (x / 0x1_0000_0000_0000_0000) as u64;
        let mut limbs: Vec<u64> = Vec::new();
        limbs.push(lo);
        proof {
            lemma_val_push(Seq::<u64>::empty(), lo);
            assert(limbs@ == Seq::<u64>::empty().push(lo));
            assert(val(Seq::<u64>::empty()) == 0);
            assert(bpow(0) == 1);
        }
        let ghost s = limbs@;
        limbs.push(hi);
        proof {
            lemma_val_push(s, hi);
            assert(bpow(1) == bpow(0) * base());
            assert(bpow(0) == 1);
            assert(x == hi * base() + lo);
            assert(lo * bpow(0) == lo) by (nonlinear_arith)
                requires
                    bpow(0) == 1,
            ;
            assert(val(s) == lo);
            assert(val(limbs@) == val(s) + hi * bpow(1));
            assert(hi * bpow(1) == hi * base()) by (nonlinear_arith)
                requires
                    bpow(1) == base(),
            ;
        }
        Big { limbs }
    }

    /// `self * m`.
    pub fn mul_small(&self, m: u64) -> (r: Big)
        ensures
            r@ == self@ * m,
    {
        let a = &self.limbs;
        let mut out: Vec<u64> = Vec::new();
        let mut carry: u64 = 0;
        let mut i: usize = 0;
        assert(val(out@) == 0 && val_upto(a@, 0) == 0);
        while i < a.len()
            invariant
                i <= a@.len(),
                out@.len() == i,
                val(out@) + carry * bpow(i as nat) == val_upto(a@, i as nat) * m,
            decreases a@.len() - i,
        {
            let ai = a[i];
            assert((ai as int) * (m as int) + carry as int <= u128::MAX) by (nonlinear_arith)
                requires
                    0 <= ai <= u64::MAX,
                    0 <= m <= u64::MAX,
                    0 <= carry <= u64::MAX,
            ;
            let t: u128 = (a[i] as u128) * (m as u128) + carry as u128;
            let lo = (t % 0x1_0000_0000_0000_0000) as u64;
            let hi = (t / 0x1_0000_0000_0000_0000) as u64;
            proof {
                let p = bpow(i as nat);
                let ghost o = out@;
                lemma_val_push(o, lo);
                assert(limb(a@, i as int) == a@[i as int]);
                assert(bpow((i + 1) as nat) == p * base());
                assert(val_upto(a@, (i + 1) as nat) == val_upto(a@, i as nat) + limb(a@, i as int) * p);
                assert(val(o.push(lo)) == val(o) + lo * p);
                let ai = a@[i as int];
                assert(val(o.push(lo)) + hi * bpow((i + 1) as nat) == val_upto(a@, (i + 1) as nat) * m)
                    by (nonlinear_arith)
                    requires
                        val(o) + carry * p == val_upto(a@, i as nat) * m,
                        t == ai * m + carry,
                        t == hi * base() + lo,
                        val(o.push(lo)) == val(o) + lo * p,
                        bpow((i + 1) as nat) == p * base(),
                        val_upto(a@, (i + 1) as nat) == val_upto(a@, i as nat) + ai * p,
                ;
            }
            out.push(lo);
            carry = hi;
            i = i + 1;
        }
        let ghost o = out@;
        out.push(carry);
        proof {
            lemma_val_push(o, carry);
        }
        Big { limbs: out }
    }

    /// `self + other`.
    pub fn add(&self, other: &Big) -> (r: Big)
        ensures
            r@ == self@ + other@,
    {
        let a = &self.limbs;
        let b = &other.limbs;
        let n = if a.len() > b.len() {
            a.len()
        } else {
            b.len()
        };
        let mut out: Vec<u64> = Vec::new();
        let mut carry: u64 = 0;
        let mut i: usize = 0;
        assert(val(out@) == 0 && val_upto(a@, 0) == 0 && val_upto(b@, 0) == 0);
        while i < n
            invariant
                i <= n,
                n >= a@.len(),
                n >= b@.len(),
                out@.len() == i,
                carry <= 1,
                val(out@) + carry * bpow(i as nat) == val_upto(a@, i as nat) + val_upto(
                    b@,
                    i as nat,
                ),
            decreases n - i,
        {
            let x: u64 = if i < a.len() {
                a[i]
            } else {
                0
            };
            let y: u64 = if i < b.len() {
                b[i]
            } else {
                0
            };
            let t: u128 = x as u128 + y as u128 + carry as u128;
            let lo = (t % 0x1_0000_0000_0000_0000) as u64;
            let hi = (t / 0x1_0000_0000_0000_0000) as u64;
            proof {
                let p = bpow(i as nat);
                let ghost o = out@;
                lemma_val_push(o, lo);
                assert(limb(a@, i as int) == x && limb(b@, i as int) == y);
                assert(bpow((i + 1) as nat) == p * base());
                assert(val_upto(a@, (i + 1) as nat) == val_upto(a@, i as nat) + limb(a@, i as int) * p);
                assert(val_upto(b@, (i + 1) as nat) == val_upto(b@, i as nat) + limb(b@, i as int) * p);
                assert(val(o.push(lo)) == val(o) + lo * p);
                assert(val(o.push(lo)) + hi * bpow((i + 1) as nat) == val_upto(a@, (i + 1) as nat)
                    + val_upto(b@, (i + 1) as nat)) by (nonlinear_arith)
                    requires
                        val(o) + carry * p == val_upto(a@, i as nat) + val_upto(b@, i as nat),
                        t == x + y + carry,
                        t == hi * base() + lo,
                        val(o.push(lo)) == val(o) + lo * p,
                        bpow((i + 1) as nat) == p * base(),
                        val_upto(a@, (i + 1) as nat) == val_upto(a@, i as nat) + x * p,
                        val_upto(b@, (i + 1) as nat) == val_upto(b@, i as nat) + y * p,
                ;
            }
            out.push(lo);
            carry = hi;
            i = i + 1;
        }
        let ghost o = out@;
        out.push(carry);
        proof {
            lemma_val_push(o, carry);
            lemma_val_extend(a@, n as nat);
            lemma_val_extend(b@, n as nat);
        }
        Big { limbs: out }
    }

    /// Whether `self < other`.
    pub fn lt(&self, other: &Big) -> (r: bool)
        ensures
            r == (self@ < other@),
    {
        let a = &self.limbs;
        let b = &other.limbs;
        let n = if a.len() > b.len() {
            a.len()
        } else {
            b.len()
        };
        proof {
            lemma_val_extend(a@, n as nat);
            lemma_val_extend(b@, n as nat);
        }
        let mut i: usize = n;
        while i > 0
            invariant
                i <= n,
                n >= a@.len(),
                n >= b@.len(),
                val_upto(a@, n as nat) == val(a@),
                val_upto(b@, n as nat) == val(b@),
                a@ == self.limbs@,
                b@ == other.limbs@,
                forall|j: int| i <= j < n ==> limb(a@, j) == limb(b@, j),
            decreases i,
        {
            let x: u64 = if i - 1 < a.len() {
                a[i - 1]
            } else {
                0
            };
            let y: u64 = if i - 1 < b.len() {
                b[i - 1]
            } else {
                0
            };
            assert(limb(a@, i - 1) == x && limb(b@, i - 1) == y);
            if x != y {
                proof {
                    if x < y {
                        lemma_cmp(a@, b@, n as nat, (i - 1) as nat);
                        assert(val(a@) < val(b@));
                        assert(self@ == val(a@) && other@ == val(b@));
                    } else {
                        assert forall|j: int| i - 1 < j < n implies limb(b@, j) == limb(a@, j) by {}
                        lemma_cmp(b@, a@, n as nat, (i - 1) as nat);
                        assert(val(b@) < val(a@));
                        assert(self@ == val(a@) && other@ == val(b@));
                        assert(!(self@ < other@));
                    }
                }
                return x < y;
            }
            i = i - 1;
        }
        proof {
            lemma_val_upto_same(a@, b@, n as nat);
        }
        false
    }

    /// Whether `self == other`.
    pub fn eq(&self, other: &Big) -> (r: bool)
        ensures
            r == (self@ == other@),
    {
        !self.lt(other) && !other.lt(self)
    }
}

} // verus!
