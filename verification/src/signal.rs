//! Multi-bit signal values.
//!
//! A `Signal` is an ordered sequence of bits.  Bit `0` is the least
//! significant bit when the sequence is read as an unsigned integer, and that
//! little-endian reading is used consistently across the whole engine (for
//! example by the multiplexer selector).

use vstd::prelude::*;

verus! {

use vstd::arithmetic::power2::pow2;
use vstd::arithmetic::power2::lemma_pow2_unfold;
use vstd::arithmetic::power2::lemma_pow2_strictly_increases;
use vstd::arithmetic::power2::lemma2_to64;
use vstd::arithmetic::power2::lemma_pow2_pos;
use vstd::arithmetic::div_mod::lemma_breakdown;

/// Pointwise negation of a bit sequence.
pub open spec fn not_bits(s: Seq<bool>) -> Seq<bool> {
    Seq::new(s.len(), |i: int| !s[i])
}

/// Pointwise conjunction; the result has the first operand's length.
pub open spec fn and_bits(a: Seq<bool>, b: Seq<bool>) -> Seq<bool> {
    Seq::new(a.len(), |i: int| a[i] && b[i])
}

/// Pointwise disjunction; the result has the first operand's length.
pub open spec fn or_bits(a: Seq<bool>, b: Seq<bool>) -> Seq<bool> {
    Seq::new(a.len(), |i: int| a[i] || b[i])
}

/// True iff at least one bit of the sequence is set.
pub open spec fn any_bit(s: Seq<bool>) -> bool {
    exists|i: int| 0 <= i < s.len() && s[i]
}

/// The unsigned integer the sequence denotes, bit 0 least significant.
pub open spec fn load_bits(s: Seq<bool>) -> nat
    decreases s.len(),
{
    if s.len() == 0 {
        0
    } else {
        (if s[0] {
            1nat
        } else {
            0nat
        }) + 2 * load_bits(s.drop_first())
    }
}

/// The `w` low bits of the unsigned integer `v`, bit 0 least significant.
pub open spec fn bits_of_uint(v: nat, w: nat) -> Seq<bool>
    decreases w,
{
    if w == 0 {
        Seq::empty()
    } else {
        seq![v % 2 == 1] + bits_of_uint(v / 2, (w - 1) as nat)
    }
}

/// A multi-bit value carried on a pin or wire.
pub struct Signal {
    bits: Vec<bool>,
}

impl View for Signal {
    type V = Seq<bool>;

    closed spec fn view(&self) -> Seq<bool> {
        self.bits@
    }
}

/// An all-zero signal of width `n`.
pub fn signal_zeros(n: u8) -> (r: Signal)
    ensures
        r@.len() == n as nat,
        forall|i: int| 0 <= i < n as int ==> !r@[i],
{
    let mut bits: Vec<bool> = Vec::new();
    let mut k: usize = 0;
    while k < n as usize
        invariant
            k <= n as usize,
            bits@.len() == k as nat,
            forall|i: int| 0 <= i < k as int ==> !bits@[i],
        decreases n as usize - k,
    {
        bits.push(false);
        k += 1;
    }
    Signal { bits }
}

impl Signal {
    /// A signal made of the given bits, in order, bit 0 first.
    pub fn from_bits(bits: Vec<bool>) -> (r: Signal)
        ensures
            r@ == bits@,
    {
        Signal { bits }
    }

    /// A signal of no bits at all.
    pub fn empty() -> (r: Signal)
        ensures
            r@ == Seq::<bool>::empty(),
    {
        Signal { bits: Vec::new() }
    }

    /// How many bits the signal holds.
    pub fn width(&self) -> (r: usize)
        ensures
            r == self@.len(),
    {
        self.bits.len()
    }

    /// The bit at position `i`.
    pub fn get_bit(&self, i: usize) -> (r: bool)
        requires
            i < self@.len(),
        ensures
            r == self@[i as int],
    {
        self.bits[i]
    }

    /// Appends one bit at the most significant end.
    pub fn push_bit(&mut self, b: bool)
        ensures
            final(self)@ == old(self)@.push(b),
    {
        self.bits.push(b);
    }

    /// An exact copy of the signal.
    pub fn duplicate(&self) -> (r: Signal)
        ensures
            r@ == self@,
    {
        let mut bits: Vec<bool> = Vec::new();
        let mut k: usize = 0;
        while k < self.bits.len()
            invariant
                k <= self.bits.len(),
                bits@ == self.bits@.take(k as int),
            decreases self.bits.len() - k,
        {
            bits.push(self.bits[k]);
            k += 1;
            assert(bits@ =~= self.bits@.take(k as int));
        }
        assert(bits@ =~= self.bits@);
        Signal { bits }
    }

    /// Pointwise NOT; the width is kept.
    pub fn not(&self) -> (r: Signal)
        ensures
            r@ == not_bits(self@),
    {
        let mut bits: Vec<bool> = Vec::new();
        let mut k: usize = 0;
        while k < self.bits.len()
            invariant
                k <= self.bits.len(),
                bits@.len() == k as nat,
                forall|i: int| 0 <= i < k as int ==> bits@[i] == !self.bits@[i],
            decreases self.bits.len() - k,
        {
            bits.push(!self.bits[k]);
            k += 1;
        }
        assert(bits@ =~= not_bits(self@));
        Signal { bits }
    }

    /// Pointwise AND with another signal of the same width.
    pub fn and(&self, other: &Signal) -> (r: Signal)
        requires
            self@.len() == other@.len(),
        ensures
            r@ == and_bits(self@, other@),
    {
        let mut bits: Vec<bool> = Vec::new();
        let mut k: usize = 0;
        while k < self.bits.len()
            invariant
                k <= self.bits.len(),
                self@.len() == other@.len(),
                bits@.len() == k as nat,
                forall|i: int| 0 <= i < k as int ==> bits@[i] == (self.bits@[i] && other@[i]),
        decreases self.bits.len() - k,
        {
            bits.push(self.bits[k] && other.bits[k]);
            k += 1;
        }
        assert(bits@ =~= and_bits(self@, other@));
        Signal { bits }
    }

    /// Pointwise OR with another signal of the same width.
    pub fn or(&self, other: &Signal) -> (r: Signal)
        requires
            self@.len() == other@.len(),
        ensures
            r@ == or_bits(self@, other@),
    {
        let mut bits: Vec<bool> = Vec::new();
        let mut k: usize = 0;
        while k < self.bits.len()
            invariant
                k <= self.bits.len(),
                self@.len() == other@.len(),
                bits@.len() == k as nat,
                forall|i: int| 0 <= i < k as int ==> bits@[i] == (self.bits@[i] || other@[i]),
        decreases self.bits.len() - k,
        {
            bits.push(self.bits[k] || other.bits[k]);
            k += 1;
        }
        assert(bits@ =~= or_bits(self@, other@));
        Signal { bits }
    }

    /// True iff any bit is set.
    pub fn any(&self) -> (r: bool)
        ensures
            r == any_bit(self@),
    {
        let mut k: usize = 0;
        while k < self.bits.len()
            invariant
                k <= self.bits.len(),
                forall|i: int| 0 <= i < k as int ==> !self.bits@[i],
            decreases self.bits.len() - k,
        {
            if self.bits[k] {
                return true;
            }
            k += 1;
        }
        false
    }

    /// Whether two signals hold exactly the same bits.
    pub fn same_bits(&self, other: &Signal) -> (r: bool)
        ensures
            r <==> self@ == other@,
    {
        if self.bits.len() != other.bits.len() {
            return false;
        }
        let mut k: usize = 0;
        while k < self.bits.len()
            invariant
                k <= self.bits.len(),
                self@.len() == other@.len(),
                forall|i: int| 0 <= i < k as int ==> self.bits@[i] == other@[i],
            decreases self.bits.len() - k,
        {
            if self.bits[k] != other.bits[k] {
                return false;
            }
            k += 1;
        }
        assert(self@ =~= other@);
        true
    }

    /// Reads the signal as an unsigned integer, bit 0 least significant.
    pub fn load_u64(&self) -> (r: u64)
        requires
            self@.len() <= 64,
        ensures
            r as nat == load_bits(self@),
    {
        proof {
            lemma_load_bits_bound(self@);
            if self@.len() < 64 {
                lemma_pow2_strictly_increases(self@.len(), 64);
            }
            lemma2_to64();
        }
        let mut acc: u64 = 0;
        let mut k: usize = self.bits.len();
        while k > 0
            invariant
                k <= self.bits.len(),
                self@.len() <= 64,
                acc as nat == load_bits(self@.skip(k as int)),
                (acc as nat) < pow2((self@.len() - k) as nat),
                pow2(self@.len()) <= pow2(64),
                pow2(64) == 0x10000000000000000,
            decreases k,
        {
            proof {
                let s = self@.skip(k as int - 1);
                assert(s.drop_first() =~= self@.skip(k as int));
                lemma_pow2_unfold((self@.len() - k + 1) as nat);
                if ((self@.len() - k + 1) as nat) < self@.len() {
                    lemma_pow2_strictly_increases((self@.len() - k + 1) as nat, self@.len());
                }
            }
            k -= 1;
            let b: u64 = if self.bits[k] {
                1
            } else {
                0
            };
            acc = 2 * acc + b;
        }
        assert(self@.skip(0) =~= self@);
        acc
    }

    /// Builds the signal holding the `width` low bits of `v`.
    pub fn from_u64(v: u64, width: u8) -> (r: Signal)
        ensures
            r@ == bits_of_uint(v as nat, width as nat),
    {
        let mut bits: Vec<bool> = Vec::new();
        let mut x: u64 = v;
        let mut k: usize = 0;
        while k < width as usize
            invariant
                k <= width as usize,
                bits@ + bits_of_uint(x as nat, (width as usize - k) as nat) == bits_of_uint(
                    v as nat,
                    width as nat,
                ),
                bits@.len() == k as nat,
            decreases width as usize - k,
        {
            let ghost prev = bits@;
            let ghost rest = (width as usize - k) as nat;
            bits.push(x % 2 == 1);
            proof {
                assert(bits_of_uint(x as nat, rest) == seq![x as nat % 2 == 1] + bits_of_uint(
                    x as nat / 2,
                    (rest - 1) as nat,
                ));
                assert(x as nat % 2 == 1 <==> x % 2 == 1) by {
                    assert(x as nat % 2 == (x % 2) as nat);
                }
                assert(bits@ + bits_of_uint(x as nat / 2, (rest - 1) as nat) =~= prev + (seq![x % 2
                    == 1] + bits_of_uint(x as nat / 2, (rest - 1) as nat)));
                assert((x / 2) as nat == x as nat / 2);
            }
            x = x / 2;
            k += 1;
        }
        assert(bits@ + bits_of_uint(x as nat, 0) =~= bits@);
        Signal { bits }
    }
}

/// The integer a bit sequence denotes is below two to its length.
pub proof fn lemma_load_bits_bound(s: Seq<bool>)
    ensures
        load_bits(s) < pow2(s.len()),
    decreases s.len(),
{
    if s.len() == 0 {
        assert(pow2(0) == 1) by {
            lemma2_to64();
        }
    } else {
        lemma_load_bits_bound(s.drop_first());
        lemma_pow2_unfold(s.len());
    }
}

/// Reading back the low bits of an integer gives the integer modulo the
/// matching power of two.
pub proof fn lemma_load_bits_of_uint(v: nat, w: nat)
    ensures
        load_bits(bits_of_uint(v, w)) == v % pow2(w),
    decreases w,
{
    if w == 0 {
        assert(pow2(0) == 1) by {
            lemma2_to64();
        }
    } else {
        lemma_load_bits_of_uint(v / 2, (w - 1) as nat);
        let s = bits_of_uint(v, w);
        assert(s.drop_first() =~= bits_of_uint(v / 2, (w - 1) as nat));
        lemma_pow2_unfold(w);
        let p = pow2((w - 1) as nat);
        lemma_pow2_pos((w - 1) as nat);
        lemma_breakdown(v as int, 2, p as int);
    }
}

} // verus!
