//! Field elements in canonical form, and their bit decomposition.

use core::cmp::Ordering;
use vstd::arithmetic::div_mod::*;
use vstd::arithmetic::power2::*;
use vstd::bits::*;
use vstd::prelude::*;
use vstd::std_specs::cmp::PartialOrdSpecImpl;

verus! {

/// The order of the field: the Pallas base field modulus.
pub open spec fn modulus() -> nat {
    0x4000_0000_0000_0000_0000_0000_0000_0000_2246_98fc_094c_f91b_992d_30ed_0000_0001nat
}

/// The number that four limbs stand for, the least significant first.
pub open spec fn limbs_value(limbs: Seq<u64>) -> nat
    recommends
        limbs.len() == 4,
{
    (limbs[0] as nat) + (limbs[1] as nat) * 0x1_0000_0000_0000_0000nat + (limbs[2] as nat)
        * 0x1_0000_0000_0000_0000_0000_0000_0000_0000nat + (limbs[3] as nat)
        * 0x1_0000_0000_0000_0000_0000_0000_0000_0000_0000_0000_0000_0000nat
}

/// The limbs of the modulus, the least significant first.
const MODULUS_0: u64 = 0x992d_30ed_0000_0001;

const MODULUS_1: u64 = 0x2246_98fc_094c_f91b;

const MODULUS_3: u64 = 0x4000_0000_0000_0000;

/// The representative of the null value.
pub open spec fn null_value() -> nat {
    0
}

/// Bit `i` of the binary expansion of `v`, bit 0 being the least significant.
pub open spec fn bit_at(v: nat, i: nat) -> bool {
    (v / pow2(i)) % 2 == 1
}

/// The `count` lowest bits of `v`, most significant first.
pub open spec fn low_bits(v: nat, count: nat) -> Seq<bool> {
    Seq::new(count, |j: int| bit_at(v, (count - 1 - j) as nat))
}

/// The representatives of a sequence of elements.
pub open spec fn values(elements: Seq<Element>) -> Seq<nat> {
    elements.map_values(|e: Element| e@)
}

/// An element of the field, held as the four 64-bit limbs of its canonical
/// representative. The fields are ordered from the most significant limb down,
/// so that the derived order is the order of the representatives.
#[derive(Debug, Clone, Copy, PartialEq, Eq, Structural, Ord, Hash)]
pub struct Element {
    pub(crate) l3: u64,
    pub(crate) l2: u64,
    pub(crate) l1: u64,
    pub(crate) l0: u64,
}

impl View for Element {
    type V = nat;

    /// The canonical representative, as a number.
    closed spec fn view(&self) -> nat {
        (self.l0 as nat) + (self.l1 as nat) * 0x1_0000_0000_0000_0000nat + (self.l2 as nat)
            * 0x1_0000_0000_0000_0000_0000_0000_0000_0000nat + (self.l3 as nat)
            * 0x1_0000_0000_0000_0000_0000_0000_0000_0000_0000_0000_0000_0000nat
    }
}

impl PartialOrd for Element {
    /// Orders two elements as their representatives are ordered.
    fn partial_cmp(&self, other: &Self) -> (order: Option<Ordering>) {
        proof {
            lemma_limbs_order(*self, *other);
            lemma_limbs_order(*other, *self);
        }
        if self.l3 != other.l3 {
            if self.l3 < other.l3 {
                Some(Ordering::Less)
            } else {
                Some(Ordering::Greater)
            }
        } else if self.l2 != other.l2 {
            if self.l2 < other.l2 {
                Some(Ordering::Less)
            } else {
                Some(Ordering::Greater)
            }
        } else if self.l1 != other.l1 {
            if self.l1 < other.l1 {
                Some(Ordering::Less)
            } else {
                Some(Ordering::Greater)
            }
        } else if self.l0 != other.l0 {
            if self.l0 < other.l0 {
                Some(Ordering::Less)
            } else {
                Some(Ordering::Greater)
            }
        } else {
            Some(Ordering::Equal)
        }
    }
}

impl PartialOrdSpecImpl for Element {
    open spec fn obeys_partial_cmp_spec() -> bool {
        true
    }

    /// The order of the elements is the order of their representatives.
    open spec fn partial_cmp_spec(&self, other: &Self) -> Option<Ordering> {
        if self@ < other@ {
            Some(Ordering::Less)
        } else if self@ == other@ {
            Some(Ordering::Equal)
        } else {
            Some(Ordering::Greater)
        }
    }
}

impl Element {
    /// The limbs of `self`, read from the most significant down, come before
    /// those of `other`.
    spec fn limbs_before(self, other: Element) -> bool {
        ||| self.l3 < other.l3
        ||| self.l3 == other.l3 && self.l2 < other.l2
        ||| self.l3 == other.l3 && self.l2 == other.l2 && self.l1 < other.l1
        ||| self.l3 == other.l3 && self.l2 == other.l2 && self.l1 == other.l1 && self.l0 < other.l0
    }

    /// Every element is held by its representative below the modulus.
    #[verifier::type_invariant]
    pub open spec fn is_canonical(&self) -> bool {
        self@ < modulus()
    }

    /// The null value, which stands for an empty slot. It is an arbitrary
    /// fixed constant: nothing depends on which one.
    pub fn null() -> (e: Element)
        ensures
            e@ == null_value(),
    {
        Element { l3: 0, l2: 0, l1: 0, l0: 0 }
    }

    /// The element whose representative is `elem`.
    pub fn from_u64(elem: u64) -> (e: Element)
        ensures
            e@ == elem,
    {
        Element { l3: 0, l2: 0, l1: 0, l0: elem }
    }

    /// The element whose representative has the given limbs, the least
    /// significant first, if that number is below the modulus.
    pub fn from_limbs(limbs: [u64; 4]) -> (e: Option<Element>)
        ensures
            match e {
                Some(e) => e@ == limbs_value(limbs@) && limbs_value(limbs@) < modulus(),
                None => limbs_value(limbs@) >= modulus(),
            },
    {
        let below = limbs[3] < MODULUS_3 || (limbs[3] == MODULUS_3 && limbs[2] == 0 && (limbs[1]
            < MODULUS_1 || (limbs[1] == MODULUS_1 && limbs[0] < MODULUS_0)));
        if below {
            Some(Element { l3: limbs[3], l2: limbs[2], l1: limbs[1], l0: limbs[0] })
        } else {
            None
        }
    }

    /// The limbs of the representative, the least significant first.
    pub fn to_limbs(&self) -> (limbs: [u64; 4])
        ensures
            limbs_value(limbs@) == self@,
    {
        [self.l0, self.l1, self.l2, self.l3]
    }

    /// Bit `i` of the representative, bit 0 being the least significant.
    fn bit(&self, i: usize) -> (b: bool)
        requires
            i < 256,
        ensures
            b == bit_at(self@, i as nat),
    {
        let limb: u64 = if i < 64 {
            self.l0
        } else if i < 128 {
            self.l1
        } else if i < 192 {
            self.l2
        } else {
            self.l3
        };
        let shift: u64 = (i % 64) as u64;
        proof {
            let w: nat = 0x1_0000_0000_0000_0000nat;
            let (a0, a1, a2, a3) = (self.l0 as nat, self.l1 as nat, self.l2 as nat, self.l3 as nat);
            lemma2_to64();
            assert(pow2(64) == w);
            let r2: nat = a2 + w * a3;
            let r1: nat = a1 + w * r2;
            assert(self@ == a0 + pow2(64) * r1);
            if i < 64 {
                lemma_bit_at_low(a0, r1, 64, i as nat);
            } else {
                lemma_bit_at_high(a0, r1, 64, i as nat);
                if i < 128 {
                    lemma_bit_at_low(a1, r2, 64, (i - 64) as nat);
                } else {
                    lemma_bit_at_high(a1, r2, 64, (i - 64) as nat);
                    if i < 192 {
                        lemma_bit_at_low(a2, a3, 64, (i - 128) as nat);
                    } else {
                        lemma_bit_at_high(a2, a3, 64, (i - 128) as nat);
                    }
                }
            }
            assert(bit_at(self@, i as nat) == bit_at(limb as nat, shift as nat));
            lemma_u64_shr_is_div(limb, shift);
            let shifted: u64 = limb >> shift;
            assert((shifted & 1 == 1) == (shifted % 2 == 1)) by (bit_vector);
        }
        (limb >> shift) & 1 == 1
    }

    /// The `count` lowest bits of the representative, most significant first.
    pub fn least_significant_bits(&self, count: usize) -> (bits: Vec<bool>)
        requires
            count <= 256,
        ensures
            bits@ == low_bits(self@, count as nat),
    {
        let mut bits: Vec<bool> = Vec::with_capacity(count);
        let mut j: usize = 0;
        while j < count
            invariant
                j <= count <= 256,
                bits@.len() == j,
                forall|k: int| 0 <= k < j ==> bits@[k] == bit_at(self@, (count - 1 - k) as nat),
            decreases count - j,
        {
            bits.push(self.bit(count - 1 - j));
            j += 1;
        }
        assert(bits@ =~= low_bits(self@, count as nat));
        bits
    }
}

/// A bit below position `k` is not changed by adding a multiple of `2^k`.
proof fn lemma_bit_at_low(a: nat, b: nat, k: nat, i: nat)
    requires
        i < k,
    ensures
        bit_at(a + pow2(k) * b, i) == bit_at(a, i),
{
    let d = pow2(i) as int;
    let m = (pow2((k - i - 1) as nat) * b) as int;
    lemma_pow2_pos(i);
    lemma_pow2_adds(i, (k - i) as nat);
    lemma_pow2_adds(1, (k - i - 1) as nat);
    lemma2_to64();
    assert(pow2(k) * b == d * (2 * m)) by (nonlinear_arith)
        requires
            pow2(k) == d * pow2((k - i) as nat),
            pow2((k - i) as nat) == 2 * pow2((k - i - 1) as nat),
            m == pow2((k - i - 1) as nat) * b,
    ;
    lemma_div_multiples_vanish_fancy(2 * m, 0, d);
    lemma_hoist_over_denominator(a as int, 2 * m, d as nat);
    assert((a + pow2(k) * b) as int == a + (2 * m) * d) by (nonlinear_arith)
        requires
            pow2(k) * b == d * (2 * m),
    ;
    assert((a + pow2(k) * b) / (d as nat) == a as int / d + 2 * m);
    lemma_mod_multiples_vanish(m, a as int / d, 2);
    assert(2 * m == m * 2);
}

/// A bit at position `k` or above of `a + 2^k * b`, where `a < 2^k`, is a bit of `b`.
proof fn lemma_bit_at_high(a: nat, b: nat, k: nat, i: nat)
    requires
        a < pow2(k),
        i >= k,
    ensures
        bit_at(a + pow2(k) * b, i) == bit_at(b, (i - k) as nat),
{
    let x = (a + pow2(k) * b) as int;
    let c = pow2(k) as int;
    let d = pow2((i - k) as nat) as int;
    lemma_pow2_pos(k);
    lemma_pow2_pos((i - k) as nat);
    lemma_pow2_adds(k, (i - k) as nat);
    lemma_div_denominator(x, c, d);
    assert(x == c * (b as int) + a) by (nonlinear_arith)
        requires
            x == a + c * b,
    ;
    lemma_fundamental_div_mod_converse(x, c, b as int, a as int);
    assert(x / pow2(i) as int == (b as int) / d);
}

/// Where the limbs of one element come before those of another, so does its
/// representative.
proof fn lemma_limbs_order(a: Element, b: Element)
    ensures
        a.limbs_before(b) ==> a@ < b@,
        a == b ==> a@ == b@,
{
}

/// Two elements with the same representative are the same element.
pub proof fn lemma_view_injective(a: Element, b: Element)
    requires
        a@ == b@,
    ensures
        a == b,
{
    let w = 0x1_0000_0000_0000_0000int;
    let ra2 = a.l2 as int + w * (a.l3 as int);
    let ra1 = a.l1 as int + w * ra2;
    let rb2 = b.l2 as int + w * (b.l3 as int);
    let rb1 = b.l1 as int + w * rb2;
    assert(a@ == w * ra1 + a.l0);
    assert(b@ == w * rb1 + b.l0);
    lemma_fundamental_div_mod_converse(a@ as int, w, ra1, a.l0 as int);
    lemma_fundamental_div_mod_converse(b@ as int, w, rb1, b.l0 as int);
    assert(ra1 == w * ra2 + a.l1);
    assert(rb1 == w * rb2 + b.l1);
    lemma_fundamental_div_mod_converse(ra1, w, ra2, a.l1 as int);
    lemma_fundamental_div_mod_converse(rb1, w, rb2, b.l1 as int);
    lemma_fundamental_div_mod_converse(ra2, w, a.l3 as int, a.l2 as int);
    lemma_fundamental_div_mod_converse(rb2, w, b.l3 as int, b.l2 as int);
}

} // verus!
