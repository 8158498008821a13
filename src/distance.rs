use vstd::prelude::*;
use vstd::arithmetic::power::pow;
use vstd::arithmetic::power2::{pow2, lemma2_to64_rest, lemma_pow2, lemma_pow2_adds, lemma_pow2_unfold};

verus! {

/// A 256-bit identifier of a node or of a piece of content, as two big-endian halves.
#[derive(Clone, Copy, Debug, PartialEq, Eq, Structural)]
pub struct NodeId {
    pub hi: u128,
    pub lo: u128,
}

/// The XOR distance between two identifiers, as two big-endian halves.
#[derive(Clone, Copy, Debug, PartialEq, Eq, Structural)]
pub struct Distance {
    pub hi: u128,
    pub lo: u128,
}

pub open spec fn xor_distance(a: NodeId, b: NodeId) -> Distance {
    Distance { hi: a.hi ^ b.hi, lo: a.lo ^ b.lo }
}

/// The total order on distances: the high half first, then the low half.
pub open spec fn dist_le(a: Distance, b: Distance) -> bool {
    a.hi < b.hi || (a.hi == b.hi && a.lo <= b.lo)
}

pub open spec fn dist_lt(a: Distance, b: Distance) -> bool {
    a.hi < b.hi || (a.hi == b.hi && a.lo < b.lo)
}

pub open spec fn is_zero(d: Distance) -> bool {
    d.hi == 0 && d.lo == 0
}

/// Floor of the base-2 logarithm (0 for 0 and 1).
pub open spec fn log2(x: nat) -> nat
    decreases x,
{
    if x <= 1 {
        0
    } else {
        1 + log2(x / 2)
    }
}

/// The bucket that a nonzero distance falls in: the index i with 2^i <= d < 2^(i+1).
pub open spec fn bucket_of(d: Distance) -> nat {
    if d.hi != 0 {
        128 + log2(d.hi as nat)
    } else {
        log2(d.lo as nat)
    }
}

/// The distance between two identifiers.
pub fn distance(a: &NodeId, b: &NodeId) -> (r: Distance)
    ensures
        r == xor_distance(*a, *b),
{
    Distance { hi: a.hi ^ b.hi, lo: a.lo ^ b.lo }
}

impl Distance {
    pub fn le(&self, other: &Distance) -> (r: bool)
        ensures
            r == dist_le(*self, *other),
    {
        self.hi < other.hi || (self.hi == other.hi && self.lo <= other.lo)
    }

    pub fn lt(&self, other: &Distance) -> (r: bool)
        ensures
            r == dist_lt(*self, *other),
    {
        self.hi < other.hi || (self.hi == other.hi && self.lo < other.lo)
    }

    pub fn is_zero(&self) -> (r: bool)
        ensures
            r == is_zero(*self),
    {
        self.hi == 0 && self.lo == 0
    }
}

fn log2_u128(x: u128) -> (r: u32)
    ensures
        r as nat == log2(x as nat),
        r <= 127,
{
    proof {
        lemma_log2_u128_bound(x as nat);
    }
    let mut y: u128 = x;
    let mut n: u32 = 0;
    while y > 1
        invariant
            n as nat + log2(y as nat) == log2(x as nat),
            log2(x as nat) < 128,
        decreases y,
    {
        y = y / 2;
        n = n + 1;
    }
    n
}

proof fn lemma_log2_below(x: nat, k: nat)
    requires
        k >= 1,
        x < pow2(k),
    ensures
        log2(x) < k,
    decreases k,
{
    if x > 1 {
        lemma_pow2_unfold(k);
        if k == 1 {
            assert(pow2(0) == 1) by { lemma_pow2(0); reveal(pow); }
        } else {
            lemma_log2_below(x / 2, (k - 1) as nat);
        }
    }
}

proof fn lemma_log2_u128_bound(x: nat)
    requires
        x <= u128::MAX,
    ensures
        log2(x) < 128,
{
    lemma2_to64_rest();
    lemma_pow2_adds(64, 64);
    lemma_log2_below(x, 128);
}

/// The routing bucket of a nonzero distance.
pub fn bucket_index(d: &Distance) -> (r: u32)
    requires
        !is_zero(*d),
    ensures
        r as nat == bucket_of(*d),
        r < 256,
{
    if d.hi != 0 {
        128 + log2_u128(d.hi)
    } else {
        log2_u128(d.lo)
    }
}

/// Symmetry: the distance from a to b is the distance from b to a.
pub proof fn lemma_distance_symmetric(a: NodeId, b: NodeId)
    ensures
        xor_distance(a, b) == xor_distance(b, a),
{
    let (ah, al, bh, bl) = (a.hi, a.lo, b.hi, b.lo);
    assert(ah ^ bh == bh ^ ah) by (bit_vector);
    assert(al ^ bl == bl ^ al) by (bit_vector);
}

/// An identifier is at distance zero from itself, and only from itself.
pub proof fn lemma_distance_zero_iff_equal(a: NodeId, b: NodeId)
    ensures
        is_zero(xor_distance(a, a)),
        is_zero(xor_distance(a, b)) ==> a == b,
{
    let (ah, al, bh, bl) = (a.hi, a.lo, b.hi, b.lo);
    assert(ah ^ ah == 0) by (bit_vector);
    assert(al ^ al == 0) by (bit_vector);
    assert(ah ^ bh == 0 ==> ah == bh) by (bit_vector);
    assert(al ^ bl == 0 ==> al == bl) by (bit_vector);
}

/// Distances to one target tell identifiers apart: equal distances mean equal identifiers.
pub proof fn lemma_distance_injective(t: NodeId, a: NodeId, b: NodeId)
    ensures
        xor_distance(t, a) == xor_distance(t, b) ==> a == b,
{
    let (th, tl, ah, al, bh, bl) = (t.hi, t.lo, a.hi, a.lo, b.hi, b.lo);
    assert(th ^ ah == th ^ bh ==> ah == bh) by (bit_vector);
    assert(tl ^ al == tl ^ bl ==> al == bl) by (bit_vector);
}

} // verus!
