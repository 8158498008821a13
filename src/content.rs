use vstd::prelude::*;
use sha2::Digest;
use crate::distance::NodeId;

verus! {

/// The SHA-256 digest of a byte string.
pub uninterp spec fn sha256_of(b: Seq<u8>) -> Seq<u8>;

/// Relies on sha2::Sha256::digest: the 32-byte SHA-256 digest of the input.
#[verifier::external_body]
fn sha256(b: &Vec<u8>) -> (r: Vec<u8>)
    ensures
        r@ == sha256_of(b@),
        r@.len() == 32,
{
    sha2::Sha256::digest(b.as_slice()).to_vec()
}

/// The unsigned big-endian value of a byte string.
pub open spec fn be_value(s: Seq<u8>) -> nat
    decreases s.len(),
{
    if s.len() == 0 {
        0
    } else {
        be_value(s.drop_last()) * 256 + s.last() as nat
    }
}

pub open spec fn pow256(n: nat) -> nat
    decreases n,
{
    if n == 0 {
        1
    } else {
        256 * pow256((n - 1) as nat)
    }
}

/// The identifier read from a 32-byte digest: its first sixteen bytes are the high half.
pub open spec fn id_of_digest(h: Seq<u8>) -> NodeId {
    NodeId { hi: be_value(h.subrange(0, 16)) as u128, lo: be_value(h.subrange(16, 32)) as u128 }
}

/// The content id of an encoded content key: the identifier read from its SHA-256 digest.
pub open spec fn content_id_of(key: Seq<u8>) -> NodeId {
    id_of_digest(sha256_of(key))
}

proof fn lemma_pow256_16()
    ensures
        pow256(16) == 0x1_0000_0000_0000_0000_0000_0000_0000_0000,
{
    reveal_with_fuel(pow256, 17);
}

/// Reads sixteen bytes from `start` as a big-endian number.
fn read_be_u128(b: &Vec<u8>, start: usize) -> (r: u128)
    requires
        start <= 16,
        b@.len() == 32,
    ensures
        r as nat == be_value(b@.subrange(start as int, start + 16)),
{
    let mut acc: u128 = 0;
    let mut i: usize = start;
    let end: usize = start + 16;
    proof {
        lemma_pow256_16();
        assert(b@.subrange(start as int, start as int) =~= Seq::<u8>::empty());
        assert(pow256(0) == 1);
    }
    while i < end
        invariant
            start <= i <= end,
            end == start + 16,
            start + 16 <= b@.len(),
            acc as nat == be_value(b@.subrange(start as int, i as int)),
            (acc as nat) < pow256((i - start) as nat),
            pow256(16) == 0x1_0000_0000_0000_0000_0000_0000_0000_0000,
        decreases end - i,
    {
        let ghost j: nat = (i - start) as nat;
        proof {
            assert(pow256(j + 1) == 256 * pow256(j));
            lemma_pow256_mono(j + 1, 16);
            assert((acc as nat) * 256 + (b@[i as int] as nat) < 256 * pow256(j)) by (nonlinear_arith)
                requires
                    (acc as nat) < pow256(j),
                    (b@[i as int] as nat) < 256,
            ;
        }
        acc = acc * 256 + b[i] as u128;
        proof {
            assert(b@.subrange(start as int, i + 1).drop_last() =~= b@.subrange(start as int, i as int));
        }
        i = i + 1;
    }
    acc
}

proof fn lemma_pow256_mono(a: nat, b: nat)
    requires
        a <= b,
    ensures
        pow256(a) <= pow256(b),
    decreases b,
{
    if b > a {
        lemma_pow256_mono(a, (b - 1) as nat);
    }
}

/// The identifier read from a 32-byte digest, high half first.
pub fn id_from_digest(h: &Vec<u8>) -> (r: NodeId)
    requires
        h@.len() == 32,
    ensures
        r == id_of_digest(h@),
{
    let hi = read_be_u128(h, 0);
    let lo = read_be_u128(h, 16);
    NodeId { hi, lo }
}

/// The content id of an encoded content key.
pub fn content_id(key: &Vec<u8>) -> (r: NodeId)
    ensures
        r == content_id_of(key@),
{
    let h = sha256(key);
    id_from_digest(&h)
}

/// The content id depends on the key alone: equal keys give equal ids.
pub proof fn lemma_content_id_deterministic(k1: Seq<u8>, k2: Seq<u8>)
    requires
        k1 == k2,
    ensures
        content_id_of(k1) == content_id_of(k2),
{
}

} // verus!
