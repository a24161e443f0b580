use vstd::prelude::*;
use crate::error::MatchError;

verus! {

/// Largest number of bytes a descriptor may hold: its width in bits, and so
/// every distance to it, fits in a `u32`.
pub const MAX_DESCRIPTOR_BYTES: usize = 0x1FFF_FFFF;

/// Number of one bits in a byte.
pub open spec fn bit_count(b: u8) -> nat {
    ((b & 1) + ((b >> 1) & 1) + ((b >> 2) & 1) + ((b >> 3) & 1) + ((b >> 4) & 1) + ((b >> 5) & 1)
        + ((b >> 6) & 1) + ((b >> 7) & 1)) as nat
}

/// Number of bit positions in which the first `n` bytes of `x` and `y` differ.
pub open spec fn differing_bits(x: Seq<u8>, y: Seq<u8>, n: nat) -> nat
    decreases n,
{
    if n == 0 {
        0
    } else {
        differing_bits(x, y, (n - 1) as nat) + bit_count(x[n - 1] ^ y[n - 1])
    }
}

/// Hamming distance of two bit vectors: the number of positions in which they
/// differ, counted over the bytes that both have.
pub open spec fn hamming_distance(x: Seq<u8>, y: Seq<u8>) -> nat {
    differing_bits(x, y, if x.len() <= y.len() { x.len() } else { y.len() })
}

/// No byte has more than eight one bits.
pub proof fn lemma_bit_count_bound(b: u8)
    ensures
        bit_count(b) <= 8,
{
    assert((b & 1) <= 1 && ((b >> 1) & 1) <= 1 && ((b >> 2) & 1) <= 1 && ((b >> 3) & 1) <= 1
        && ((b >> 4) & 1) <= 1 && ((b >> 5) & 1) <= 1 && ((b >> 6) & 1) <= 1 && ((b >> 7) & 1)
        <= 1) by (bit_vector);
}

/// A prefix of `n` bytes holds at most `8 * n` differing bits.
pub proof fn lemma_differing_bits_bound(x: Seq<u8>, y: Seq<u8>, n: nat)
    ensures
        differing_bits(x, y, n) <= 8 * n,
    decreases n,
{
    if n > 0 {
        lemma_differing_bits_bound(x, y, (n - 1) as nat);
        lemma_bit_count_bound(x[n - 1] ^ y[n - 1]);
    }
}

/// The count of differing bits does not depend on the order of the operands.
pub proof fn lemma_differing_bits_symmetric(x: Seq<u8>, y: Seq<u8>, n: nat)
    ensures
        differing_bits(x, y, n) == differing_bits(y, x, n),
    decreases n,
{
    if n > 0 {
        lemma_differing_bits_symmetric(x, y, (n - 1) as nat);
        let a = x[n - 1];
        let b = y[n - 1];
        assert(a ^ b == b ^ a) by (bit_vector);
    }
}

/// Distance is symmetric: `hamming_distance(x, y) == hamming_distance(y, x)`
/// for every pair of bit vectors.
pub proof fn lemma_hamming_symmetric(x: Seq<u8>, y: Seq<u8>)
    ensures
        hamming_distance(x, y) == hamming_distance(y, x),
{
    let n = if x.len() <= y.len() { x.len() } else { y.len() };
    lemma_differing_bits_symmetric(x, y, n);
}

/// A distance is at most the width in bits of the narrower operand.
pub proof fn lemma_hamming_bound(x: Seq<u8>, y: Seq<u8>)
    ensures
        hamming_distance(x, y) <= 8 * x.len(),
        hamming_distance(x, y) <= 8 * y.len(),
{
    let n = if x.len() <= y.len() { x.len() } else { y.len() };
    lemma_differing_bits_bound(x, y, n);
}

/// A bit vector is at distance zero from itself.
pub proof fn lemma_hamming_self(x: Seq<u8>)
    ensures
        hamming_distance(x, x) == 0,
{
    lemma_differing_bits_self(x, x.len());
}

proof fn lemma_differing_bits_self(x: Seq<u8>, n: nat)
    ensures
        differing_bits(x, x, n) == 0,
    decreases n,
{
    if n > 0 {
        lemma_differing_bits_self(x, (n - 1) as nat);
        let a = x[n - 1];
        assert(a ^ a == 0) by (bit_vector);
        assert(bit_count(0u8) == 0) by (bit_vector);
    }
}

/// A binary feature descriptor: a bit vector packed into bytes, immutable once
/// made. Its view is the sequence of its bytes.
#[derive(Debug, PartialEq, Eq)]
pub struct Descriptor {
    pub(crate) bytes: Vec<u8>,
}

impl View for Descriptor {
    type V = Seq<u8>;

    closed spec fn view(&self) -> Seq<u8> {
        self.bytes@
    }
}

impl Clone for Descriptor {
    fn clone(&self) -> (copy: Self)
        ensures
            copy@ == self@,
    {
        proof {
            use_type_invariant(self);
        }
        Descriptor { bytes: self.bytes.clone() }
    }
}

impl Descriptor {
    #[verifier::type_invariant]
    spec fn bounded(&self) -> bool {
        self.bytes@.len() <= MAX_DESCRIPTOR_BYTES
    }

    /// Makes a descriptor of the given bytes, unless they are too many.
    pub fn new(bytes: Vec<u8>) -> (made: Result<Descriptor, MatchError>)
        ensures
            made is Ok <==> bytes@.len() <= MAX_DESCRIPTOR_BYTES,
            made matches Ok(d) ==> d@ == bytes@,
            made matches Err(e) ==> e == MatchError::InvalidArgument,
    {
        if bytes.len() <= MAX_DESCRIPTOR_BYTES {
            Ok(Descriptor { bytes })
        } else {
            Err(MatchError::InvalidArgument)
        }
    }

    /// The bytes of the descriptor.
    pub fn bytes(&self) -> (b: &[u8])
        ensures
            b@ == self@,
            self@.len() <= MAX_DESCRIPTOR_BYTES,
    {
        proof {
            use_type_invariant(self);
        }
        self.bytes.as_slice()
    }

    /// Number of bytes in the descriptor; its width is eight bits for each.
    pub fn byte_len(&self) -> (n: usize)
        ensures
            n == self@.len(),
            n <= MAX_DESCRIPTOR_BYTES,
    {
        proof {
            use_type_invariant(self);
        }
        self.bytes.len()
    }
}

/// The bit vectors of a descriptor set, in order.
pub open spec fn views(set: Seq<Descriptor>) -> Seq<Seq<u8>> {
    set.map_values(|d: Descriptor| d@)
}

/// Number of one bits in `b`.
pub fn count_ones(b: u8) -> (n: u32)
    ensures
        n == bit_count(b),
{
    proof {
        lemma_bit_count_bound(b);
        assert((b & 1) <= 1 && ((b >> 1) & 1) <= 1 && ((b >> 2) & 1) <= 1 && ((b >> 3) & 1) <= 1
            && ((b >> 4) & 1) <= 1 && ((b >> 5) & 1) <= 1 && ((b >> 6) & 1) <= 1 && ((b >> 7)
            & 1) <= 1) by (bit_vector);
    }
    let low: u8 = (b & 1) + ((b >> 1) & 1) + ((b >> 2) & 1) + ((b >> 3) & 1);
    let high: u8 = ((b >> 4) & 1) + ((b >> 5) & 1) + ((b >> 6) & 1) + ((b >> 7) & 1);
    (low + high) as u32
}

/// Hamming distance between two descriptors known to be of one width.
pub(crate) fn distance_between(x: &Descriptor, y: &Descriptor) -> (d: u32)
    requires
        x@.len() == y@.len(),
    ensures
        d == hamming_distance(x@, y@),
{
    let xs = x.bytes();
    let ys = y.bytes();
    let mut total: u32 = 0;
    let mut i: usize = 0;
    while i < xs.len()
        invariant
            xs@.len() == ys@.len(),
            xs@.len() <= MAX_DESCRIPTOR_BYTES,
            i <= xs@.len(),
            total == differing_bits(xs@, ys@, i as nat),
        decreases xs@.len() - i,
    {
        proof {
            lemma_differing_bits_bound(xs@, ys@, i as nat);
            lemma_bit_count_bound(xs@[i as int] ^ ys@[i as int]);
        }
        total = total + count_ones(xs[i] ^ ys[i]);
        i = i + 1;
    }
    total
}

/// Hamming distance between two descriptors, which must be of one width.
pub fn hamming(x: &Descriptor, y: &Descriptor) -> (measured: Result<u32, MatchError>)
    ensures
        measured is Ok <==> x@.len() == y@.len(),
        measured matches Ok(d) ==> d == hamming_distance(x@, y@),
        measured matches Err(e) ==> e == MatchError::InvalidArgument,
{
    if x.byte_len() != y.byte_len() {
        Err(MatchError::InvalidArgument)
    } else {
        Ok(distance_between(x, y))
    }
}

} // verus!
