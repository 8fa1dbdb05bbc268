//! Content hashes: the first half of a BLAKE3 digest.
use vstd::prelude::*;

verus! {

/// Number of digest bytes that are kept.
pub const HASH_SIZE: usize = 16;

/// BLAKE3 of a byte sequence: the 32-byte digest.
pub uninterp spec fn blake3_digest(data: Seq<u8>) -> Seq<u8>;

/// The bytes a BLAKE3 hashing state has absorbed since it was created.
pub uninterp spec fn hasher_input(h: blake3::Hasher) -> Seq<u8>;

/// The stored hash of a byte sequence: the first `HASH_SIZE` bytes of its digest.
pub open spec fn digest16(data: Seq<u8>) -> Seq<u8> {
    blake3_digest(data).subrange(0, HASH_SIZE as int)
}

/// The lowercase hexadecimal digits.
pub open spec fn hex_digits() -> Seq<char> {
    seq!['0', '1', '2', '3', '4', '5', '6', '7', '8', '9', 'a', 'b', 'c', 'd', 'e', 'f']
}

/// Two lowercase hexadecimal digits per byte, high digit first.
pub open spec fn hex_of(b: Seq<u8>) -> Seq<char>
    decreases b.len(),
{
    if b.len() == 0 {
        Seq::empty()
    } else {
        hex_of(b.drop_last()) + seq![
            hex_digits()[b.last() as int / 16],
            hex_digits()[b.last() as int % 16],
        ]
    }
}

/// Relies on `hex::encode`: each byte becomes two lowercase hex digits,
/// high digit first.
#[verifier::external_body]
fn encode_hex(b: &[u8]) -> (r: String)
    ensures
        r@ == hex_of(b@),
{
    hex::encode(b)
}

#[verifier::external_type_specification]
#[verifier::external_body]
pub struct ExHasher(blake3::Hasher);

/// Relies on `blake3::Hasher::new`: a fresh state has absorbed nothing.
#[verifier::external_body]
fn hasher_new() -> (r: blake3::Hasher)
    ensures
        hasher_input(r) == Seq::<u8>::empty(),
{
    blake3::Hasher::new()
}

/// Relies on `blake3::Hasher::update`: the input is appended to what the
/// state has absorbed.
#[verifier::external_body]
fn hasher_update(h: &mut blake3::Hasher, data: &[u8])
    ensures
        hasher_input(*final(h)) == hasher_input(*old(h)) + data@,
{
    h.update(data);
}

/// Relies on `blake3::Hasher::finalize`: the digest of everything absorbed
/// so far, leaving the state as it was.
#[verifier::external_body]
fn hasher_finalize(h: &blake3::Hasher) -> (r: [u8; 32])
    ensures
        r@ == blake3_digest(hasher_input(*h)),
{
    *h.finalize().as_bytes()
}

/// A 16-byte content hash.
#[derive(Clone, Copy, Debug, Hash, Eq)]
pub struct Hash(pub [u8; HASH_SIZE]);

impl View for Hash {
    type V = Seq<u8>;

    open spec fn view(&self) -> Seq<u8> {
        self.0@
    }
}

impl PartialEq for Hash {
    fn eq(&self, other: &Hash) -> (r: bool) {
        let mut i: usize = 0;
        while i < HASH_SIZE
            invariant
                i <= HASH_SIZE,
                self@.len() == HASH_SIZE,
                other@.len() == HASH_SIZE,
                forall|k: int| 0 <= k < i ==> self@[k] == other@[k],
            decreases HASH_SIZE - i,
        {
            if self.0[i] != other.0[i] {
                return false;
            }
            i = i + 1;
        }
        proof {
            assert(self@ =~= other@);
        }
        true
    }
}

impl vstd::std_specs::cmp::PartialEqSpecImpl for Hash {
    open spec fn obeys_eq_spec() -> bool {
        true
    }

    open spec fn eq_spec(&self, other: &Hash) -> bool {
        self@ == other@
    }
}

/// A 64-bit key taken from the first eight bytes of a hash.
pub open spec fn hash_key(h: Seq<u8>) -> u64 {
    (h[0] as u64) | ((h[1] as u64) << 8u64) | ((h[2] as u64) << 16u64) | ((h[3] as u64) << 24u64)
        | ((h[4] as u64) << 32u64) | ((h[5] as u64) << 40u64) | ((h[6] as u64) << 48u64) | ((
    h[7] as u64) << 56u64)
}

impl Hash {
    /// A 64-bit key for grouping hashes: equal hashes have equal keys.
    pub fn key(&self) -> (r: u64)
        ensures
            r == hash_key(self@),
    {
        let h = &self.0;
        (h[0] as u64) | ((h[1] as u64) << 8u64) | ((h[2] as u64) << 16u64) | ((h[3] as u64)
            << 24u64) | ((h[4] as u64) << 32u64) | ((h[5] as u64) << 40u64) | ((h[6] as u64)
            << 48u64) | ((h[7] as u64) << 56u64)
    }

    /// Keeps the first `HASH_SIZE` bytes of a full 32-byte digest.
    pub fn from_digest(digest: &[u8; 32]) -> (r: Hash)
        ensures
            r@ == digest@.subrange(0, HASH_SIZE as int),
    {
        let mut half = [0u8; HASH_SIZE];
        let mut i: usize = 0;
        while i < HASH_SIZE
            invariant
                i <= HASH_SIZE,
                half@.len() == HASH_SIZE,
                digest@.len() == 32,
                forall|k: int| 0 <= k < i ==> half@[k] == digest@[k],
            decreases HASH_SIZE - i,
        {
            half[i] = digest[i];
            i = i + 1;
        }
        assert(half@ =~= digest@.subrange(0, HASH_SIZE as int));
        Hash(half)
    }

    /// The hash as 32 lowercase hexadecimal digits.
    pub fn to_hex(&self) -> (r: String)
        ensures
            r@ == hex_of(self@),
    {
        encode_hex(&self.0)
    }

    /// The hash of a byte sequence held in memory.
    pub fn of_bytes(data: &[u8]) -> (r: Hash)
        ensures
            r@ == digest16(data@),
    {
        let mut h = StreamHasher::new();
        h.update(data);
        h.finalize()
    }
}

/// A hashing state fed with the bytes of a stream as they pass.
///
/// `finalize` does not consume the state, so a digest can be taken part
/// way through and feeding can go on afterwards.
pub struct StreamHasher {
    hasher: blake3::Hasher,
}

impl StreamHasher {
    /// The bytes fed so far.
    pub closed spec fn absorbed(&self) -> Seq<u8> {
        hasher_input(self.hasher)
    }

    pub fn new() -> (r: StreamHasher)
        ensures
            r.absorbed() == Seq::<u8>::empty(),
    {
        StreamHasher { hasher: hasher_new() }
    }

    /// Feeds bytes that were read from the stream.
    pub fn update(&mut self, data: &[u8])
        ensures
            final(self).absorbed() == old(self).absorbed() + data@,
    {
        hasher_update(&mut self.hasher, data);
    }

    /// The hash of everything fed so far.
    pub fn finalize(&self) -> (r: Hash)
        ensures
            r@ == digest16(self.absorbed()),
    {
        let digest = hasher_finalize(&self.hasher);
        Hash::from_digest(&digest)
    }
}

} // verus!
