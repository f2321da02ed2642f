use vstd::prelude::*;

use crate::u256::{
    is_lower_hex_digit, le_value, lemma_le_value_byte, lemma_value_injective, lower_hex, pow256, U256,
};

verus! {

/// A character that `hex::decode` reads as a digit, in either case.
pub open spec fn is_hex_digit(c: char) -> bool {
    ('0' <= c && c <= '9') || ('a' <= c && c <= 'f') || ('A' <= c && c <= 'F')
}

/// The value of one hex digit.
pub open spec fn hex_digit_value(c: char) -> nat {
    if '0' <= c && c <= '9' {
        (c as nat - '0' as nat) as nat
    } else if 'a' <= c && c <= 'f' {
        (c as nat - 'a' as nat + 10) as nat
    } else {
        (c as nat - 'A' as nat + 10) as nat
    }
}

/// Text that decodes as hex: an even number of hex digits.
pub open spec fn is_hex_text(text: Seq<char>) -> bool {
    &&& text.len() % 2 == 0
    &&& forall|i: int| 0 <= i < text.len() ==> is_hex_digit(#[trigger] text[i])
}

/// The bytes that hex text stands for: each pair of digits is one byte,
/// the first digit the high half.
pub open spec fn hex_decoded(text: Seq<char>) -> Seq<u8> {
    Seq::new(
        text.len() / 2,
        |i: int| (16 * hex_digit_value(text[2 * i]) + hex_digit_value(text[2 * i + 1])) as u8,
    )
}

/// What `sha256::digest` returns for the given bytes: their SHA-256 digest
/// written in lower-case hex.
pub uninterp spec fn sha256_hex_digest(data: Seq<u8>) -> Seq<char>;

/// Calls `sha256::digest`. The crate computes the SHA-256 digest of the bytes
/// and returns `hex::encode` of its 32 bytes, so the result is 64 lower-case
/// hex digits; which digits, this contract leaves to the name
/// `sha256_hex_digest`.
#[verifier::external_body]
fn sha256_digest(data: &[u8]) -> (digest: String)
    ensures
        digest@ == sha256_hex_digest(data@),
        digest@.len() == 64,
        forall|i: int| 0 <= i < digest@.len() ==> is_lower_hex_digit(#[trigger] digest@[i]),
{
    ::sha256::digest(data)
}

#[verifier::external_type_specification]
#[verifier::external_body]
pub struct ExFromHexError(hex::FromHexError);

/// Calls `hex::decode` on the UTF-8 bytes of `text`. The crate accepts an even
/// number of digits `0-9`, `a-f`, `A-F` and turns each pair into one byte, high
/// digit first; anything else (odd length, any other character, any byte of a
/// multi-byte character) is an error.
#[verifier::external_body]
fn decode_hex(text: &str) -> (bytes: Result<Vec<u8>, hex::FromHexError>)
    ensures
        bytes is Ok <==> is_hex_text(text@),
        bytes matches Ok(v) ==> v@ == hex_decoded(text@),
{
    hex::decode(text)
}

/// A 256-bit hash, read as a little-endian number.
#[derive(Clone, Copy, Debug)]
pub struct Hash(U256);

impl PartialEq for Hash {
    fn eq(&self, other: &Hash) -> (r: bool) {
        self.0 == other.0
    }
}

impl Eq for Hash {

}

impl vstd::std_specs::cmp::PartialEqSpecImpl for Hash {
    open spec fn obeys_eq_spec() -> bool {
        true
    }

    open spec fn eq_spec(&self, other: &Hash) -> bool {
        *self == *other
    }
}

impl View for Hash {
    type V = nat;

    closed spec fn view(&self) -> nat {
        self.0@
    }
}

/// The hash of serialized data: its SHA-256 digest, as hex text, decoded back
/// to 32 bytes and read little-endian.
pub open spec fn spec_hash(data: Seq<u8>) -> nat {
    le_value(hex_decoded(sha256_hex_digest(data)))
}

impl Hash {
    /// Hashes serialized data.
    pub fn hash(data: &[u8]) -> (h: Hash)
        ensures
            h@ == spec_hash(data@),
            h@ == le_value(hex_decoded(sha256_hex_digest(data@))),
    {
        let digest = sha256_digest(data);
        match decode_hex(digest.as_str()) {
            Ok(bytes) => {
                assert(bytes@.len() == 32);
                Hash(U256::from_little_endian(bytes.as_slice()))
            },
            Err(_) => {
                proof {
                    assert forall|i: int| 0 <= i < digest@.len() implies is_hex_digit(
                        #[trigger] digest@[i],
                    ) by {
                        assert(is_lower_hex_digit(digest@[i]));
                    }
                    assert(false);
                }
                Hash::zero()
            },
        }
    }

    /// Whether this hash is at most `target`.
    pub fn matches_target(&self, target: U256) -> (r: bool)
        ensures
            r == (self@ <= target@),
    {
        self.0.le(&target)
    }

    /// The hash whose value is zero.
    pub fn zero() -> (h: Hash)
        ensures
            h@ == 0,
    {
        Hash(U256::zero())
    }

    /// This hash written in lower-case hex without leading zeros, as it is
    /// displayed.
    pub fn to_string(&self) -> (text: String)
        ensures
            text@ == lower_hex(self@),
            1 <= text@.len() <= 64,
            forall|i: int| 0 <= i < text@.len() ==> is_lower_hex_digit(#[trigger] text@[i]),
            text@[0] != '0' || text@.len() == 1,
    {
        self.0.to_lower_hex()
    }

    /// The 32 bytes of this hash, little-endian.
    pub fn to_little_endian(&self) -> (bytes: [u8; 32])
        ensures
            le_value(bytes@) == self@,
    {
        self.0.to_little_endian()
    }
}

/// A hash is that of the whole input: the SHA-256 digest of every byte of
/// `data`, decoded from hex and read little-endian. Its `i`-th byte is the
/// `i`-th pair of hex digits of that digest.
pub proof fn lemma_hash_of_whole_input(data: Seq<u8>)
    ensures
        spec_hash(data) == le_value(hex_decoded(sha256_hex_digest(data))),
        forall|i: int|
            0 <= i < sha256_hex_digest(data).len() / 2 ==> (spec_hash(data) / pow256(i as nat))
                % 256 == ((16 * hex_digit_value(#[trigger] sha256_hex_digest(data)[2 * i])
                + hex_digit_value(sha256_hex_digest(data)[2 * i + 1])) as u8),
{
    let bytes = hex_decoded(sha256_hex_digest(data));
    assert forall|i: int|
        0 <= i < sha256_hex_digest(data).len() / 2 implies (spec_hash(data) / pow256(i as nat))
        % 256 == ((16 * hex_digit_value(#[trigger] sha256_hex_digest(data)[2 * i])
        + hex_digit_value(sha256_hex_digest(data)[2 * i + 1])) as u8) by {
        lemma_le_value_byte(bytes, i as nat);
    }
}

/// Hashes of the same value are the same hash.
pub proof fn lemma_hash_determined_by_value(a: Hash, b: Hash)
    requires
        a@ == b@,
    ensures
        a == b,
{
    lemma_value_injective(a.0, b.0);
}

/// The zero hash is at most every target.
pub proof fn lemma_zero_matches_every_target(zero: Hash, target: U256)
    requires
        zero@ == 0,
    ensures
        zero@ <= target@,
{
}

/// The root of a Merkle tree of transactions.
pub struct MerkleRoot;

} // verus!
