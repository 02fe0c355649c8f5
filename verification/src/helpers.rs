use vstd::prelude::*;

verus! {

/// A Match is a single group of participants matched together. Most Matches
/// are pairs; when the participant count is odd there is one group of three.
/// Participants are opaque 64-bit identifiers.
pub type Match = Vec<u64>;

/// A pairing for some group of participants.
/// The first element holds the matches: each participant appears in exactly
/// one Match. The second element lists the participants that could not be
/// matched away from everyone they had already met — each of them also
/// appears somewhere in the first element.
#[derive(Debug)]
pub struct Pairing(pub Vec<Match>, pub Vec<u64>);

impl Pairing {
    /// The participants of every match, flattened in match order.
    pub open spec fn members(self) -> Seq<u64> {
        self.0.deep_view().flatten()
    }
}

/// The 64-bit value that hashing a seed string yields; a function of the
/// string alone.
pub uninterp spec fn seed_hash_of(s: Seq<char>) -> u64;

/// Hashes a string into a u64 that can be used as a seed.
///
/// Relies on std::hash::DefaultHasher (`new`, `Hash::hash`, `Hasher::finish`):
/// hashers created through `new` are documented to be identical, so the
/// digest of a given string is a function of the string alone.
#[verifier::external_body]
pub fn hash_seed(seed: &str) -> (r: u64)
    ensures
        r == seed_hash_of(seed@),
{
    let mut hasher = std::hash::DefaultHasher::new();
    std::hash::Hash::hash(seed, &mut hasher);
    std::hash::Hasher::finish(&hasher)
}

/// The checksum text for a seed and a match list; a function of its
/// arguments alone.
pub uninterp spec fn checksum_of(seed: u64, matches: Seq<Seq<u64>>) -> Seq<char>;

/// Generates a short checksum for a given seed & match list, which can be
/// used to verify that nothing has changed between multiple uses.
///
/// Relies on std::hash::DefaultHasher (`new`, `Hash::hash`, `Hasher::finish`)
/// and on hexadecimal formatting of the digest: hashers created through
/// `new` are documented to be identical, so the eight hex digits kept here
/// are a function of the seed and the match structure alone.
#[verifier::external_body]
pub fn checksum_matching(seed: u64, pairs: &Vec<Match>) -> (r: String)
    ensures
        r@ == checksum_of(seed, pairs.deep_view()),
        r@.len() == 8,
{
    let mut hasher = std::hash::DefaultHasher::new();
    std::hash::Hash::hash(&seed, &mut hasher);
    std::hash::Hash::hash(pairs, &mut hasher);
    let hex = format!("{:016x}", std::hash::Hasher::finish(&hasher));
    hex[..8].to_string()
}

/// The checksum that belongs to a seed string: the string is hashed into a
/// seed, and the checksum of that seed and the matches is produced.
pub fn key_checksum(seed_str: &str, pairs: &Vec<Match>) -> (r: String)
    ensures
        r@ == checksum_of(seed_hash_of(seed_str@), pairs.deep_view()),
        r@.len() == 8,
{
    let seed = hash_seed(seed_str);
    checksum_matching(seed, pairs)
}

/// Whether a previously issued checksum still fits a seed string and a match
/// list: exactly when the stored checksum equals the one recomputed now.
pub fn key_matches(seed_str: &str, expected: &String, pairs: &Vec<Match>) -> (r: bool)
    ensures
        r == (checksum_of(seed_hash_of(seed_str@), pairs.deep_view()) == expected@),
{
    let actual = key_checksum(seed_str, pairs);
    actual == *expected
}

/// Checksum stability: the checksum is a function of the seed and of the
/// exact match structure, so repeated computations over identical arguments
/// always agree.
pub proof fn lemma_checksum_stable(seed1: u64, m1: Seq<Seq<u64>>, seed2: u64, m2: Seq<Seq<u64>>)
    requires
        seed1 == seed2,
        m1 == m2,
    ensures
        checksum_of(seed1, m1) == checksum_of(seed2, m2),
{
}

} // verus!
