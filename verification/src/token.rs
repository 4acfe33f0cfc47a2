//! The identifier tokenizer: a deterministic, one-way pseudonymization of
//! (entity id, party id) into a fixed-width token.
use sha2::Digest;
use vstd::prelude::*;

verus! {

/// The token derived from an entity id and a party id: the first eight bytes,
/// read little-endian, of the SHA-256 digest of the entity id's eight
/// little-endian bytes followed by the party byte. The digest itself is left
/// unstated: it is a fixed function of the two inputs and nothing in the
/// library's contracts depends on its bit pattern, only on its being one
/// value per input pair.
pub uninterp spec fn token_of(person: u64, party: u8) -> u64;

/// Relies on sha2::Sha256 (via the Digest trait's new/update/finalize): the
/// digest, and so the token, depends on the hashed bytes alone, hence is a
/// function of `person` and `party` — the same inputs always give the same
/// token, in every run.
#[verifier::external_body]
fn sha_token(person: u64, party: u8) -> (t: u64)
    ensures
        t == token_of(person, party),
{
    let mut h = sha2::Sha256::new();
    h.update(person.to_le_bytes());
    h.update([party]);
    let d = h.finalize();
    u64::from_le_bytes(d[..8].try_into().unwrap())
}

/// Pseudonymous token for one entity as known to one party: deterministic,
/// one-way, total over its input domain, and free of side effects. Two calls
/// with the same inputs return the same token.
pub fn hash_id(person: u64, party: u8) -> (t: u64)
    ensures
        t == token_of(person, party),
{
    sha_token(person, party)
}

} // verus!
