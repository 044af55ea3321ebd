//! Signature container and the secp256k1 / randomness primitives.
use vstd::prelude::*;
use secp256k1::ecdsa;
use crate::hashing::{Address, copy_bytes, sha256, sha256_spec};

verus! {

/// Cryptographic algorithms a signature can be tagged with.  Existing
/// history uses Secp256k1; the other tags are reserved for upgrades.
#[derive(Debug, Clone, Copy, PartialEq, Eq, Structural)]
pub enum CryptoAlgorithm {
    Secp256k1,
    Schnorr,
    PostQuantum,
}

/// A signature together with the algorithm that produced it.
#[derive(Debug, Clone)]
pub struct Signature {
    pub algorithm: CryptoAlgorithm,
    pub data: Vec<u8>,
}

impl Signature {
    /// The empty Secp256k1 signature of an unsigned transaction.
    pub fn empty() -> (r: Signature)
        ensures
            r.algorithm == CryptoAlgorithm::Secp256k1,
            r.data@ == Seq::<u8>::empty(),
    {
        Signature { algorithm: CryptoAlgorithm::Secp256k1, data: Vec::new() }
    }

    /// A field-by-field copy.
    pub fn copy(&self) -> (r: Signature)
        ensures
            r.algorithm == self.algorithm,
            r.data@ == self.data@,
    {
        Signature { algorithm: self.algorithm, data: copy_bytes(&self.data) }
    }
}

/// Whether 32 bytes form a valid secp256k1 secret key (non-zero and below
/// the curve order).
pub uninterp spec fn secret_key_valid(bytes: Seq<u8>) -> bool;

/// The 33-byte compressed public key of a valid secret key.
pub uninterp spec fn public_key_spec(secret: Seq<u8>) -> Seq<u8>;

/// The 65-byte recoverable ECDSA signature (64 compact bytes, then the
/// recovery id) of a 32-byte digest under a secret key.
pub uninterp spec fn sign_spec(digest: Seq<u8>, secret: Seq<u8>) -> Seq<u8>;

/// The compressed public key recovered from a 65-byte recoverable
/// signature of a digest, if the signature is well formed.
pub uninterp spec fn recover_spec(digest: Seq<u8>, sig: Seq<u8>) -> Option<Seq<u8>>;

/// Calls `secp256k1::SecretKey::from_slice`; it accepts exactly the 32-byte
/// valid keys, so a slice of another length is refused. The error is the
/// crate's error rendered as text.
#[verifier::external_body]
pub(crate) fn parse_secret_key(bytes: &[u8]) -> (r: Result<[u8; 32], String>)
    ensures
        r is Ok == (bytes@.len() == 32 && secret_key_valid(bytes@)),
        r matches Ok(k) ==> k@ == bytes@,
{
    match secp256k1::SecretKey::from_slice(bytes) {
        Ok(k) => Ok(k.secret_bytes()),
        Err(e) => Err(e.to_string()),
    }
}

/// Calls `secp256k1::SecretKey::new` with the operating system's random
/// source; the key it returns is valid (the crate draws again until it is).
/// Nothing else is stated of the random value.
#[verifier::external_body]
pub(crate) fn random_secret_key() -> (r: [u8; 32])
    ensures
        secret_key_valid(r@),
{
    secp256k1::SecretKey::new(&mut rand::rngs::OsRng).secret_bytes()
}

/// Calls `secp256k1::PublicKey::from_secret_key` and `serialize`: the
/// compressed public key of the secret key.
#[verifier::external_body]
pub(crate) fn public_key_of(secret: &[u8; 32]) -> (r: [u8; 33])
    requires
        secret_key_valid(secret@),
    ensures
        r@ == public_key_spec(secret@),
{
    let secp = secp256k1::Secp256k1::new();
    let sk = secp256k1::SecretKey::from_slice(secret).unwrap();
    secp256k1::PublicKey::from_secret_key(&secp, &sk).serialize()
}

/// Calls `Secp256k1::sign_ecdsa_recoverable` on a 32-byte digest and
/// serialises the result as 64 compact bytes followed by the recovery id.
/// The signature is deterministic (RFC 6979 nonces), and recovering a
/// public key from it gives back the signer's public key.
#[verifier::external_body]
pub(crate) fn sign_recoverable(digest: &[u8; 32], secret: &[u8; 32]) -> (r: Vec<u8>)
    requires
        secret_key_valid(secret@),
    ensures
        r@ == sign_spec(digest@, secret@),
        r@.len() == 65,
        recover_spec(digest@, r@) == Some(public_key_spec(secret@)),
{
    let secp = secp256k1::Secp256k1::new();
    let sk = secp256k1::SecretKey::from_slice(secret).unwrap();
    let msg = secp256k1::Message::from_digest_slice(digest).unwrap();
    let (rec, bytes) = secp.sign_ecdsa_recoverable(&msg, &sk).serialize_compact();
    let mut out = bytes.to_vec();
    out.push(rec.to_i32() as u8);
    out
}

/// Calls `RecoveryId::from_i32`, `RecoverableSignature::from_compact` and
/// `Secp256k1::recover_ecdsa` on a 65-byte signature of a digest; `None`
/// where any of them fails.
#[verifier::external_body]
pub(crate) fn recover_public_key(digest: &[u8; 32], sig: &[u8]) -> (r: Option<[u8; 33]>)
    requires
        sig@.len() == 65,
    ensures
        r matches Some(k) ==> recover_spec(digest@, sig@) == Some(k@),
        r is None ==> recover_spec(digest@, sig@) is None,
{
    let secp = secp256k1::Secp256k1::new();
    let msg = secp256k1::Message::from_digest_slice(digest).ok()?;
    let rec = secp256k1::ecdsa::RecoveryId::from_i32(sig[64] as i32).ok()?;
    let s = secp256k1::ecdsa::RecoverableSignature::from_compact(&sig[0..64], rec).ok()?;
    secp.recover_ecdsa(&msg, &s).ok().map(|k| k.serialize())
}

/// The step at which a public key could not be recovered from a signature.
#[derive(Debug, Clone, Copy, PartialEq, Eq, Structural)]
pub enum RecoveryStage {
    /// The last byte is not a recovery id.
    RecoveryId,
    /// The first 64 bytes are not a compact signature.
    Signature,
    /// They are not a compact recoverable signature.
    RecoverableSignature,
    /// No key recovers from the signature.
    Recovery,
}

/// Calls `RecoveryId::from_i32` on the last byte,
/// `ecdsa::Signature::from_compact` and `RecoverableSignature::from_compact`
/// on the first 64, then `Secp256k1::recover_ecdsa` on the digest, and
/// serialises the key compressed (33 bytes). The two compact parses refuse
/// the same inputs (a scalar not below the curve order), so this succeeds
/// exactly where `recover_public_key` does and gives the same key. On
/// failure: the step and the crate's error text, of which nothing is
/// stated.
#[verifier::external_body]
pub(crate) fn recover_with_stage(digest: &[u8; 32], sig: &[u8]) -> (r: Result<[u8; 33], (RecoveryStage, String)>)
    requires
        sig@.len() == 65,
    ensures
        r is Ok <==> recover_spec(digest@, sig@) is Some,
        r matches Ok(k) ==> recover_spec(digest@, sig@) == Some(k@),
{
    let rec = ecdsa::RecoveryId::from_i32(sig[64] as i32).map_err(|e| (RecoveryStage::RecoveryId, e.to_string()))?;
    ecdsa::Signature::from_compact(&sig[0..64]).map_err(|e| (RecoveryStage::Signature, e.to_string()))?;
    let s = ecdsa::RecoverableSignature::from_compact(&sig[0..64], rec).map_err(|e| (RecoveryStage::RecoverableSignature, e.to_string()))?;
    let msg = secp256k1::Message::from_digest(*digest);
    secp256k1::Secp256k1::new().recover_ecdsa(&msg, &s).map(|k| k.serialize()).map_err(|e| (RecoveryStage::Recovery, e.to_string()))
}

/// The address of a compressed public key: the last 20 bytes of the
/// SHA-256 digest of the key without its leading prefix byte.
pub open spec fn address_of_public_key(pk: Seq<u8>) -> Seq<u8> {
    sha256_spec(pk.subrange(1, pk.len() as int)).subrange(12, 32)
}

/// Derives the address of a compressed public key.
pub fn derive_address_from_public_key(pk: &[u8; 33]) -> (r: Address)
    ensures
        r@ == address_of_public_key(pk@),
{
    let mut body: Vec<u8> = Vec::new();
    let mut i: usize = 1;
    while i < 33
        invariant
            1 <= i <= 33,
            body@ == pk@.subrange(1, i as int),
        decreases 33 - i,
    {
        body.push(pk[i]);
        i = i + 1;
        assert(body@ =~= pk@.subrange(1, i as int));
    }
    let digest = sha256(body.as_slice());
    let mut addr: Address = [0u8; 20];
    let mut j: usize = 0;
    while j < 20
        invariant
            0 <= j <= 20,
            digest@ == sha256_spec(pk@.subrange(1, 33)),
            forall|k: int| 0 <= k < j ==> addr@[k] == digest@[k + 12],
        decreases 20 - j,
    {
        addr[j] = digest[j + 12];
        j = j + 1;
    }
    assert(addr@ =~= address_of_public_key(pk@));
    addr
}

} // verus!
