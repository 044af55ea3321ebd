//! The SDK's secp256k1 key pair: generation, import, address derivation,
//! signing and verification of arbitrary data.
use vstd::prelude::*;
use vstd::string::StringExecFns;
use crate::hashing::{Address, sha256, sha256_spec};
use crate::crypto::{
    secret_key_valid, public_key_spec, sign_spec, recover_spec, address_of_public_key, parse_secret_key,
    random_secret_key, public_key_of, sign_recoverable, recover_public_key, derive_address_from_public_key,
};
use crate::sdk_errors::SdkError;

verus! {

/// A secret key with its compressed public key.
#[derive(Debug, Clone, Copy)]
pub struct Keypair {
    pub secret: [u8; 32],
    pub public: [u8; 33],
}

/// Whether the signature of `data` recovers to `public`: `Err` for a
/// signature that is not 65 bytes or from which no key can be recovered.
pub open spec fn verify_spec(data: Seq<u8>, signature: Seq<u8>, public: Seq<u8>) -> Result<bool, ()> {
    if signature.len() != 65 {
        Err(())
    } else {
        match recover_spec(sha256_spec(data), signature) {
            Some(k) => Ok(k == public),
            None => Err(()),
        }
    }
}

/// Byte-wise equality of two compressed public keys.
fn public_key_eq(a: &[u8; 33], b: &[u8; 33]) -> (r: bool)
    ensures
        r == (a@ == b@),
{
    let mut i: usize = 0;
    while i < 33
        invariant
            0 <= i <= 33,
            forall|j: int| 0 <= j < i ==> a@[j] == b@[j],
        decreases 33 - i,
    {
        if a[i] != b[i] {
            return false;
        }
        i = i + 1;
    }
    assert(a@ =~= b@);
    true
}

impl Keypair {
    /// The secret key is valid and the public key is its public key.
    pub open spec fn wf(&self) -> bool {
        secret_key_valid(self.secret@) && self.public@ == public_key_spec(self.secret@)
    }

    /// A fresh key pair from the operating system's randomness.
    pub fn generate() -> (r: Result<Keypair, SdkError>)
        ensures
            r matches Ok(kp) && kp.wf(),
    {
        let secret = random_secret_key();
        let public = public_key_of(&secret);
        Ok(Keypair { secret, public })
    }

    /// The key pair of a 32-byte secret key; fails on another length or an
    /// invalid key.
    pub fn from_secret_bytes(bytes: &[u8]) -> (r: Result<Keypair, SdkError>)
        ensures
            r is Ok <==> (bytes@.len() == 32 && secret_key_valid(bytes@)),
            r matches Ok(kp) ==> kp.wf() && kp.secret@ == bytes@,
            r matches Err(e) ==> e is CryptoError,
    {
        if bytes.len() != 32 {
            return Err(SdkError::CryptoError(String::from_str("Secret key must be 32 bytes")));
        }
        match parse_secret_key(bytes) {
            Ok(secret) => {
                let public = public_key_of(&secret);
                Ok(Keypair { secret, public })
            },
            Err(e) => Err(SdkError::CryptoError(e)),
        }
    }

    /// The 32 secret-key bytes.
    pub fn secret_bytes(&self) -> (r: [u8; 32])
        ensures
            r == self.secret,
    {
        self.secret
    }

    /// The 33-byte compressed public key.
    pub fn public_bytes(&self) -> (r: [u8; 33])
        ensures
            r == self.public,
    {
        self.public
    }

    /// The address: the last 20 bytes of the SHA-256 digest of the public
    /// key without its prefix byte.
    pub fn derive_address(&self) -> (r: Address)
        ensures
            r@ == address_of_public_key(self.public@),
    {
        derive_address_from_public_key(&self.public)
    }

    /// The 65-byte recoverable signature of the SHA-256 digest of `data`.
    pub fn sign(&self, data: &[u8]) -> (r: Result<Vec<u8>, SdkError>)
        requires
            self.wf(),
        ensures
            r matches Ok(sig) && sig@ == sign_spec(sha256_spec(data@), self.secret@)
                && recover_spec(sha256_spec(data@), sig@) == Some(self.public@),
    {
        let digest = sha256(data);
        Ok(sign_recoverable(&digest, &self.secret))
    }

    /// Whether `signature` is a signature of `data` by this key pair.
    pub fn verify(&self, data: &[u8], signature: &[u8]) -> (r: Result<bool, SdkError>)
        ensures
            r is Err <==> verify_spec(data@, signature@, self.public@) is Err,
            r matches Ok(b) ==> verify_spec(data@, signature@, self.public@) == Ok::<bool, ()>(b),
    {
        if signature.len() != 65 {
            return Err(SdkError::CryptoError(String::from_str("Signature must be 65 bytes")));
        }
        let digest = sha256(data);
        match recover_public_key(&digest, signature) {
            Some(k) => Ok(public_key_eq(&k, &self.public)),
            None => Err(SdkError::CryptoError(String::from_str("Signature recovery failed"))),
        }
    }
}

} // verus!
