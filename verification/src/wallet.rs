//! A wallet: a key pair kept as bytes together with its address.
use vstd::prelude::*;
use crate::hashing::{Address, copy_bytes, hex_encode, hex_spec, hex_digit};
use crate::crypto::{secret_key_valid, public_key_spec, sign_spec, address_of_public_key, CryptoAlgorithm};
use crate::keypair::Keypair;
use crate::address::{hex_value, hex_decode_spec, lemma_hex_spec_shape, lemma_hex_round_trip};
use crate::sdk_errors::SdkError;
use crate::transaction::{Transaction, tx_hash_spec, recovered_key, tx_valid_basic, tx_basic_checks_pass};

verus! {

/// A wallet's secret key, compressed public key and address.
#[derive(Debug, Clone)]
pub struct Wallet {
    pub secret_key: Vec<u8>,
    pub public_key: Vec<u8>,
    pub address: Address,
}

/// The wallet holds a valid secret key, its public key and the address of
/// that public key.
pub open spec fn wallet_wf(w: Wallet) -> bool {
    &&& w.secret_key@.len() == 32
    &&& secret_key_valid(w.secret_key@)
    &&& w.public_key@ == public_key_spec(w.secret_key@)
    &&& w.public_key@.len() == 33
    &&& w.address@ == address_of_public_key(public_key_spec(w.secret_key@))
}

/// The bytes read as characters.
pub open spec fn as_chars(input: Seq<u8>) -> Seq<char> {
    input.map_values(|b: u8| b as char)
}

/// The secret key that an import reads from `input`: 64 hexadecimal
/// characters (either case) decode to 32 bytes; any other input is taken
/// as the raw key.
pub open spec fn key_bytes_of(input: Seq<u8>) -> Seq<u8> {
    if input.len() == 64 && hex_decode_spec(as_chars(input)) is Some {
        hex_decode_spec(as_chars(input))->0
    } else {
        input
    }
}

/// The value of a hexadecimal digit byte of either case.
fn hex_nibble(b: u8) -> (r: Option<u8>)
    ensures
        r == hex_value(b as char),
{
    if 48 <= b && b <= 57 {
        Some(b - 48)
    } else if 97 <= b && b <= 102 {
        Some(b - 87)
    } else if 65 <= b && b <= 70 {
        Some(b - 55)
    } else {
        None
    }
}

/// Decodes 64 hexadecimal characters into 32 bytes.
fn decode_hex_key(input: &[u8]) -> (r: Option<Vec<u8>>)
    requires
        input@.len() == 64,
    ensures
        r is Some <==> hex_decode_spec(as_chars(input@)) is Some,
        r matches Some(v) ==> v@ == hex_decode_spec(as_chars(input@))->0,
{
    let ghost t = as_chars(input@);
    let mut out: Vec<u8> = Vec::new();
    let mut k: usize = 0;
    while k < 32
        invariant
            input@.len() == 64,
            t == as_chars(input@),
            0 <= k <= 32,
            out@.len() == k,
            forall|i: int| 0 <= i < 2 * k ==> (#[trigger] hex_value(t[i])) is Some,
            forall|j: int| 0 <= j < k ==> out@[j] == ((hex_value(t[2 * j])->0 * 16 + hex_value(t[2 * j + 1])->0) as u8),
        decreases 32 - k,
    {
        let hi = hex_nibble(input[2 * k]);
        let lo = hex_nibble(input[2 * k + 1]);
        match (hi, lo) {
            (Some(h), Some(l)) => {
                assert(h < 16 && l < 16);
                out.push(h * 16 + l);
            },
            _ => {
                proof {
                    if hi is None {
                        assert(hex_value(t[2 * k as int]) is None);
                    } else {
                        assert(hex_value(t[2 * k as int + 1]) is None);
                    }
                }
                return None;
            },
        }
        k = k + 1;
    }
    proof {
        assert(out@ =~= hex_decode_spec(t)->0);
    }
    Some(out)
}

impl Wallet {
    /// A wallet from a key pair.
    fn from_keypair(kp: &Keypair) -> (r: Wallet)
        requires
            kp.wf(),
        ensures
            wallet_wf(r),
            r.secret_key@ == kp.secret@,
    {
        let address = kp.derive_address();
        let secret = kp.secret_bytes();
        let public = kp.public_bytes();
        let mut secret_key: Vec<u8> = Vec::new();
        let mut i: usize = 0;
        while i < 32
            invariant
                0 <= i <= 32,
                secret_key@ == secret@.subrange(0, i as int),
            decreases 32 - i,
        {
            secret_key.push(secret[i]);
            i = i + 1;
            assert(secret_key@ =~= secret@.subrange(0, i as int));
        }
        let mut public_key: Vec<u8> = Vec::new();
        let mut j: usize = 0;
        while j < 33
            invariant
                0 <= j <= 33,
                public_key@ == public@.subrange(0, j as int),
            decreases 33 - j,
        {
            public_key.push(public[j]);
            j = j + 1;
            assert(public_key@ =~= public@.subrange(0, j as int));
        }
        assert(secret_key@ =~= secret@);
        assert(public_key@ =~= public@);
        Wallet { secret_key, public_key, address }
    }

    /// A new wallet with a random key.
    pub fn create_wallet() -> (r: Result<Wallet, SdkError>)
        ensures
            r matches Ok(w) && wallet_wf(w),
    {
        let kp = Keypair::generate()?;
        Ok(Self::from_keypair(&kp))
    }

    /// The wallet of a secret key given in hexadecimal (64 characters of
    /// either case) or as 32 raw bytes; fails on anything else and on an
    /// invalid key. Both forms of one key give the same wallet.
    pub fn import_private_key(secret_bytes: &[u8]) -> (r: Result<Wallet, SdkError>)
        ensures
            r is Ok <==> (key_bytes_of(secret_bytes@).len() == 32 && secret_key_valid(key_bytes_of(secret_bytes@))),
            r matches Ok(w) ==> wallet_wf(w) && w.secret_key@ == key_bytes_of(secret_bytes@),
            r matches Err(e) ==> e is CryptoError,
    {
        if secret_bytes.len() == 64 {
            match decode_hex_key(secret_bytes) {
                Some(key) => {
                    let kp = Keypair::from_secret_bytes(key.as_slice())?;
                    return Ok(Self::from_keypair(&kp));
                },
                None => {},
            }
        }
        let kp = Keypair::from_secret_bytes(secret_bytes)?;
        Ok(Self::from_keypair(&kp))
    }

    /// The secret key in lowercase hexadecimal.
    pub fn export_private_key_hex(&self) -> (r: String)
        ensures
            r@ == hex_spec(self.secret_key@),
    {
        hex_encode(self.secret_key.as_slice())
    }

    /// Signs `tx` with the wallet's key; fails when the stored secret key is
    /// not a valid 32-byte key.
    pub fn sign_transaction(&self, tx: &mut Transaction) -> (r: Result<(), SdkError>)
        ensures
            r is Ok <==> (self.secret_key@.len() == 32 && secret_key_valid(self.secret_key@)),
            r is Err ==> *final(tx) == *old(tx),
            r is Ok ==> final(tx).from == old(tx).from && final(tx).payload == old(tx).payload
                && final(tx).nonce == old(tx).nonce && final(tx).gas_limit == old(tx).gas_limit
                && final(tx).gas_price == old(tx).gas_price
                && final(tx).signature.data@ == sign_spec(tx_hash_spec(*old(tx)), self.secret_key@)
                && final(tx).signature.algorithm == CryptoAlgorithm::Secp256k1
                && final(tx).signature.data@.len() == 65
                && recovered_key(*final(tx)) == Some(public_key_spec(self.secret_key@)),
            r matches Err(e) ==> e is CryptoError,
    {
        let kp = Keypair::from_secret_bytes(self.secret_key.as_slice())?;
        match tx.sign(&kp.secret) {
            Ok(()) => Ok(()),
            Err(e) => Err(SdkError::TransactionError(e)),
        }
    }

    /// The wallet's address.
    pub fn derive_address(&self) -> (r: Address)
        ensures
            r == self.address,
    {
        self.address
    }
}

/// A transaction from a wallet's address, with positive gas limit, gas
/// price and (for a transfer) amount, passes basic validation once the
/// wallet has signed it.
pub proof fn lemma_wallet_signed_tx_validates(w: Wallet, before: Transaction, after: Transaction)
    requires
        wallet_wf(w),
        before.from == w.address,
        tx_basic_checks_pass(before),
        after.from == before.from,
        after.payload == before.payload,
        after.gas_limit == before.gas_limit,
        after.gas_price == before.gas_price,
        recovered_key(after) == Some(public_key_spec(w.secret_key@)),
    ensures
        tx_valid_basic(after),
{
}

/// A hexadecimal digit survives being written as a byte and read back.
proof fn lemma_digit_byte(n: u8)
    requires
        n < 16,
    ensures
        ((hex_digit(n) as u8) as char) == hex_digit(n),
{
}

/// Exporting a secret key as hexadecimal and importing the text's bytes
/// gives the same key back.
pub proof fn lemma_export_import_round_trip(k: Seq<u8>)
    requires
        k.len() == 32,
    ensures
        key_bytes_of(hex_spec(k).map_values(|c: char| c as u8)) == k,
{
    lemma_hex_spec_shape(k);
    lemma_hex_round_trip(k);
    let h = hex_spec(k);
    let bytes = h.map_values(|c: char| c as u8);
    assert forall|i: int| 0 <= i < h.len() implies #[trigger] as_chars(bytes)[i] == h[i] by {
        let j = i / 2;
        assert(0 <= j < k.len());
        if i % 2 == 0 {
            assert(i == 2 * j);
            lemma_digit_byte(k[j] / 16);
        } else {
            assert(i == 2 * j + 1);
            lemma_digit_byte(k[j] % 16);
        }
    }
    assert(as_chars(bytes) =~= h);
}

} // verus!
