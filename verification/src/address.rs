//! The textual form of addresses: `cyt` followed by the 20 address bytes in
//! hexadecimal.
use vstd::prelude::*;
use vstd::string::StrSliceExecFns;
use vstd::string::StringExecFns;
use crate::hashing::{Address, hex_digit, hex_encode, hex_spec};

verus! {

/// The prefix of every address in text.
pub open spec fn address_prefix() -> Seq<char> {
    seq!['c', 'y', 't']
}

/// The value of a hexadecimal digit of either case.
pub open spec fn hex_value(c: char) -> Option<u8> {
    let v = c as int;
    if 48 <= v <= 57 {
        Some((v - 48) as u8)
    } else if 97 <= v <= 102 {
        Some((v - 87) as u8)
    } else if 65 <= v <= 70 {
        Some((v - 55) as u8)
    } else {
        None
    }
}

/// Hexadecimal decoding of either case, two digits per byte, high nibble
/// first; `None` for an odd length or a character that is not a digit.
pub open spec fn hex_decode_spec(s: Seq<char>) -> Option<Seq<u8>> {
    if s.len() % 2 != 0 || exists|i: int| 0 <= i < s.len() && (#[trigger] hex_value(s[i])) is None {
        None
    } else {
        Some(Seq::new(s.len() / 2, |k: int| (hex_value(s[2 * k])->0 * 16 + hex_value(s[2 * k + 1])->0) as u8))
    }
}

/// Calls `hex::decode`, which accepts an even number of hexadecimal digits
/// of either case and gives one byte per pair, high nibble first; any other
/// input is an error (here `None`). A character outside ASCII is never a
/// digit, so deciding on characters or on their UTF-8 bytes agrees.
#[verifier::external_body]
pub(crate) fn hex_decode(s: &str) -> (r: Option<Vec<u8>>)
    ensures
        match r {
            Some(v) => hex_decode_spec(s@) == Some(v@),
            None => hex_decode_spec(s@) is None,
        },
{
    hex::decode(s).ok()
}

/// Why a text is not an address.
#[derive(Debug, Clone, Copy, PartialEq, Eq, Structural)]
pub enum AddressError {
    /// It does not start with `cyt`.
    MissingPrefix,
    /// What follows the prefix is not hexadecimal.
    InvalidHex,
    /// What follows the prefix does not decode to 20 bytes.
    InvalidLength,
}

/// The address a text denotes, as bytes, or why it denotes none.
pub open spec fn parsed_address(s: Seq<char>) -> Result<Seq<u8>, AddressError> {
    if s.len() < 3 || s.subrange(0, 3) != address_prefix() {
        Err(AddressError::MissingPrefix)
    } else {
        match hex_decode_spec(s.subrange(3, s.len() as int)) {
            None => Err(AddressError::InvalidHex),
            Some(b) => if b.len() != 20 { Err(AddressError::InvalidLength) } else { Ok(b) },
        }
    }
}

/// The text of an address: `cyt` and its bytes in lower-case hexadecimal.
pub fn format_address(address: Address) -> (r: String)
    ensures
        r@ == address_prefix() + hex_spec(address@),
{
    let mut s = String::from_str("cyt");
    let digits = hex_encode(&address);
    s.append(digits.as_str());
    proof {
        reveal_strlit("cyt");
    }
    s
}

/// The address a text denotes: `cyt` followed by 40 hexadecimal digits.
pub fn parse_address(s: &str) -> (r: Result<Address, AddressError>)
    ensures
        match r {
            Ok(a) => parsed_address(s@) == Ok::<Seq<u8>, AddressError>(a@),
            Err(e) => parsed_address(s@) == Err::<Seq<u8>, AddressError>(e),
        },
{
    let n = s.unicode_len();
    if n < 3 || s.get_char(0) != 'c' || s.get_char(1) != 'y' || s.get_char(2) != 't' {
        proof {
            if s@.len() >= 3 && s@.subrange(0, 3) == address_prefix() {
                assert(s@[0] == s@.subrange(0, 3)[0]);
                assert(s@[1] == s@.subrange(0, 3)[1]);
                assert(s@[2] == s@.subrange(0, 3)[2]);
            }
        }
        return Err(AddressError::MissingPrefix);
    }
    proof {
        assert(s@.subrange(0, 3) =~= address_prefix());
    }
    let rest = s.substring_char(3, n);
    match hex_decode(rest) {
        None => Err(AddressError::InvalidHex),
        Some(bytes) => {
            if bytes.len() != 20 {
                return Err(AddressError::InvalidLength);
            }
            let mut a: Address = [0u8; 20];
            let mut i: usize = 0;
            while i < 20
                invariant
                    0 <= i <= 20,
                    bytes@.len() == 20,
                    forall|j: int| 0 <= j < i ==> a@[j] == bytes@[j],
                decreases 20 - i,
            {
                a[i] = bytes[i];
                i = i + 1;
            }
            proof {
                assert(a@ =~= bytes@);
            }
            Ok(a)
        },
    }
}

proof fn lemma_hex_value_of_digit(n: u8)
    requires
        n < 16,
    ensures
        hex_value(hex_digit(n)) == Some(n),
{
}

pub proof fn lemma_hex_spec_shape(b: Seq<u8>)
    ensures
        hex_spec(b).len() == 2 * b.len(),
        forall|k: int| 0 <= k < b.len() ==> hex_spec(b)[2 * k] == hex_digit(#[trigger] b[k] / 16)
            && hex_spec(b)[2 * k + 1] == hex_digit(b[k] % 16),
    decreases b.len(),
{
    if b.len() > 0 {
        lemma_hex_spec_shape(b.drop_last());
        let h = hex_spec(b.drop_last());
        assert forall|k: int| 0 <= k < b.len() implies hex_spec(b)[2 * k] == hex_digit(#[trigger] b[k] / 16)
            && hex_spec(b)[2 * k + 1] == hex_digit(b[k] % 16) by {
            if k < b.len() - 1 {
                assert(b.drop_last()[k] == b[k]);
            }
        }
    }
}

/// Hexadecimal decoding undoes the encoding.
pub proof fn lemma_hex_round_trip(b: Seq<u8>)
    ensures
        hex_decode_spec(hex_spec(b)) == Some(b),
{
    lemma_hex_spec_shape(b);
    let h = hex_spec(b);
    assert forall|i: int| 0 <= i < h.len() implies (#[trigger] hex_value(h[i])) is Some by {
        let k = i / 2;
        assert(0 <= k < b.len());
        assert(b[k] / 16 < 16 && b[k] % 16 < 16);
        lemma_hex_value_of_digit((b[k] / 16) as u8);
        lemma_hex_value_of_digit((b[k] % 16) as u8);
        if i % 2 == 0 {
            assert(i == 2 * k);
        } else {
            assert(i == 2 * k + 1);
        }
    }
    let d = Seq::new(h.len() / 2, |k: int| (hex_value(h[2 * k])->0 * 16 + hex_value(h[2 * k + 1])->0) as u8);
    assert forall|k: int| 0 <= k < b.len() implies d[k] == b[k] by {
        lemma_hex_value_of_digit((b[k] / 16) as u8);
        lemma_hex_value_of_digit((b[k] % 16) as u8);
    }
    assert(d =~= b);
}

/// An address read back from its text is the same address.
pub proof fn lemma_address_round_trip(a: Address)
    ensures
        parsed_address(address_prefix() + hex_spec(a@)) == Ok::<Seq<u8>, AddressError>(a@),
{
    let s = address_prefix() + hex_spec(a@);
    lemma_hex_round_trip(a@);
    assert(s.subrange(0, 3) =~= address_prefix());
    assert(s.subrange(3, s.len() as int) =~= hex_spec(a@));
}

} // verus!
