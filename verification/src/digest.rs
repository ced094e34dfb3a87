//! Digests.
use crate::text;
use crate::text::{hex_digit, is_hex, is_hex_digit};
use sha2::Digest;
use std::hash::{BuildHasher, BuildHasherDefault, DefaultHasher};
use vstd::prelude::*;

verus! {

/// The SHA-256 digest of a row of bytes.
pub uninterp spec fn sha256_of(bytes: Seq<u8>) -> Seq<u8>;

/// `sha2::Sha256::digest`, which gives thirty-two bytes.
#[verifier::external_body]
pub(crate) fn sha256(bytes: &Vec<u8>) -> (r: Vec<u8>)
    ensures
        r@ == sha256_of(bytes@),
        r@.len() == 32,
{
    sha2::Sha256::digest(bytes).to_vec()
}

/// The number that the default hasher of std makes of a text.
pub uninterp spec fn text_hash(text: Seq<char>) -> u64;

/// `std::hash::BuildHasher::hash_one` with the default hasher, whose instances are all the
/// same. Nothing is said of the number but that equal texts have the same.
#[verifier::external_body]
pub(crate) fn hash_text(text: &str) -> (r: u64)
    ensures
        r == text_hash(text@),
{
    BuildHasherDefault::<DefaultHasher>::default().hash_one(text)
}

/// The last hexadecimal digits of a number.
pub open spec fn hex_digits(n: nat, width: nat) -> Seq<char>
    decreases width,
{
    if width == 0 {
        Seq::empty()
    } else {
        hex_digits(n / 16, (width - 1) as nat).push(hex_digit((n % 16) as int))
    }
}

/// Sixteen hexadecimal digits for a text.
pub open spec fn hash_key_of(text: Seq<char>) -> Seq<char> {
    hex_digits(text_hash(text) as nat, 16)
}

/// Sixteen hexadecimal digits for a text.
pub fn hash_key(text: &str) -> (r: String)
    ensures
        r@ == hash_key_of(text@),
{
    let n = hash_text(text);
    let mut digits: Vec<char> = Vec::new();
    let mut rest: u64 = n;
    let mut i: usize = 0;
    while i < 16
        invariant
            i <= 16,
            digits@.len() == i,
            hex_digits(rest as nat, (16 - i) as nat) + digits@ == hex_digits(n as nat, 16),
        decreases 16 - i,
    {
        let ghost before = digits@;
        let digit = text::hex_char((rest % 16) as u8);
        digits.insert(0, digit);
        proof {
            let head = hex_digits((rest / 16) as nat, (16 - i - 1) as nat);
            assert(hex_digits(rest as nat, (16 - i) as nat) + before =~= head + digits@);
        }
        rest = rest / 16;
        i = i + 1;
    }
    assert(hex_digits(rest as nat, 0) + digits@ =~= digits@);
    let len: usize = digits.len();
    let r = text::string_of(&digits, 0, len);
    assert(digits@.subrange(0, len as int) =~= digits@);
    r
}

/// Such a key has as many digits as asked for, and all are hexadecimal.
pub proof fn hash_keys_are_hexadecimal(n: nat, width: nat)
    ensures
        hex_digits(n, width).len() == width,
        is_hex(hex_digits(n, width)),
    decreases width,
{
    if width > 0 {
        let front = hex_digits(n / 16, (width - 1) as nat);
        hash_keys_are_hexadecimal(n / 16, (width - 1) as nat);
        assert forall|i: int| 0 <= i < width implies is_hex_digit(
            #[trigger] hex_digits(n, width)[i],
        ) by {
            if i < width - 1 {
                assert(hex_digits(n, width)[i] == front[i]);
            }
        }
    }
}

} // verus!
