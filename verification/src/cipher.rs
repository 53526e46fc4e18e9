//! Block decryption: AES with a 128-bit key in cipher-block-chaining mode,
//! with PKCS#7 padding checked and removed on decryption.
//!
//! The cipher itself is outside code; the two trusted declarations here state
//! when it succeeds and that decryption inverts encryption under one key and
//! IV, which is what the rest of the library builds on.

use aes::Aes128;
use block_modes::block_padding::Pkcs7;
use block_modes::{BlockMode, Cbc};
use vstd::prelude::*;

verus! {

/// The key and block size of the cipher, in bytes.
pub const BLOCK_SIZE: usize = 16;

/// What AES-128-CBC decryption with PKCS#7 unpadding makes of a ciphertext
/// under a 16-byte key and IV: the plaintext, or nothing when the ciphertext
/// is not whole blocks or its decrypted padding is invalid. The result
/// depends on the three arguments alone.
pub uninterp spec fn aes128_cbc_decrypt_of(key: Seq<u8>, iv: Seq<u8>, ct: Seq<u8>) -> Option<
    Seq<u8>,
>;

/// Relies on `block_modes::Cbc::<Aes128, Pkcs7>`: `new_from_slices` accepts
/// exactly a 16-byte key and a 16-byte IV, and `decrypt_vec` fails exactly
/// when the ciphertext is not a whole number of blocks or the decrypted
/// padding is invalid.
#[verifier::external_body]
pub(crate) fn aes128_cbc_decrypt(key: &[u8], iv: &[u8], ct: &[u8]) -> (r: Option<Vec<u8>>)
    ensures
        key@.len() == BLOCK_SIZE && iv@.len() == BLOCK_SIZE ==> (r is Some) == (aes128_cbc_decrypt_of(
            key@,
            iv@,
            ct@,
        ) is Some),
        key@.len() == BLOCK_SIZE && iv@.len() == BLOCK_SIZE ==> (r matches Some(v) ==> Some(v@)
            == aes128_cbc_decrypt_of(key@, iv@, ct@)),
        !(key@.len() == BLOCK_SIZE && iv@.len() == BLOCK_SIZE) ==> r is None,
        ct@.len() % (BLOCK_SIZE as nat) != 0 ==> r is None,
{
    let cipher = Cbc::<Aes128, Pkcs7>::new_from_slices(key, iv).ok()?;
    cipher.decrypt_vec(ct).ok()
}

/// Relies on `block_modes::Cbc::<Aes128, Pkcs7>`: `encrypt_vec` pads the
/// plaintext and encrypts it, and `decrypt_vec` under the same key and IV
/// returns exactly the original plaintext.
#[verifier::external_body]
pub(crate) fn aes128_cbc_encrypt(key: &[u8], iv: &[u8], pt: &[u8]) -> (r: Option<Vec<u8>>)
    ensures
        (r is Some) == (key@.len() == BLOCK_SIZE && iv@.len() == BLOCK_SIZE),
        r matches Some(ct) ==> aes128_cbc_decrypt_of(key@, iv@, ct@) == Some(pt@),
{
    let cipher = Cbc::<Aes128, Pkcs7>::new_from_slices(key, iv).ok()?;
    Some(cipher.encrypt_vec(pt))
}

} // verus!
