//! The decrypt-then-decide pipeline: decode the transport encoding, decrypt,
//! read the plaintext as a decimal amount, and decide the discount.
//!
//! Every stage may refuse its input; each refusal is reported by kind and
//! downgraded to "no discount", never to a failure of the whole evaluation.

use vstd::prelude::*;
use vstd::utf8::{decode_utf8, encode_utf8_decode_utf8, encode_utf8_valid_utf8, valid_utf8};

use crate::amount::{
    lemma_val_eq_gt, parse_amount, parse_number_spec, val_eq, val_gt, Amount, AmountModel,
};
use crate::cipher::{aes128_cbc_decrypt, aes128_cbc_decrypt_of, aes128_cbc_encrypt, BLOCK_SIZE};
use crate::codec::{
    base64_decode, base64_decode_of, base64_encode, bytes_to_string, hex_decode, hex_decode_spec,
};
use crate::discount::{decide, descriptor_matches, ApplicationStrategy, DiscountRule, RunResult};

verus! {

/// Kinds of failure the pipeline can report. Every failure is downgraded to
/// "no discount" by `run`; the kind records which stage refused the input.
#[derive(Clone, Copy, Debug, PartialEq, Eq, Structural)]
pub enum PipelineError {
    /// Malformed base64 ciphertext, or malformed hex key or IV.
    DecodeError,
    /// Wrong key or IV length, a ciphertext that is not whole blocks, or
    /// invalid padding after decryption (wrong key or tampered data).
    CryptoError,
    /// The decrypted bytes are not valid text.
    EncodingError,
    /// The decrypted text is not a decimal number.
    ParseError,
}

/// What decoding and decrypting an attribute yields: the decrypted text, or
/// the kind of the first stage that refuses.
pub open spec fn pipeline_spec(enc: Seq<char>, key_hex: Seq<char>, iv_hex: Seq<char>) -> Result<
    Seq<char>,
    PipelineError,
> {
    match base64_decode_of(enc) {
        Option::None => Result::Err(PipelineError::DecodeError),
        Option::Some(ct) => match hex_decode_spec(key_hex) {
            Option::None => Result::Err(PipelineError::DecodeError),
            Option::Some(key) => match hex_decode_spec(iv_hex) {
                Option::None => Result::Err(PipelineError::DecodeError),
                Option::Some(iv) => if key.len() != BLOCK_SIZE || iv.len() != BLOCK_SIZE {
                    Result::Err(PipelineError::CryptoError)
                } else {
                    match aes128_cbc_decrypt_of(key, iv, ct) {
                        Option::None => Result::Err(PipelineError::CryptoError),
                        Option::Some(pt) => if valid_utf8(pt) {
                            Result::Ok(decode_utf8(pt))
                        } else {
                            Result::Err(PipelineError::EncodingError)
                        },
                    }
                },
            },
        },
    }
}

/// Decodes a base64 ciphertext and hex key and IV, decrypts with
/// AES-128-CBC, strips the padding, and returns the plaintext as text.
pub fn decrypt_aes_128_cbc_base64(encrypted_base64: &str, key_hex: &str, iv_hex: &str) -> (r:
    Result<String, PipelineError>)
    ensures
        r matches Ok(s) ==> pipeline_spec(encrypted_base64@, key_hex@, iv_hex@) matches Ok(t)
            && s@ == t,
        r matches Err(e) ==> pipeline_spec(encrypted_base64@, key_hex@, iv_hex@) matches Err(e2)
            && e == e2,
{
    let ct = match base64_decode(encrypted_base64) {
        Some(v) => v,
        None => {
            return Err(PipelineError::DecodeError);
        },
    };
    let key = match hex_decode(key_hex) {
        Some(v) => v,
        None => {
            return Err(PipelineError::DecodeError);
        },
    };
    let iv = match hex_decode(iv_hex) {
        Some(v) => v,
        None => {
            return Err(PipelineError::DecodeError);
        },
    };
    if key.len() != BLOCK_SIZE || iv.len() != BLOCK_SIZE {
        return Err(PipelineError::CryptoError);
    }
    let pt = match aes128_cbc_decrypt(key.as_slice(), iv.as_slice(), ct.as_slice()) {
        Some(v) => v,
        None => {
            return Err(PipelineError::CryptoError);
        },
    };
    let ghost ptv = pt@;
    match bytes_to_string(pt) {
        Some(s) => Ok(s),
        None => Err(PipelineError::EncodingError),
    }
}

/// The key and IV decode as hex to one cipher block each.
pub open spec fn config_ok(key_hex: Seq<char>, iv_hex: Seq<char>) -> bool {
    &&& hex_decode_spec(key_hex) matches Some(kb) && kb.len() == BLOCK_SIZE
    &&& hex_decode_spec(iv_hex) matches Some(ib) && ib.len() == BLOCK_SIZE
}

/// Encrypts a plaintext the way `decrypt_aes_128_cbc_base64` undoes: under a
/// well-formed key and IV, decoding and decrypting the returned string gives
/// back exactly the plaintext.
pub fn encrypt_aes_128_cbc_base64(plaintext: &str, key_hex: &str, iv_hex: &str) -> (r: Result<
    String,
    PipelineError,
>)
    ensures
        r matches Ok(enc) ==> pipeline_spec(enc@, key_hex@, iv_hex@) == Result::<
            Seq<char>,
            PipelineError,
        >::Ok(plaintext@),
        config_ok(key_hex@, iv_hex@) ==> r is Ok,
        hex_decode_spec(key_hex@) is None || hex_decode_spec(iv_hex@) is None ==> r == Result::<
            String,
            PipelineError,
        >::Err(PipelineError::DecodeError),
        !(hex_decode_spec(key_hex@) is None || hex_decode_spec(iv_hex@) is None) && !config_ok(
            key_hex@,
            iv_hex@,
        ) ==> r == Result::<String, PipelineError>::Err(PipelineError::CryptoError),
{
    let key = match hex_decode(key_hex) {
        Some(v) => v,
        None => {
            return Err(PipelineError::DecodeError);
        },
    };
    let iv = match hex_decode(iv_hex) {
        Some(v) => v,
        None => {
            return Err(PipelineError::DecodeError);
        },
    };
    if key.len() != BLOCK_SIZE || iv.len() != BLOCK_SIZE {
        return Err(PipelineError::CryptoError);
    }
    let ptb = plaintext.as_bytes();
    let ct = match aes128_cbc_encrypt(key.as_slice(), iv.as_slice(), ptb) {
        Some(v) => v,
        None => {
            return Err(PipelineError::CryptoError);
        },
    };
    let enc = base64_encode(ct.as_slice());
    proof {
        encode_utf8_valid_utf8(plaintext@);
        encode_utf8_decode_utf8(plaintext@);
    }
    Ok(enc)
}

/// The view of an optional attribute string.
pub open spec fn attr_view(attribute: Option<&str>) -> Option<Seq<char>> {
    match attribute {
        Option::None => Option::None,
        Option::Some(s) => Option::Some(s@),
    }
}

/// The amount an attribute carries, when every stage accepts it.
pub open spec fn recovered_amount_spec(
    attr: Option<Seq<char>>,
    key_hex: Seq<char>,
    iv_hex: Seq<char>,
) -> Option<AmountModel> {
    match attr {
        Option::None => Option::None,
        Option::Some(enc) => match pipeline_spec(enc, key_hex, iv_hex) {
            Result::Err(_) => Option::None,
            Result::Ok(txt) => parse_number_spec(txt),
        },
    }
}

/// Recovers the amount carried by an attribute, or says which stage refused:
/// decoding, decryption, the text check, or the number grammar.
pub fn recover_amount(encrypted_base64: &str, key_hex: &str, iv_hex: &str) -> (r: Result<
    Amount,
    PipelineError,
>)
    ensures
        match pipeline_spec(encrypted_base64@, key_hex@, iv_hex@) {
            Result::Err(e) => r matches Err(e2) && e2 == e,
            Result::Ok(txt) => match parse_number_spec(txt) {
                Option::None => r == Result::<Amount, PipelineError>::Err(
                    PipelineError::ParseError,
                ),
                Option::Some(m) => r matches Ok(a) && a@.wf() && val_eq(a@, m),
            },
        },
{
    let decrypted = match decrypt_aes_128_cbc_base64(encrypted_base64, key_hex, iv_hex) {
        Ok(s) => s,
        Err(e) => {
            return Err(e);
        },
    };
    match parse_amount(decrypted.as_str()) {
        Some(a) => Ok(a),
        None => Err(PipelineError::ParseError),
    }
}

/// One whole evaluation: recover the amount from the optional cart attribute
/// and decide the discount against the configured rule. Total: every failure
/// along the way yields the empty result, never an error.
pub fn run(attribute: Option<&str>, key_hex: &str, iv_hex: &str, rule: &DiscountRule) -> (r:
    RunResult)
    requires
        rule.threshold@.wf(),
    ensures
        r.discount_application_strategy == ApplicationStrategy::First,
        attribute is None ==> r.discounts@.len() == 0,
        match recovered_amount_spec(attr_view(attribute), key_hex@, iv_hex@) {
            Option::None => r.discounts@.len() == 0,
            Option::Some(m) => if val_gt(m, rule.threshold@) {
                r.discounts@.len() == 1 && descriptor_matches(r.discounts@[0], *rule)
            } else {
                r.discounts@.len() == 0
            },
        },
{
    match attribute {
        None => decide(None, rule),
        Some(enc) => match recover_amount(enc, key_hex, iv_hex) {
            Ok(a) => {
                proof {
                    let ps = pipeline_spec(enc@, key_hex@, iv_hex@);
                    if ps is Ok {
                        let m = parse_number_spec(ps->Ok_0);
                        if m is Some {
                            lemma_val_eq_gt(a@, m->Some_0, rule.threshold@);
                        }
                    }
                }
                decide(Some(&a), rule)
            },
            Err(_) => decide(None, rule),
        },
    }
}

} // verus!
