use aes::Aes128;
use block_modes::block_padding::Pkcs7;
use block_modes::{BlockMode, Cbc};

use order_discount::{
    decide, decrypt_aes_128_cbc_base64, encrypt_aes_128_cbc_base64, parse_amount, recover_amount,
    run, ApplicationStrategy, DiscountDescriptor, DiscountRule, DiscountTarget, DiscountValue,
    PipelineError, RunResult,
};

const KEY_HEX: &str = "000102030405060708090a0b0c0d0e0f";
const IV_HEX: &str = "101112131415161718191a1b1c1d1e1f";

fn reference_rule() -> DiscountRule {
    DiscountRule {
        threshold: parse_amount("2000.0").unwrap(),
        percentage: parse_amount("10.0").unwrap(),
        message: "Minimum spend".to_string(),
    }
}

fn empty_result() -> RunResult {
    RunResult {
        discounts: vec![],
        discount_application_strategy: ApplicationStrategy::First,
    }
}

fn encrypt(plaintext: &str) -> String {
    encrypt_aes_128_cbc_base64(plaintext, KEY_HEX, IV_HEX).unwrap()
}

#[test]
fn test_result_contains_no_discounts() {
    let result = run(None, KEY_HEX, IV_HEX, &reference_rule());
    let expected = empty_result();
    assert_eq!(result, expected);
}

#[test]
fn absent_attribute_gives_empty_result() {
    let result = run(None, KEY_HEX, IV_HEX, &reference_rule());
    assert!(result.discounts.is_empty());
    assert_eq!(
        result.discount_application_strategy,
        ApplicationStrategy::First
    );
}

#[test]
fn garbage_attribute_fails_decryption_and_gives_empty_result() {
    // Valid base64 of bytes that are not whole cipher blocks.
    let attr = base64::encode("garbage");
    assert_eq!(
        recover_amount(&attr, KEY_HEX, IV_HEX),
        Err(PipelineError::CryptoError)
    );
    let result = run(Some(&attr), KEY_HEX, IV_HEX, &reference_rule());
    assert_eq!(result, empty_result());
}

#[test]
fn amount_above_threshold_gives_one_discount() {
    let attr = encrypt("2500.00");
    let result = run(Some(&attr), KEY_HEX, IV_HEX, &reference_rule());
    let expected = RunResult {
        discounts: vec![DiscountDescriptor {
            value: DiscountValue::Percentage(parse_amount("10").unwrap()),
            targets: vec![DiscountTarget::OrderSubtotal {
                excluded_variant_ids: vec![],
            }],
            message: Some("Minimum spend".to_string()),
            conditions: vec![],
        }],
        discount_application_strategy: ApplicationStrategy::First,
    };
    assert_eq!(result, expected);
}

#[test]
fn amount_below_threshold_gives_empty_result() {
    let attr = encrypt("1999.99");
    let result = run(Some(&attr), KEY_HEX, IV_HEX, &reference_rule());
    assert_eq!(result, empty_result());
}

#[test]
fn amount_at_threshold_gives_empty_result() {
    let attr = encrypt("2000.0");
    let result = run(Some(&attr), KEY_HEX, IV_HEX, &reference_rule());
    assert_eq!(result, empty_result());
    let attr2 = encrypt("2000");
    let result2 = run(Some(&attr2), KEY_HEX, IV_HEX, &reference_rule());
    assert_eq!(result2, empty_result());
}

#[test]
fn round_trip_decrypts_to_the_plaintext() {
    for text in ["2500.00", "hello world", "", "héllo ünïcode ✓"] {
        let enc = encrypt(text);
        let dec = decrypt_aes_128_cbc_base64(&enc, KEY_HEX, IV_HEX).unwrap();
        assert_eq!(dec, text);
    }
}

#[test]
fn malformed_base64_gives_decode_error_and_empty_result() {
    let attr = "!!!not base64!!!";
    assert_eq!(
        recover_amount(attr, KEY_HEX, IV_HEX),
        Err(PipelineError::DecodeError)
    );
    let result = run(Some(attr), KEY_HEX, IV_HEX, &reference_rule());
    assert_eq!(result, empty_result());
}

#[test]
fn malformed_hex_key_gives_decode_error() {
    let attr = encrypt("2500.00");
    // Not hex digits.
    assert_eq!(
        recover_amount(&attr, "zz0102030405060708090a0b0c0d0e0f", IV_HEX),
        Err(PipelineError::DecodeError)
    );
    // Odd length.
    assert_eq!(
        recover_amount(&attr, "abc", IV_HEX),
        Err(PipelineError::DecodeError)
    );
    // Malformed IV too.
    assert_eq!(
        recover_amount(&attr, KEY_HEX, "0g"),
        Err(PipelineError::DecodeError)
    );
    let result = run(Some(&attr), "abc", IV_HEX, &reference_rule());
    assert_eq!(result, empty_result());
}

#[test]
fn wrong_length_key_gives_crypto_error() {
    let attr = encrypt("2500.00");
    // Valid hex, but eight bytes instead of sixteen.
    assert_eq!(
        recover_amount(&attr, "0001020304050607", IV_HEX),
        Err(PipelineError::CryptoError)
    );
    assert_eq!(
        recover_amount(&attr, KEY_HEX, "1011121314151617"),
        Err(PipelineError::CryptoError)
    );
    let result = run(Some(&attr), "0001020304050607", IV_HEX, &reference_rule());
    assert_eq!(result, empty_result());
}

#[test]
fn corrupted_ciphertext_gives_crypto_error_and_empty_result() {
    // A ciphertext cut short is no longer whole blocks.
    let enc = encrypt("2500.00");
    let ct = base64::decode(&enc).unwrap();
    let cut = base64::encode(&ct[..ct.len() - 1]);
    assert_eq!(
        recover_amount(&cut, KEY_HEX, IV_HEX),
        Err(PipelineError::CryptoError)
    );
    let result = run(Some(&cut), KEY_HEX, IV_HEX, &reference_rule());
    assert_eq!(result, empty_result());
}

#[test]
fn wrong_key_fails_the_padding_check() {
    // Decrypting under a different key than the one that encrypted must not
    // yield a discount; the padding check refuses it.
    let other_key = "ffeeddccbbaa99887766554433221100";
    let attr = encrypt("2500.00");
    let r = recover_amount(&attr, other_key, IV_HEX);
    assert!(r.is_err());
    let result = run(Some(&attr), other_key, IV_HEX, &reference_rule());
    assert_eq!(result, empty_result());
}

#[test]
fn non_numeric_plaintext_gives_parse_error_and_empty_result() {
    let attr = encrypt("hello");
    assert_eq!(
        recover_amount(&attr, KEY_HEX, IV_HEX),
        Err(PipelineError::ParseError)
    );
    let result = run(Some(&attr), KEY_HEX, IV_HEX, &reference_rule());
    assert_eq!(result, empty_result());
}

#[test]
fn non_text_plaintext_gives_encoding_error_and_empty_result() {
    // Encrypt bytes that are not valid text; the library only encrypts
    // strings, so drive the cipher directly.
    let key = hex::decode(KEY_HEX).unwrap();
    let iv = hex::decode(IV_HEX).unwrap();
    let cipher = Cbc::<Aes128, Pkcs7>::new_from_slices(&key, &iv).unwrap();
    let ct = cipher.encrypt_vec(&[0xff, 0xfe, 0x00, 0x80]);
    let attr = base64::encode(&ct);
    assert_eq!(
        recover_amount(&attr, KEY_HEX, IV_HEX),
        Err(PipelineError::EncodingError)
    );
    let result = run(Some(&attr), KEY_HEX, IV_HEX, &reference_rule());
    assert_eq!(result, empty_result());
}

#[test]
fn decide_emits_the_configured_discount() {
    let rule = reference_rule();
    let above = parse_amount("2000.01").unwrap();
    let r = decide(Some(&above), &rule);
    assert_eq!(r.discounts.len(), 1);
    assert_eq!(
        r.discounts[0].value,
        DiscountValue::Percentage(parse_amount("10").unwrap())
    );
    assert_eq!(r.discounts[0].message, Some("Minimum spend".to_string()));
    assert!(r.discounts[0].conditions.is_empty());
    assert_eq!(
        r.discounts[0].targets,
        vec![DiscountTarget::OrderSubtotal {
            excluded_variant_ids: vec![],
        }]
    );
    let below = parse_amount("2000").unwrap();
    assert_eq!(decide(Some(&below), &rule), empty_result());
    assert_eq!(decide(None, &rule), empty_result());
}
