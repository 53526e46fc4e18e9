//! An order-discount evaluation: a cart carries an encrypted total price; the
//! library decodes it, decrypts it, reads it as an exact decimal amount, and
//! emits a percentage discount when the amount exceeds a configured
//! threshold. Every malformed or tampered input is refused by kind and
//! answered with the empty result; the evaluation itself never fails.

pub mod amount;
pub mod cipher;
pub mod codec;
pub mod digits;
pub mod discount;
pub mod pipeline;

pub use amount::{parse_amount, Amount};
pub use discount::{
    decide, ApplicationStrategy, DiscountCondition, DiscountDescriptor, DiscountRule,
    DiscountTarget, DiscountValue, RunResult,
};
pub use pipeline::{
    decrypt_aes_128_cbc_base64, encrypt_aes_128_cbc_base64, recover_amount, run, PipelineError,
};
