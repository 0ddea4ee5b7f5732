//! A reversible multi-key XOR transform over byte buffers.
//!
//! `keys` turns a whitespace-separated key specification into a sequence of
//! non-zero byte keys, substituting random keys for unusable tokens and
//! reporting each substitution. `transform` folds every byte of a buffer
//! through such a key sequence, forwards to encrypt and backwards to decrypt.
pub mod keys;
pub mod transform;
