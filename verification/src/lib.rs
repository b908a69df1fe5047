//! Recovery of the key of a single-byte XOR cipher from hex-encoded
//! ciphertext of English prose.
//!
//! - [`hex`] decodes hexadecimal text into raw bytes.
//! - [`cipher`] applies the single-byte XOR transform.
//! - [`scorer`] scores a byte sequence by its likeness to English.
//! - [`partition`] splits the key space into ranges for parallel workers.
//! - [`search`] tries every key, in one scan or partition by partition, and
//!   reports the best-scoring one.
//!
//! Every function states what it returns in its contract, and the laws that
//! hold across functions are proved beside them: applying a key twice gives
//! the input back, the partitions cover every key exactly once, and a search
//! split over any number of workers reports what a single scan reports.

pub mod cipher;
pub mod hex;
pub mod partition;
pub mod scorer;
pub mod search;
