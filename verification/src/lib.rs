//! A minimal feed-forward digit classifier, split along what can be proved.
//!
//! Network scalars are IEEE 754 binary32 values.  The verifier does not
//! reason about their arithmetic, so this crate models each scalar by its
//! 32-bit pattern (`u32`) and owns everything structural about the network:
//! tensor shapes and their invariants, finiteness checking, the persisted
//! text format with its round-trip law, the ASCII-art adapter, one-hot
//! label encoding, and class selection.  The floating-point kernels
//! (forward pass, backpropagation, random initialization) live with the
//! binary that drives them and exchange plain bit patterns with this crate.

pub mod ascii;
pub mod labels;
pub mod params;
pub mod persist;
pub mod scalar;
