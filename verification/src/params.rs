//! The parameter store: the four network tensors and their invariants.
//!
//! A store owns weight matrix 1 (`input_size x hidden_size`), weight
//! matrix 2 (`hidden_size x output_size`) and the two bias vectors
//! (`hidden_size` and `output_size` long), each flattened row-major into a
//! vector of binary32 bit patterns.  A well-formed store has positive
//! dimensions, consistent tensor lengths, and no non-finite element.
//! Constructors establish well-formedness; the training update preserves
//! it by refusing any replacement tensors that carry a non-finite value.

use vstd::prelude::*;

use crate::scalar::all_finite;
use crate::scalar::check_all_finite;
use crate::scalar::ZERO_BITS;

verus! {

/// The error kinds the library distinguishes.
#[derive(Clone, Copy, Debug, PartialEq, Eq, Structural)]
pub enum ModelError {
    /// Zero or mismatched tensor dimensions.
    Config,
    /// A non-finite value in inputs, gradients or parameters.
    Divergence,
    /// Persisted data that is malformed or shape-inconsistent.
    Format,
}

/// The four parameter tensors with their dimensions.
#[derive(Clone, Debug, PartialEq, Eq)]
pub struct ParamStore {
    pub input_size: usize,
    pub hidden_size: usize,
    pub output_size: usize,
    /// `input_size x hidden_size`, flattened row-major.
    pub weights1: Vec<u32>,
    /// `hidden_size x output_size`, flattened row-major.
    pub weights2: Vec<u32>,
    /// Length `hidden_size`.
    pub biases1: Vec<u32>,
    /// Length `output_size`.
    pub biases2: Vec<u32>,
}

/// All three requested dimensions are positive.
pub open spec fn dims_positive(input_size: usize, hidden_size: usize, output_size: usize) -> bool {
    input_size > 0 && hidden_size > 0 && output_size > 0
}

/// The four tensor lengths agree with the dimensions.
pub open spec fn lens_match(
    input_size: usize,
    hidden_size: usize,
    output_size: usize,
    w1: Seq<u32>,
    w2: Seq<u32>,
    b1: Seq<u32>,
    b2: Seq<u32>,
) -> bool {
    &&& w1.len() == input_size * hidden_size
    &&& w2.len() == hidden_size * output_size
    &&& b1.len() == hidden_size
    &&& b2.len() == output_size
}

/// No element of any of the four tensors is non-finite.
pub open spec fn tensors_finite(w1: Seq<u32>, w2: Seq<u32>, b1: Seq<u32>, b2: Seq<u32>) -> bool {
    all_finite(w1) && all_finite(w2) && all_finite(b1) && all_finite(b2)
}

impl ParamStore {
    /// Well-formedness: the invariant every store holds.
    pub open spec fn wf(self) -> bool {
        &&& dims_positive(self.input_size, self.hidden_size, self.output_size)
        &&& lens_match(
            self.input_size,
            self.hidden_size,
            self.output_size,
            self.weights1@,
            self.weights2@,
            self.biases1@,
            self.biases2@,
        )
        &&& tensors_finite(self.weights1@, self.weights2@, self.biases1@, self.biases2@)
    }

    /// Builds a store from four given tensors, as when a persisted model is
    /// reconstructed.  Succeeds exactly when the dimensions are positive,
    /// every tensor has the matching length, and every element is finite.
    pub fn from_parts(
        input_size: usize,
        hidden_size: usize,
        output_size: usize,
        weights1: Vec<u32>,
        weights2: Vec<u32>,
        biases1: Vec<u32>,
        biases2: Vec<u32>,
    ) -> (r: Result<ParamStore, ModelError>)
        ensures
            match r {
                Ok(s) => {
                    &&& s.wf()
                    &&& s.input_size == input_size
                    &&& s.hidden_size == hidden_size
                    &&& s.output_size == output_size
                    &&& s.weights1@ == weights1@
                    &&& s.weights2@ == weights2@
                    &&& s.biases1@ == biases1@
                    &&& s.biases2@ == biases2@
                    &&& dims_positive(input_size, hidden_size, output_size)
                    &&& lens_match(
                        input_size,
                        hidden_size,
                        output_size,
                        weights1@,
                        weights2@,
                        biases1@,
                        biases2@,
                    )
                    &&& tensors_finite(weights1@, weights2@, biases1@, biases2@)
                },
                Err(e) => {
                    &&& (e == ModelError::Config <==> !(dims_positive(
                        input_size,
                        hidden_size,
                        output_size,
                    ) && lens_match(
                        input_size,
                        hidden_size,
                        output_size,
                        weights1@,
                        weights2@,
                        biases1@,
                        biases2@,
                    )))
                    &&& (e == ModelError::Config || e == ModelError::Divergence)
                    &&& (e == ModelError::Divergence ==> !tensors_finite(
                        weights1@,
                        weights2@,
                        biases1@,
                        biases2@,
                    ))
                },
            },
            (r is Ok) <==> dims_positive(input_size, hidden_size, output_size) && lens_match(
                input_size,
                hidden_size,
                output_size,
                weights1@,
                weights2@,
                biases1@,
                biases2@,
            ) && tensors_finite(weights1@, weights2@, biases1@, biases2@),
    {
        if input_size == 0 || hidden_size == 0 || output_size == 0 {
            return Err(ModelError::Config);
        }
        let l1 = weights1.len();
        let l2 = weights2.len();
        let w1_len = match input_size.checked_mul(hidden_size) {
            Some(n) => n,
            None => {
                // The product exceeds what any vector can hold, so the
                // given tensor cannot have the matching length.
                assert(l1 < input_size * hidden_size);
                return Err(ModelError::Config);
            },
        };
        let w2_len = match hidden_size.checked_mul(output_size) {
            Some(n) => n,
            None => {
                assert(l2 < hidden_size * output_size);
                return Err(ModelError::Config);
            },
        };
        if l1 != w1_len || l2 != w2_len || biases1.len() != hidden_size
            || biases2.len() != output_size {
            return Err(ModelError::Config);
        }
        if !check_all_finite(&weights1) || !check_all_finite(&weights2)
            || !check_all_finite(&biases1) || !check_all_finite(&biases2) {
            return Err(ModelError::Divergence);
        }
        Ok(ParamStore {
            input_size,
            hidden_size,
            output_size,
            weights1,
            weights2,
            biases1,
            biases2,
        })
    }

    /// Creates a freshly initialized store: the caller supplies the two
    /// sampled weight tensors, and both bias vectors start as all zeros.
    /// Succeeds exactly when the dimensions are positive, the weight
    /// tensors have the matching lengths, and their samples are finite.
    pub fn create(
        input_size: usize,
        hidden_size: usize,
        output_size: usize,
        weights1: Vec<u32>,
        weights2: Vec<u32>,
    ) -> (r: Result<ParamStore, ModelError>)
        ensures
            match r {
                Ok(s) => {
                    &&& s.wf()
                    &&& s.input_size == input_size
                    &&& s.hidden_size == hidden_size
                    &&& s.output_size == output_size
                    &&& s.weights1@ == weights1@
                    &&& s.weights2@ == weights2@
                    &&& s.biases1@.len() == hidden_size
                    &&& s.biases2@.len() == output_size
                    &&& forall|i: int| 0 <= i < s.biases1@.len() ==> s.biases1@[i] == 0u32
                    &&& forall|i: int| 0 <= i < s.biases2@.len() ==> s.biases2@[i] == 0u32
                },
                Err(e) => {
                    &&& (e == ModelError::Config <==> !(dims_positive(
                        input_size,
                        hidden_size,
                        output_size,
                    ) && weights1@.len() == input_size * hidden_size && weights2@.len()
                        == hidden_size * output_size))
                    &&& (e == ModelError::Config || e == ModelError::Divergence)
                },
            },
            (r is Ok) <==> dims_positive(input_size, hidden_size, output_size)
                && weights1@.len() == input_size * hidden_size
                && weights2@.len() == hidden_size * output_size
                && all_finite(weights1@)
                && all_finite(weights2@),
    {
        let biases1 = vec![ZERO_BITS; hidden_size];
        let biases2 = vec![ZERO_BITS; output_size];
        proof {
            assert(0u32 & 0x7f80_0000u32 != 0x7f80_0000u32) by (bit_vector);
        }
        Self::from_parts(
            input_size,
            hidden_size,
            output_size,
            weights1,
            weights2,
            biases1,
            biases2,
        )
    }

    /// Replaces the four tensors with the caller's updated ones, the one
    /// mutation a training step performs.  Refuses the update, leaving the
    /// store unchanged, when a replacement length disagrees with the
    /// store's dimensions or any replacement element is non-finite; a
    /// divergent update is fatal to the step, never silently applied.
    pub fn apply_update(
        &mut self,
        weights1: Vec<u32>,
        weights2: Vec<u32>,
        biases1: Vec<u32>,
        biases2: Vec<u32>,
    ) -> (r: Result<(), ModelError>)
        requires
            old(self).wf(),
        ensures
            final(self).wf(),
            final(self).input_size == old(self).input_size,
            final(self).hidden_size == old(self).hidden_size,
            final(self).output_size == old(self).output_size,
            match r {
                Ok(()) => {
                    &&& final(self).weights1@ == weights1@
                    &&& final(self).weights2@ == weights2@
                    &&& final(self).biases1@ == biases1@
                    &&& final(self).biases2@ == biases2@
                },
                Err(e) => {
                    &&& *final(self) == *old(self)
                    &&& (e == ModelError::Config <==> !lens_match(
                        old(self).input_size,
                        old(self).hidden_size,
                        old(self).output_size,
                        weights1@,
                        weights2@,
                        biases1@,
                        biases2@,
                    ))
                    &&& (e == ModelError::Config || e == ModelError::Divergence)
                },
            },
            (r is Ok) <==> lens_match(
                old(self).input_size,
                old(self).hidden_size,
                old(self).output_size,
                weights1@,
                weights2@,
                biases1@,
                biases2@,
            ) && tensors_finite(weights1@, weights2@, biases1@, biases2@),
    {
        match Self::from_parts(
            self.input_size,
            self.hidden_size,
            self.output_size,
            weights1,
            weights2,
            biases1,
            biases2,
        ) {
            Ok(s) => {
                *self = s;
                Ok(())
            },
            Err(e) => Err(e),
        }
    }
}

} // verus!
