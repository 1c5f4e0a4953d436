//! One-hot encoding of class labels.
//!
//! A label vector for `num_classes` classes has exactly one element set,
//! the one at the label's index.  The dataset loader feeds the flattened
//! rows to the training loop; elements are 0/1 cell values that the caller
//! widens to scalars.

use vstd::prelude::*;

use vstd::arithmetic::div_mod::lemma_fundamental_div_mod_converse;

verus! {

/// Flattens the labels into row-major one-hot rows: element `k` of the
/// result is 1 exactly when `k` falls in row `k / num_classes` at column
/// `k % num_classes` and that column is the row's label.
pub fn to_one_hot(labels: &Vec<u8>, num_classes: usize) -> (r: Vec<u8>)
    requires
        forall|i: int| 0 <= i < labels@.len() ==> (labels@[i] as int) < num_classes as int,
        labels@.len() * num_classes <= usize::MAX,
    ensures
        r@.len() == labels@.len() * num_classes,
        forall|k: int|
            0 <= k < r@.len() ==> r@[k] == (if k % (num_classes as int) == labels@[k / (
            num_classes as int)] as int {
                1u8
            } else {
                0u8
            }),
{
    let ghost nc = num_classes as int;
    let mut r: Vec<u8> = Vec::new();
    let mut i: usize = 0;
    while i < labels.len()
        invariant
            i <= labels@.len(),
            r@.len() == i * num_classes,
            forall|i2: int| 0 <= i2 < labels@.len() ==> (labels@[i2] as int) < num_classes as int,
            forall|k: int|
                0 <= k < r@.len() ==> r@[k] == (if k % (num_classes as int) == labels@[k / (
                num_classes as int)] as int {
                    1u8
                } else {
                    0u8
                }),
        decreases labels@.len() - i,
    {
        let label = labels[i];
        let mut j: usize = 0;
        while j < num_classes
            invariant
                j <= num_classes,
                i < labels@.len(),
                label == labels@[i as int],
                (label as int) < num_classes as int,
                r@.len() == i * num_classes + j,
                forall|i2: int| 0 <= i2 < labels@.len() ==> (labels@[i2] as int) < num_classes
                    as int,
                forall|k: int|
                    0 <= k < r@.len() ==> r@[k] == (if k % (num_classes as int) == labels@[k / (
                    num_classes as int)] as int {
                        1u8
                    } else {
                        0u8
                    }),
            decreases num_classes - j,
        {
            proof {
                lemma_fundamental_div_mod_converse(
                    i * num_classes + j,
                    num_classes as int,
                    i as int,
                    j as int,
                );
            }
            if (label as usize) == j {
                r.push(1);
            } else {
                r.push(0);
            }
            j += 1;
        }
        proof {
            assert((i + 1) * num_classes == i * num_classes + num_classes) by (nonlinear_arith);
        }
        i += 1;
    }
    r
}

} // verus!
