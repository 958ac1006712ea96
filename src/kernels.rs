//! Shape checks of the compute kernels, made before any arithmetic.
use vstd::prelude::*;

use crate::types::Tensor;

verus! {

/// A kernel's operands do not fit together.
#[derive(Debug, Clone, Copy, PartialEq, Eq, Structural)]
pub enum KernelError {
    /// The weight tensor has `rank` dimensions instead of 2.
    WeightNotTwoDimensional { rank: usize },
    /// The input length differs from the weight's first dimension.
    InputMismatch { input_len: usize, in_features: u64 },
    /// The output length differs from the weight's second dimension.
    OutputMismatch { output_len: usize, out_features: u64 },
}

/// Checks the operands of `output = input × weight` for a weight of shape
/// `[in_features, out_features]` and returns those two sizes; element
/// `(i, o)` of the weight is its element `i * out_features + o`.
pub fn matmul_shape(input_len: usize, weight: &Tensor, output_len: usize) -> (r: Result<
    (usize, usize),
    KernelError,
>)
    ensures
        weight@.dims.len() != 2 ==> r == Err::<(usize, usize), KernelError>(
            KernelError::WeightNotTwoDimensional { rank: weight@.dims.len() as usize },
        ),
        weight@.dims.len() == 2 && input_len != weight@.dims[0] ==> r == Err::<
            (usize, usize),
            KernelError,
        >(KernelError::InputMismatch { input_len, in_features: weight@.dims[0] }),
        weight@.dims.len() == 2 && input_len == weight@.dims[0] && output_len
            != weight@.dims[1] ==> r == Err::<(usize, usize), KernelError>(
            KernelError::OutputMismatch { output_len, out_features: weight@.dims[1] },
        ),
        weight@.dims.len() == 2 && input_len == weight@.dims[0] && output_len
            == weight@.dims[1] ==> r == Ok::<(usize, usize), KernelError>((input_len, output_len))
            && input_len * output_len == weight@.num_elements,
{
    let dims = weight.dimensions();
    let n = weight.num_elements();
    if dims.len() != 2 {
        return Err(KernelError::WeightNotTwoDimensional { rank: dims.len() });
    }
    if input_len as u64 != dims[0] {
        return Err(KernelError::InputMismatch { input_len, in_features: dims[0] });
    }
    if output_len as u64 != dims[1] {
        return Err(KernelError::OutputMismatch { output_len, out_features: dims[1] });
    }
    proof {
        crate::types::lemma_product_two(dims@);
    }
    Ok((input_len, output_len))
}

} // verus!
