//! Transposing a commitment matrix on a GPU, where one is available.

use vstd::prelude::*;

verus! {

/// Tries to transpose the row-major `rows` x `cols` matrix `input` into
/// `output` on a GPU. No GPU backend is built in, so it reports failure and
/// leaves `output` as it was; the caller transposes on the CPU instead.
pub fn try_gpu_transpose(input: &[u32], output: &mut [u32], rows: usize, cols: usize) -> (r: bool)
    ensures
        !r,
        final(output)@ == old(output)@,
{
    false
}

} // verus!
