use vstd::prelude::*;
use crate::matrix::Matrix;

verus! {

#[verifier::external_type_specification]
#[verifier::external_body]
pub struct ExThreadRng(rand::rngs::ThreadRng);

/// Relies on rand::thread_rng: returns a handle to the thread-local
/// random number generator. Nothing is assumed of its state.
#[verifier::external_body]
fn fresh_rng() -> rand::rngs::ThreadRng {
    rand::thread_rng()
}

/// Relies on rand::Rng::gen_range on the half-open range `min..max`:
/// returns a uniformly distributed value at least `min` and below `max`.
/// The call panics on an empty range, which the precondition rules out.
#[verifier::external_body]
fn sample_range(rng: &mut rand::rngs::ThreadRng, min: i64, max: i64) -> (r: i64)
    requires
        min < max,
    ensures
        min <= r < max,
{
    rand::Rng::gen_range(rng, min..max)
}

impl Matrix<i64> {
    /// Builds a `rows` by `cols` matrix of independent uniformly
    /// distributed values drawn from `[min, max)`, filling exactly
    /// `rows * cols` cells in row-major order.
    #[verifier::loop_isolation(false)]
    pub fn new_random(rows: usize, cols: usize, min: i64, max: i64) -> (m: Matrix<i64>)
        requires
            min < max,
            rows * cols <= usize::MAX,
        ensures
            m.wf(),
            m.rows == rows,
            m.cols == cols,
            forall|i: int| 0 <= i < m.data@.len() ==> min <= #[trigger] m.data@[i] < max,
    {
        let mut rng = fresh_rng();
        let total = rows * cols;
        let mut data: Vec<i64> = Vec::new();
        for _cell in 0..total
            invariant
                data@.len() == _cell,
                forall|i: int| 0 <= i < data@.len() ==> min <= #[trigger] data@[i] < max,
        {
            data.push(sample_range(&mut rng, min, max));
        }
        Matrix { rows, cols, data }
    }
}

} // verus!
