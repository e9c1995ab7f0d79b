//! Metric signatures: one square per orthonormal axis.

use vstd::prelude::*;

verus! {

/// The square of a single basis vector under the metric: `+1`, `-1` or `0`.
#[derive(Debug, Clone, Copy, PartialEq, Eq, Structural)]
pub enum Square {
    Pos,
    Neg,
    Zero,
}

/// An ordered signature over `n` axes; axis `i` squares to `self.0[i]`.
///
/// A `Metric` is immutable once built; every `Basis` used with it must have
/// the same dimension.
#[derive(Debug)]
pub struct Metric(pub Vec<Square>);

impl Clone for Metric {
    fn clone(&self) -> (r: Metric)
        ensures
            r.0@ == self.0@,
    {
        let n = self.0.len();
        let mut squares: Vec<Square> = Vec::new();
        let mut i: usize = 0;
        while i < n
            invariant
                0 <= i <= n,
                n == self.0@.len(),
                squares@ =~= self.0@.take(i as int),
            decreases n - i,
        {
            squares.push(self.0[i]);
            i += 1;
        }
        proof {
            assert(squares@ =~= self.0@);
        }
        Metric(squares)
    }
}

impl Metric {
    /// Number of axes in the signature.
    pub fn dimension(&self) -> (n: usize)
        ensures
            n == self.0@.len(),
    {
        self.0.len()
    }
}

} // verus!
