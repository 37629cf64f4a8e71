//! What the backward rules of array operations decide from shapes alone.
//!
//! An array backend differentiates reductions and products by the extents
//! and ranks of its arrays. The decisions are made here, on plain
//! numbers; the backend carries them out.
use vstd::prelude::*;

verus! {

/// The extents of a two-dimensional array.
pub struct Dim2(pub [u64; 2]);

impl Dim2 {
    /// The same extents among four, the other two being one.
    pub fn dims(&self) -> (d: [u64; 4])
        ensures
            d@ == seq![self.0@[0], self.0@[1], 1u64, 1u64],
    {
        let d = [self.0[0], self.0[1], 1, 1];
        assert(d@ =~= seq![self.0@[0], self.0@[1], 1u64, 1u64]);
        d
    }
}

/// How often an array of extents `a_dims` has to be repeated along each
/// dimension to reach `target_dim`: the quotient of the two extents.
pub fn repeat_to_match_dims(a_dims: &[u64; 4], target_dim: &[u64; 4]) -> (tile_dims: [u64; 4])
    requires
        forall|i: int| 0 <= i < 4 ==> a_dims@[i] != 0,
    ensures
        forall|i: int| 0 <= i < 4 ==> tile_dims@[i] == target_dim@[i] / a_dims@[i],
{
    [
        target_dim[0] / a_dims[0],
        target_dim[1] / a_dims[1],
        target_dim[2] / a_dims[2],
        target_dim[3] / a_dims[3],
    ]
}

/// The backward rule of the sum of all elements: the gradient of the sum
/// is repeated to the shape of the summed array.
#[derive(Clone, Copy)]
pub struct SumAllVJP;

impl SumAllVJP {
    /// How often the gradient, of extents `g_dims`, is repeated along
    /// each dimension to reach the extents of the operand.
    pub fn vjp(&self, g_dims: &[u64; 4], operand_dims: &[u64; 4]) -> (tile_dims: [u64; 4])
        requires
            forall|i: int| 0 <= i < 4 ==> g_dims@[i] != 0,
        ensures
            forall|i: int| 0 <= i < 4 ==> tile_dims@[i] == operand_dims@[i] / g_dims@[i],
    {
        repeat_to_match_dims(g_dims, operand_dims)
    }
}

/// A combination of ranks and argument position for which a rule has no
/// derivative.
#[derive(Clone, Copy, PartialEq, Eq, Structural, Debug)]
pub enum ShapeError {
    /// The dot product is differentiated for two vectors only.
    DotNotVectors,
    /// The matrix product has no derivative for these ranks and this
    /// position.
    MatMulArguments,
}

/// Which operand a rule multiplies the gradient with.
#[derive(Clone, Copy, PartialEq, Eq, Structural, Debug)]
pub enum Factor {
    /// The left operand.
    Lhs,
    /// The right operand.
    Rhs,
}

/// The backward rule of the dot product; holds the ranks of the two
/// operands.
#[derive(Clone, Copy)]
pub struct DotVJP(pub usize, pub usize);

impl DotVJP {
    /// The derivative of the dot product of two vectors with respect to
    /// one is the gradient times the other.
    pub open spec fn vjp_spec(&self, argnum: usize) -> Result<Factor, ShapeError> {
        if self.0 == 1 && self.1 == 1 && argnum == 0 {
            Ok(Factor::Rhs)
        } else if self.0 == 1 && self.1 == 1 && argnum == 1 {
            Ok(Factor::Lhs)
        } else {
            Err(ShapeError::DotNotVectors)
        }
    }

    /// The operand with which the gradient is multiplied for the operand
    /// at `argnum`.
    pub fn vjp(&self, argnum: usize) -> (r: Result<Factor, ShapeError>)
        ensures
            r == self.vjp_spec(argnum),
    {
        let lhs_dim = self.0;
        let rhs_dim = self.1;
        if lhs_dim == 1 && rhs_dim == 1 {
            if argnum == 0 {
                return Ok(Factor::Rhs);
            } else if argnum == 1 {
                return Ok(Factor::Lhs);
            }
        }
        Err(ShapeError::DotNotVectors)
    }
}

/// The product that a matrix product's backward rule computes.
#[derive(Clone, Copy, PartialEq, Eq, Structural, Debug)]
pub enum MatMulStep {
    /// The transposed left operand times the gradient.
    LhsTransposedTimesGrad,
    /// The gradient times the transposed right operand.
    GradTimesRhsTransposed,
    /// The gradient times the left operand, element by element.
    GradTimesLhs,
    /// The gradient times the right operand, element by element.
    GradTimesRhs,
}

/// The backward rule of the matrix product; holds the ranks of the two
/// operands.
#[derive(Clone, Copy)]
pub struct MatMulVJP(pub usize, pub usize);

impl MatMulVJP {
    /// A matrix times a vector is differentiated with respect to the
    /// vector; a matrix times a matrix with respect to either, element by
    /// element where the gradient is a vector.
    pub open spec fn vjp_spec(&self, g_rank: usize, argnum: usize) -> Result<
        MatMulStep,
        ShapeError,
    > {
        if argnum == 1 && self.0 == 2 && self.1 == 1 {
            Ok(MatMulStep::LhsTransposedTimesGrad)
        } else if argnum == 0 && self.0 == 2 && self.1 == 2 {
            if g_rank == 1 {
                Ok(MatMulStep::GradTimesRhs)
            } else {
                Ok(MatMulStep::GradTimesRhsTransposed)
            }
        } else if argnum == 1 && self.0 == 2 && self.1 == 2 {
            if g_rank == 1 {
                Ok(MatMulStep::GradTimesLhs)
            } else {
                Ok(MatMulStep::LhsTransposedTimesGrad)
            }
        } else {
            Err(ShapeError::MatMulArguments)
        }
    }

    /// The product to compute for the operand at `argnum` when the
    /// gradient has rank `g_rank`.
    pub fn vjp(&self, g_rank: usize, argnum: usize) -> (r: Result<MatMulStep, ShapeError>)
        ensures
            r == self.vjp_spec(g_rank, argnum),
    {
        let lhs_dim = self.0;
        let rhs_dim = self.1;
        if lhs_dim != 2 {
            return Err(ShapeError::MatMulArguments);
        }
        if argnum == 1 && rhs_dim == 1 {
            Ok(MatMulStep::LhsTransposedTimesGrad)
        } else if argnum == 0 && rhs_dim == 2 {
            if g_rank == 1 {
                Ok(MatMulStep::GradTimesRhs)
            } else {
                Ok(MatMulStep::GradTimesRhsTransposed)
            }
        } else if argnum == 1 && rhs_dim == 2 {
            if g_rank == 1 {
                Ok(MatMulStep::GradTimesLhs)
            } else {
                Ok(MatMulStep::LhsTransposedTimesGrad)
            }
        } else {
            Err(ShapeError::MatMulArguments)
        }
    }
}

} // verus!
