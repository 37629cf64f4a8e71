use rugrads::shapes::{
    repeat_to_match_dims, DotVJP, Factor, MatMulStep, MatMulVJP, ShapeError,
};
use rugrads::{Dim2, SumAllVJP};

#[test]
fn two_extents_are_padded_with_ones() {
    assert_eq!(Dim2([2, 3]).dims(), [2, 3, 1, 1]);
    assert_eq!(Dim2([0, 7]).dims(), [0, 7, 1, 1]);
}

#[test]
fn tiling_divides_the_extents() {
    assert_eq!(repeat_to_match_dims(&[1, 1, 1, 1], &[2, 2, 1, 1]), [2, 2, 1, 1]);
    assert_eq!(repeat_to_match_dims(&[2, 1, 3, 1], &[6, 5, 3, 4]), [3, 5, 1, 4]);
    assert_eq!(repeat_to_match_dims(&[4, 2, 1, 1], &[6, 5, 0, 1]), [1, 2, 0, 1]);
    assert_eq!(SumAllVJP.vjp(&[1, 1, 1, 1], &[2, 3, 1, 1]), [2, 3, 1, 1]);
}

#[test]
fn dot_product_is_differentiated_for_vectors() {
    assert_eq!(DotVJP(1, 1).vjp(0), Ok(Factor::Rhs));
    assert_eq!(DotVJP(1, 1).vjp(1), Ok(Factor::Lhs));
    assert_eq!(DotVJP(1, 1).vjp(2), Err(ShapeError::DotNotVectors));
    assert_eq!(DotVJP(2, 1).vjp(0), Err(ShapeError::DotNotVectors));
    assert_eq!(DotVJP(1, 2).vjp(1), Err(ShapeError::DotNotVectors));
}

#[test]
fn matrix_product_goes_by_rank_and_position() {
    assert_eq!(MatMulVJP(2, 1).vjp(1, 1), Ok(MatMulStep::LhsTransposedTimesGrad));
    assert_eq!(MatMulVJP(2, 1).vjp(2, 1), Ok(MatMulStep::LhsTransposedTimesGrad));
    assert_eq!(MatMulVJP(2, 2).vjp(1, 0), Ok(MatMulStep::GradTimesRhs));
    assert_eq!(MatMulVJP(2, 2).vjp(2, 0), Ok(MatMulStep::GradTimesRhsTransposed));
    assert_eq!(MatMulVJP(2, 2).vjp(1, 1), Ok(MatMulStep::GradTimesLhs));
    assert_eq!(MatMulVJP(2, 2).vjp(2, 1), Ok(MatMulStep::LhsTransposedTimesGrad));
}

#[test]
fn matrix_product_refuses_other_combinations() {
    assert_eq!(MatMulVJP(2, 1).vjp(1, 0), Err(ShapeError::MatMulArguments));
    assert_eq!(MatMulVJP(1, 1).vjp(1, 0), Err(ShapeError::MatMulArguments));
    assert_eq!(MatMulVJP(1, 2).vjp(2, 1), Err(ShapeError::MatMulArguments));
    assert_eq!(MatMulVJP(2, 2).vjp(2, 2), Err(ShapeError::MatMulArguments));
    assert_eq!(MatMulVJP(3, 2).vjp(2, 0), Err(ShapeError::MatMulArguments));
}
