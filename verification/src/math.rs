//! The symbolic linear-algebra kernel.

pub mod algebra;
pub mod basis_laws;
pub mod delta;
pub mod delta_ratio;
pub mod expr_matrix_builder;
pub mod gamma;
pub mod gamma_laws;
pub mod linalg;
pub mod linear;
pub mod lyndon;
pub mod lyndon_basis;
pub mod shuffle;
pub mod terms;
pub mod vector_space;
pub mod x;

pub use algebra::tensor_product;
pub use delta::{Delta, DeltaExpr, DeltaProduct, D};
pub use delta_ratio::{cross_ratio, cross_ratio_vec, neg_cross_ratio};
pub use expr_matrix_builder::ExprMatrixBuilder;
pub use gamma::{
    delta_expr_to_gamma_expr, gamma_expr_to_delta_expr, pullback, ConversionError,
    ConvertibleToGammaExpr, Gamma, GammaExpr, GammaProduct, G,
};
pub use linalg::{Matrix, Triplet};
pub use linear::{
    ArithmeticError, BasicLinear, Coeff, Linear, LinearMonom, MonomVectorizable, TensorProduct,
};
pub use lyndon::lyndon_factorize;
pub use lyndon_basis::to_lyndon_basis;
pub use shuffle::{shuffle_product, shuffle_product_multi};
pub use vector_space::space_matrix;
pub use x::{to_x_vec, Inf, XArg, X};
