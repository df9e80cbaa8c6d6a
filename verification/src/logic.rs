//! An abstract interface for bit-vector logics: the operations a backend
//! must offer to build and simplify fixed-width expressions.

use vstd::prelude::*;

verus! {

/// Why an operation was refused.
pub enum Error {
    /// The operands' widths differ where they must agree.
    WidthMismatch,
}

/// The operations of a fixed-width expression builder.
pub trait Logic {
    /// The backend's expression handle.
    type Expr;

    /// The width of an expression.
    fn width(&self, a: &Self::Expr) -> usize;

    /// A named single-bit variable.
    fn bit(&mut self, name: &str) -> Self::Expr;

    /// An anonymous single-bit variable.
    fn bit_unnamed(&mut self) -> Self::Expr;

    /// A named word of the given width.
    fn word(&mut self, name: &str, width: usize) -> Self::Expr;

    /// An anonymous word of the given width.
    fn word_unnamed(&mut self, width: usize) -> Self::Expr;

    /// Bitwise conjunction.
    fn and(&mut self, a: &Self::Expr, b: &Self::Expr) -> Result<Self::Expr, Error>;

    /// Bitwise disjunction.
    fn or(&mut self, a: &Self::Expr, b: &Self::Expr) -> Result<Self::Expr, Error>;

    /// Bitwise exclusive disjunction.
    fn xor(&mut self, a: &Self::Expr, b: &Self::Expr) -> Result<Self::Expr, Error>;

    /// Bitwise complement.
    fn not(&mut self, a: &Self::Expr) -> Result<Self::Expr, Error>;

    /// Material implication.
    fn implies(&mut self, pred: &Self::Expr, concl: &Self::Expr) -> Result<Self::Expr, Error>;

    /// Per-bit selection.
    fn if_then_else(
        &mut self,
        test: &Self::Expr,
        yes: &Self::Expr,
        no: &Self::Expr,
    ) -> Result<Self::Expr, Error>;

    /// Left shift by a constant.
    fn shl(&mut self, a: &Self::Expr, k: usize) -> Result<Self::Expr, Error>;

    /// Left shift by an expression.
    fn shl_by_var(&mut self, a: &Self::Expr, k: &Self::Expr) -> Result<Self::Expr, Error>;

    /// Right shift by a constant.
    fn shr(&mut self, a: &Self::Expr, k: usize) -> Result<Self::Expr, Error>;

    /// Right shift by an expression.
    fn shr_by_var(&mut self, a: &Self::Expr, k: &Self::Expr) -> Result<Self::Expr, Error>;

    /// Left rotation by a constant.
    fn rotl(&mut self, a: &Self::Expr, k: usize) -> Result<Self::Expr, Error>;

    /// Left rotation by an expression.
    fn rotl_by_var(&mut self, a: &Self::Expr, k: &Self::Expr) -> Result<Self::Expr, Error>;

    /// Right rotation by a constant.
    fn rotr(&mut self, a: &Self::Expr, k: usize) -> Result<Self::Expr, Error>;

    /// Right rotation by an expression.
    fn rotr_by_var(&mut self, a: &Self::Expr, k: &Self::Expr) -> Result<Self::Expr, Error>;

    /// Strictly below.
    fn test_lt(&mut self, a: &Self::Expr, b: &Self::Expr) -> Result<Self::Expr, Error>;

    /// At most.
    fn test_le(&mut self, a: &Self::Expr, b: &Self::Expr) -> Result<Self::Expr, Error>;

    /// Strictly above.
    fn test_gt(&mut self, a: &Self::Expr, b: &Self::Expr) -> Result<Self::Expr, Error>;

    /// At least.
    fn test_ge(&mut self, a: &Self::Expr, b: &Self::Expr) -> Result<Self::Expr, Error>;

    /// Equal.
    fn test_eq(&mut self, a: &Self::Expr, b: &Self::Expr) -> Result<Self::Expr, Error>;

    /// Not equal.
    fn test_ne(&mut self, a: &Self::Expr, b: &Self::Expr) -> Result<Self::Expr, Error>;

    /// The bits `lo..=hi`.
    fn slice(&mut self, a: &Self::Expr, lo: usize, hi: usize) -> Result<Self::Expr, Error>;

    /// Concatenation.
    fn concat(&mut self, a: &Self::Expr, b: &Self::Expr) -> Result<Self::Expr, Error>;

    /// Addition modulo the width.
    fn add(&mut self, a: &Self::Expr, b: &Self::Expr) -> Result<Self::Expr, Error>;

    /// Subtraction modulo the width.
    fn sub(&mut self, a: &Self::Expr, b: &Self::Expr) -> Result<Self::Expr, Error>;

    /// Multiplication modulo the width.
    fn mul(&mut self, a: &Self::Expr, b: &Self::Expr) -> Result<Self::Expr, Error>;

    /// Division.
    fn div(&mut self, a: &Self::Expr, b: &Self::Expr) -> Result<Self::Expr, Error>;

    /// Remainder.
    fn rem(&mut self, a: &Self::Expr, b: &Self::Expr) -> Result<Self::Expr, Error>;

    /// Reclaims everything not reachable from the given roots.
    fn gc(&mut self, live: &[Self::Expr]);

    /// Rewrites stored expressions into simpler forms.
    fn simplify(&mut self);
}

} // verus!
