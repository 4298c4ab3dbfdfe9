//! Exact dimensional analysis over the seven SI base dimensions.
//!
//! A [`dimensional::Dimension`] is an expression tree of products, quotients
//! and powers over literals of exponents; it is flattened to seven exact
//! rational exponents only where they are needed. A
//! [`matrix::Matrix`] of rationals is reduced to reduced row-echelon form by
//! Gauss–Jordan elimination. [`dimensional_analysis::DimensionalAnalysis`]
//! puts the two together: it finds the exponents with which a list of
//! quantities combines into a target dimension.
//!
//! The arithmetic of rationals is that of `num`'s `Ratio<i32>`, called
//! through [`rational::Rational`]. Where a value does not fit that type the
//! operations report an overflow instead of a wrong result.
//!
//! The executable code is in [`rational`], [`text`], [`matrix`],
//! [`dimensional`], [`constants`] and [`dimensional_analysis`]. The other
//! modules hold no executable code: [`echelon`] and [`reals`] define what is
//! computed, and [`linear_systems`], [`solutions`] and the modules ending in
//! `_laws` state and prove what the computations mean.

pub mod constants;
pub mod dimensional;
pub mod dimensional_analysis;
pub mod dimensional_analysis_laws;
pub mod dimensional_laws;
pub mod echelon;
pub mod echelon_laws;
pub mod linear_systems;
pub mod matrix;
pub mod rational;
pub mod reals;
pub mod solutions;
pub mod text;
