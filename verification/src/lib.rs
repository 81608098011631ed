//! Categorical decision-tree induction for rental listings: tabulation of
//! price-bracket distributions, fixed-point entropy and gain ratio, recursive
//! tree construction into a node arena, and classification by tree walk.

pub mod record;
pub mod tabulate;
pub mod entropy;
pub mod select;
pub mod tree;
pub mod theory;
pub mod discretize;
