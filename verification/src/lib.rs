//! Engine of an equation-guessing game: exact arithmetic on small
//! equations, duplicate-aware scoring of a guess against a hidden answer,
//! the knowledge that feedback accumulates, and a constrained random
//! generator of equations that fit that knowledge.

pub mod util;
pub mod text;
pub mod expr;
pub mod eq;
pub mod nerdle;
pub mod nerdledata;
pub mod consistency;
pub mod constraint;
pub mod eqgen;
pub mod nerdsolver;
pub mod strategy;

