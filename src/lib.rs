//! Parametric, context-sensitive, stochastic L-systems: a rewriting engine
//! that advances a word of modules generation by generation, and a parser for
//! a compact notation of axioms and rules.

pub mod alphabet;
pub mod condition;
pub mod grammar;
pub mod lsystem;
pub mod module;
pub mod operator;
pub mod rules;
pub mod value;
pub mod variables;

pub use self::alphabet::Alphabet;
pub use self::condition::{Condition, Conditional, ConditionalValue};
pub use self::lsystem::{DerivationError, LSystem, LSystemBuilder, RandomSource};
pub use self::module::{Axiom, Module, State};
pub use self::operator::Operator;
pub use self::rules::{Context, Rule, Rules};
pub use self::value::{EvalError, Value, SCALE};
pub use self::variables::Variables;
