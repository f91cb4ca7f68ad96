//! Enumerates small string-rewriting programs by index, rejects the ones that
//! cannot be useful, and runs the rest against input/output examples under
//! step and length bounds.

pub mod cache;
pub mod encode;
pub mod mao;
pub mod numeral;
pub mod pairing;
pub mod prune;
pub mod search;
pub mod text;

pub use cache::Encoder;
pub use encode::{intprogram, intrule};
pub use mao::{Program, Rule, RuleResult};
pub use numeral::intstring;
pub use pairing::intpair;
pub use prune::prune;
pub use search::{candidate, search, Verdict};
