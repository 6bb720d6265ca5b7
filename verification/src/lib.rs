//! Boolean formulas in conjunctive normal form under the Lovász Local Lemma:
//! the clause dependency graph, sources of random bits, and the
//! Moser–Tardos resampling simulators with their trial harness.

pub mod utility;
pub mod masks;
pub mod ordered;
pub mod bounded;
pub mod probability;
pub mod text;
pub mod sat;
pub mod random_space;
pub mod dep;
pub mod model;
pub mod moser_tardos_algorithm;
pub mod record;
pub mod harness;
pub mod lll;
pub mod shearer;
pub mod matching;

pub use utility::new_vector;
