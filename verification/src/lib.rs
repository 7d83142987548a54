//! Candidate host-name generation: known domains are taken apart into labels
//! and a registrable root, a word set is drawn from them and from a word list,
//! and stages of string mutations produce new names label by label.

pub mod chain;
pub mod dnsgen;
pub mod domain;
pub mod error;
pub mod manager;
pub mod text;
pub mod transform;
pub mod words;

pub use chain::{pull_names, ChainTransform, RipGenChain, RipGenIterator};
pub use dnsgen::Mutation;
pub use domain::DomainComponents;
pub use error::RipGenError;
pub use manager::RipGenManager;
pub use transform::RipGenTransform;
