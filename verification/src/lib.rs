//! Gradient boosted decision trees over fixed-point numbers.
//!
//! Every real quantity (feature values, targets, weights, gradients, leaf
//! outputs, predictions) is an integer that counts millionths; see [`fixed`].
//! The crate bins a dense matrix into quantile buckets ([`binning`]), grows
//! regression trees by histogram search over the buckets ([`splitter`],
//! [`grower`]), and sums the trees into an ensemble ([`booster`]).
//!
//! Every function is verified: its contract states its result over the
//! mathematical model next to it, and no function panics or overflows.

pub mod binning;
pub mod booster;
pub mod data;
pub mod dump;
pub mod errors;
pub mod fixed;
pub mod grower;
pub mod objective;
pub mod percentile;
pub mod reading;
pub mod splitter;
pub mod tree;

pub use booster::GradientBooster;
pub use data::Matrix;
pub use errors::ForustError;
pub use tree::Tree;
