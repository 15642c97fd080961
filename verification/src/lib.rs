//! CIDR block modelling and aggregation.
//!
//! The core of the library is the network-block model: a block is an
//! address together with a prefix length, and a block set is an ordered
//! collection of blocks that can be sorted, deduplicated, aggregated into
//! the smallest equivalent set of disjoint blocks, and split into
//! capacity-bounded chunks for output.

pub mod meta;
pub mod net;
pub mod text;
pub mod util;
