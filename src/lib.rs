//! A wave-function-collapse engine: cells on a caller-defined graph are
//! collapsed one at a time, lowest entropy first, each to a variant drawn at
//! random in proportion to its weight among the variants that its current
//! neighbourhood allows.
pub mod variant;
pub mod tile;
pub mod cache;
pub mod select;
pub mod entropy;
pub mod node;
pub mod system;
mod weighted;

pub use cache::DomainCache;
pub use entropy::entropy_key;
pub use node::Node;
pub use select::{ENTROPY_MAX, get_lowest_entropy, lowest_of_chunks, split_chunks};
pub use system::{ConfigError, NodeSystem};
pub use tile::TileType;
pub use variant::{NodeVariants, get_domain_weights};
