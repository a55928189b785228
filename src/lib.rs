//! Directory trees for a file picker: a depth-bounded tree of typed nodes
//! with lazy-load markers, and a flat `(path, kind)` listing gathered with an
//! explicit work stack. The filesystem itself is read by the caller; this
//! library decides what to read, and what the results become.

pub mod coverage;
pub mod flat;
pub mod order;
pub mod policy;
pub mod tree;

pub use crate::flat::{read_directory_fast, Collector};
pub use crate::policy::{classify, deeper, may_descend, FileKind};
pub use crate::tree::{build_node, read_directory, FileNode, ReadError, Scan};
