//! A small distributed file system: a metadata authority (the name node) that
//! maps files to blocks and blocks to replica nodes, and storage nodes (data
//! nodes) that keep block bytes and relay writes down a replica chain.

pub mod address;
pub mod allocator;
pub mod ansi;
pub mod block_store;
pub mod client;
pub mod datanode;
pub mod decimal;
pub mod error;
pub mod file_write;
pub mod metadata;
pub mod node_list;
pub mod phoenix;

pub use ansi::{ansi, AnsiColor, AnsiStyle};
pub use address::{NodeAddress, SerializableNodeAddress};
pub use error::{DfsError, SerializableError};
pub use metadata::{BlockRecord, DataNodeRecord, FileRecord, NameNodeState};
