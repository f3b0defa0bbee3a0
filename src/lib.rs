//! Fixed-size page encoding for the nodes of a B-link tree.
//!
//! A node is encoded field by field into a self-delimiting byte sequence,
//! which is then zero-padded to the size of a page. Decoding reads the
//! well-formed prefix of a page and ignores whatever follows it.

pub mod item_ptr;
pub mod wire;
pub mod node;
pub mod codec;

pub use item_ptr::{ItemPtr, SENTINEL};
pub use node::{Node, NodeError};
pub use codec::PAGE_SIZE;
