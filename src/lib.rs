//! Static byte-oriented Huffman coding: frequency counting, greedy tree
//! construction, code tables, bit packing, and a self-describing byte image
//! that holds a tree and the compressed bytes.

pub mod bintree;
pub mod bits;
pub mod builder;
pub mod codec;
pub mod codes;
pub mod decode;
pub mod error;
pub mod image;
pub mod laws;
pub mod node;

pub use bintree::{add_element, add_tree, get_size, is_next_in_order, BinTree, Side};
pub use codec::HuffmanState;
pub use codes::HuffmanEncoding;
pub use error::HuffmanError;
pub use node::HuffmanNode;
