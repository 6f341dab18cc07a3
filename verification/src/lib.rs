//! A Huffman coder for text.
//!
//! A text is counted into a [`FrequencyTable`], the table is built into a
//! tree of [`HuffNode`]s, the tree gives each symbol a code in a
//! [`CodeTable`], and the table with the text in its codes makes a
//! container: the bytes `HUFF`, the length of the code table, the code
//! table, the number of symbols of the text, and the bits of the text
//! packed into bytes. Decoding reads as many symbols back from a
//! container as it says it holds.
//!
//! [`HuffmanCompression`] holds these steps. What each of them gives is
//! stated over sequences and trees in its contract, and the module `laws`
//! proves what holds across them: that codes are prefix-free, that the
//! weights of a tree add up, and that decoding gives back what was
//! encoded.

pub mod assoc;
pub mod bits;
pub mod builder;
pub mod code;
pub mod decoder;
pub mod error;
pub mod format;
pub mod frequency;
pub mod huffman;
pub mod laws;
pub mod node;
pub mod order;
pub mod text;
pub mod tree;

pub use builder::NodeQueue;
pub use code::{code_string, dfs, CodeTable};
pub use error::HuffmanError;
pub use frequency::FrequencyTable;
pub use huffman::HuffmanCompression;
pub use node::{BoxedHuffNode, HuffBaseNode, HuffInternalNode, HuffLeafNode, HuffNode};
pub use tree::Tree;
