//! A Huffman compressor for text, with its proofs: a text is counted, its
//! symbols get a prefix code from a tree built by joining the two lightest
//! trees, and the text is written as a packed bit stream beside its code
//! table. Restoring reads the stream back with that table alone. Two small
//! round-robin balancers come with it.

/// Bit buffers and the packed form of a bit stream.
pub mod bits;
/// The code of each symbol, and what it means for codes to be prefix-free.
pub mod code_table;
/// Restoring a text from its artifact.
pub mod decode;
/// Compressing a text into its artifact.
pub mod encode;
/// The ways in which compressing or restoring can fail.
pub mod error;
/// Counting the symbols of a text.
pub mod frequency;
/// Giving each symbol of a tree its code.
pub mod generate_huffman_codes;
/// Line handling, bit streams and code listings.
pub mod helpers;
/// The prefix-code tree and its construction.
pub mod huffman;
/// Prefix-free words take up no more room than a level of a tree has.
pub mod kraft;
/// A round-robin balancer that counts its turns in a `u32`.
pub mod lb;
/// A round-robin balancer that counts its turns in an `i32`.
pub mod load_balancer;
/// The codes of the tree are the shortest that a prefix code can be.
pub mod optimality;
/// Joining the two lightest weights costs the least.
pub mod placement;
/// Restoring what was compressed gives the text back.
pub mod round_trip;
/// Lists of entries keyed by symbol.
pub mod symbols;
/// Strings and their characters.
pub mod text;
