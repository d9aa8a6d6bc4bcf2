//! A Huffman coding engine: frequency analysis over lines of text, the
//! greedy construction of a prefix-code tree, the encoder and decoder it
//! gives, and the compressed payload of a corpus; the laws that tie them
//! together are in `theorems`.
//!
//! Beside it stand small verified exercises: Euclid's greatest common
//! divisor, a counting trie, four sorting algorithms, parsers for
//! delimited text, and the text of a progress bar.
pub mod bits;
pub mod symbol;
pub mod freq;
pub mod tree;
pub mod codec;
pub mod compress;
pub mod theorems;

pub mod arith;
pub mod lex;
pub mod trie;
pub mod parse;
pub mod progress;
pub mod text;
pub mod selection;
pub mod insertion;
pub mod bubble;
pub mod quicksort;
