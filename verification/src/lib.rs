//! Huffman-compressed single-file archives.
//!
//! A set of files is turned into printable text, the texts are joined and
//! Huffman-coded, and the packed bits are stored behind a header that
//! records names, text lengths and the code table.
//!
//! - [`frequency`] counts the symbols of a text.
//! - [`tree`] builds the Huffman tree of the counts and reads the code
//!   table off it; [`table`] holds code tables.
//! - [`pack`] and [`unpack`] turn a text into packed bytes and back;
//!   [`bits`] says how bits lie in bytes.
//! - [`header`] is the header and its form in bytes; [`transcode`] is the
//!   text that stands for a file's bytes.
//! - [`archive`] puts an archive together and takes it apart; [`path`]
//!   names archives and the directories they are extracted to.
//! - [`optimal`], [`length`] and [`shorter`] prove that the tree is the
//!   best one, that its weighted length is the number of bits of the text,
//!   and that no prefix-free table takes fewer bits.

pub mod archive;
pub mod bits;
pub mod error;
pub mod frequency;
pub mod header;
pub mod length;
pub mod optimal;
pub mod pack;
pub mod path;
pub mod shorter;
pub mod table;
pub mod transcode;
pub mod tree;
pub mod unpack;
