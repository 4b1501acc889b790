//! Splitting a file into identified parts and putting it together again.
//!
//! A source file is cut into chunks of a configured size. Each chunk is
//! stored as a part file: a 16-byte identifier followed by the chunk. A small
//! metadata file records the source name, its extension, the grouping token
//! of the run and the identifiers in order. Reassembly reads the metadata
//! file, checks every part against its recorded identifier and concatenates
//! the chunks.
//!
//! The library works on values only: file names are strings, file contents
//! are byte vectors. Opening, reading and writing files is left to the
//! caller, and so is the rule that no file is overwritten: every name that
//! the library hands out is meant for a file that does not exist yet.
//!
//! * [`encode`] splits: [`encode::Encoder`] takes the chunks of a source one
//!   by one, [`encode::encode_file`] splits a source that is held in memory.
//! * [`decode`] puts together: [`decode::Decoder`] takes the part files one
//!   by one, [`decode::decode_file`] works on part files held in memory.
//! * [`layout`] defines the bytes of the metadata file, [`naming`] the file
//!   names and the identifiers, [`model`] the values that are exchanged.
//! * [`guarantees`] states what both directions promise each other.
//! * [`config`] reads what the caller asks for from a list of arguments.

pub mod config;
pub mod decode;
pub mod encode;
pub mod errors;
pub mod guarantees;
pub mod layout;
pub mod model;
pub mod naming;
pub mod wire;
