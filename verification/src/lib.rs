//! An archive/package file format engine ("ARP"): packs a directory tree
//! into one or more binary part files holding a header, a catalogue of
//! directory and resource nodes, and their payloads; and loads such files
//! back into a navigable catalogue with identifier lookup and checksummed,
//! decompressing resource access.
//!
//! Every binary layout has a byte-level spec function, encoding and parsing
//! are proved against it, and parsing an encoding is proved to give back
//! what was encoded. The packer is proved to keep every part image within a
//! configured size bound and to place every payload exactly where its
//! catalogue record says.

pub mod crc32c;
pub mod error;
pub mod layout;
pub mod mappings;
pub mod pack;
pub mod package;
pub mod resource;
pub mod set;
pub mod trusted;
pub mod types;
pub mod uid;
