//! An in-memory SquashFS tree and the writer that turns it into an image.

pub mod bytes;
pub mod compressor;
pub mod data;
pub mod entry;
pub mod error;
pub mod filesystem;
pub mod fitting;
pub mod fragment;
pub mod growth;
pub mod image;
pub mod inode;
pub mod laws;
pub mod layout;
pub mod lookup;
pub mod metadata;
pub mod node;
pub mod numbering;
pub mod path;
pub mod pushing;
pub mod reading;
pub mod records;
pub mod squashfs;
pub mod storing;
pub mod tree;
