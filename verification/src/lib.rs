//! A content-addressable object store with a staging area, references and ignore rules.
//!
//! The library works on an image of the metadata directory in memory, the [`repository`].
//! It reads and writes the files of that image alone; whoever owns the disk loads the image
//! and stores what changed in it.
//!
//! - [`object`]: blobs, trees, commits and tags, their frames and digests, how they are
//!   written, read, found by name and checked out.
//! - [`kvlm`]: the text format of commits and tags.
//! - [`refs`]: references to digests and to other references.
//! - [`index`]: the staging area and its file.
//! - [`ignore`]: the rules that leave paths out.
//! - [`bytes`], [`text`], [`paths`], [`digest`], [`zlib`], [`ordered`], [`sorting`]: byte
//!   strings, UTF-8, paths as text, hashes, compression, insertion-ordered maps and sorting,
//!   as the others need them.
//!
//! Every function states what it returns in terms of mathematical values: sequences of
//! bytes and characters, maps and sets. The functions that call into other crates say in
//! their comments what is taken on trust of those crates.

pub mod bytes;
pub mod digest;
pub mod ignore;
pub mod index;
pub mod kvlm;
pub mod object;
pub mod ordered;
pub mod paths;
pub mod refs;
pub mod repository;
pub mod sorting;
pub mod text;
pub mod zlib;
