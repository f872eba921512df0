//! A chunked object store.
//!
//! A gateway cuts the bodies it is sent into chunks of bounded size, spreads
//! the chunks over datanodes, and puts an object together again from its
//! chunks, in order, while fetching them concurrently. A datanode keeps each
//! chunk in a file of its own, written so that a chunk is on disk whole or
//! not at all.
//!
//! This crate holds the rules of both: what is cut where, which node is
//! picked, what a manifest records, in which order bytes go out, and which
//! file system call follows which. It reads no socket and opens no file; its
//! callers do, and report to it what came back.

pub mod buffer;
pub mod chunk_storage;
pub mod chunker;
pub mod fetcher;
pub mod gateway;
pub mod metadata;
pub mod placement;
pub mod status;
pub mod transport;
