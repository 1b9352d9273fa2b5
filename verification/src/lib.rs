//! Boundary-marker stream scanner and split-extraction engine.
//!
//! A carrier file is an opaque byte stream to which exactly one payload
//! container has been appended, the payload beginning with a fixed multi-byte
//! signature. This library locates the first occurrence of the signature by
//! consuming the stream chunk by chunk in bounded memory, and splits a byte
//! buffer at such an offset into a truncated carrier prefix and a materialized
//! payload suffix. File handling, archive packing and unpacking, and the
//! command line live outside the library; they hand chunks and offsets in and
//! take bytes back out.

pub mod scan;
pub mod signature;
pub mod split;
