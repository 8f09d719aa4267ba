//! Locates two named files in a directory tree, reverses a repeating-key XOR
//! transform on one of them using the bytes of the other, and classifies the
//! outcome of delivering the result over HTTP.
//!
//! The pipeline has three stages, each with its own module:
//! - [`locator`]: a work-list driven depth-first traversal that records the
//!   last-visited file for each of two sought names;
//! - [`transform`]: the repeating-key XOR transform, self-inverse and
//!   length-preserving;
//! - [`transport`]: classification of an HTTP delivery outcome into success,
//!   server rejection, or transport failure.
//!
//! Directory listing, file reading and the HTTP request itself are I/O and are
//! left to the caller; every decision made on their results lives here.

pub mod locator;
pub mod transform;
pub mod transport;
