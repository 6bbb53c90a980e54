//! Verified core of the FaaSRail benchmark functions and load tools.
//!
//! Each module holds the computations of one benchmark or tool; the
//! input/output plumbing (stdin, files, HTTP, timing in floating point)
//! lives in the companion application crate.

pub mod allocation;
pub mod cipher;
pub mod compress;
pub mod disk;
pub mod entropy;
pub mod fetch;
pub mod html;
pub mod http_handler;
pub mod json;
pub mod numbers;
pub mod openwhisk;
pub mod ranking;
pub mod search;
pub mod text;
pub mod timer;
pub mod trace;
pub mod wsk;
