//! Verified core of a bidirectional synchronizer between a remote issue
//! tracker and a directory of markdown files. One issue maps to one file
//! holding a frontmatter block (number, title, state, labels) and a body.
//!
//! The library contains the frontmatter codec, the planning logic of the
//! download and upload paths, and the scheduler's decision table. Network
//! and file-system work stays outside, handing plain values in and out.

pub mod codec;
pub mod fetcher;
pub mod issue;
pub mod numbers;
pub mod scheduler;
pub mod text;
pub mod updater;
