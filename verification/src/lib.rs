//! Background image-loading cache for an interactive image viewer.
//!
//! Images dropped onto the canvas or reached by next/previous navigation are
//! decoded off the interactive path and kept in a content cache keyed by the
//! canonical file path.  The crate provides:
//!
//! * pixel normalisation of decoded bitmaps to premultiplied RGBA
//!   ([`utils`]),
//! * a content cache with idempotent, first-writer-wins insertion and
//!   generation-tagged invalidation ([`cache`]),
//! * a pending-request queue that serves interactive requests before
//!   speculative prefetches ([`queue`]),
//! * byte-level image decoding ([`decode`]), and
//! * a loader front end that coalesces duplicate requests, hands decode jobs
//!   to the caller, and resolves placeholders once their bitmap is cached
//!   ([`loader`]).
//!
//! The loader is a single owned object with a narrow interface; a driver that
//! wants to decode on worker threads shares it behind a lock at the edge and
//! performs all file reading itself, handing byte buffers in and taking
//! decode jobs out.

pub mod args_cli;
pub mod cache;
pub mod decode;
pub mod loader;
pub mod placeholder;
pub mod queue;
pub mod utils;
