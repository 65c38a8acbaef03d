//! Command-line options, as plain data.
//!
//! Argument parsing itself happens in the driver; the library only sees the
//! resulting list of input image paths, which are submitted to the loader as
//! interactive requests at startup.

use vstd::prelude::*;

verus! {

/// The program's command-line options: the input images to load at startup.
pub struct Opt {
    pub inputs: Vec<String>,
}

} // verus!
