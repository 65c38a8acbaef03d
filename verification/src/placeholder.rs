//! The transient marker for a scene entity that is still waiting for its
//! bitmap.

use vstd::prelude::*;

verus! {

/// A placeholder stands in for one image from the moment its load is
/// requested until the decoded entry is observed in the cache and consumed.
///
/// `twimage_path` is the cache key the placeholder waits for, `to_cache`
/// marks a placeholder whose load request has not been handed to the
/// dispatcher yet, and `from_next` records whether the placeholder was
/// created by next/previous navigation rather than by a drop event.
pub struct TwPlaceHolder {
    pub twimage_path: String,
    pub to_cache: bool,
    pub from_next: bool,
}

} // verus!
