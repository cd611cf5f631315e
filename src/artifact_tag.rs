//! Tags that group the artifacts of a command line; two tags are the same only if one was
//! cloned from the other.
use std::sync::Arc;
use vstd::prelude::*;

verus! {

/// A tag whose identity is that of its allocation: every `new` tag differs from all others,
/// and a clone shares the identity of the tag it was cloned from.
#[derive(Debug, Clone)]
pub struct ArtifactTag {
    identity: Arc<()>,
}

/// Relies on `Arc::ptr_eq`: whether two handles share one allocation.
#[verifier::external_body]
fn same_allocation(a: &Arc<()>, b: &Arc<()>) -> (r: bool) {
    Arc::ptr_eq(a, b)
}

impl ArtifactTag {
    /// A fresh tag.
    pub fn new() -> Self {
        ArtifactTag { identity: Arc::new(()) }
    }

    /// Whether `self` and `other` are the same tag, that is, share one identity.
    pub fn same_tag(&self, other: &ArtifactTag) -> (r: bool) {
        same_allocation(&self.identity, &other.identity)
    }
}

} // verus!
