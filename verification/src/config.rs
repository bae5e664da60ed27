//! The run's configuration, assembled once at startup by the surrounding
//! command-line and environment layer and passed into the pipeline by value.

use crate::ci::CIKind;
use vstd::prelude::*;

verus! {

/// Everything one run is configured with: the platform kind, whether to
/// strip the deployment tool's run-id labels, image names whose tag changes
/// are to be ignored, and whether to patch an existing comment rather than
/// always posting a new one.
#[derive(Debug, Clone)]
pub struct Config {
    pub ci: CIKind,
    pub suppress_skaffold: bool,
    pub ignore_tag_images: Vec<String>,
    pub patch: bool,
}

} // verus!
