//! Client-side decision logic for incremental font transfer: reading patch
//! maps, selecting a compatible group of patches and applying that group.

pub mod apply;
pub mod bytes;
pub mod error;
pub mod hvmtx;
pub mod order;
pub mod patch_group;
pub mod patchmap;
pub mod status;
pub mod table;
pub mod uri;

pub use error::{Malformation, PatchingError, ReadError};
pub use hvmtx::{HVmtx, LongMetric};
pub use apply::PatchApplier;
pub use patch_group::{
    CompatibleGroup, FullInvalidationPatch, NoInvalidationPatch, PartialInvalidationPatch,
    PatchGroup, PatchInfo, ScopedGroup,
};
pub use patchmap::{
    intersecting_patches, CompatibilityId, Entry, IftFont, IftTableTag, PatchEncoding, PatchUri,
    Scope, SubsetDefinition, Tag,
};
pub use status::{UriStatus, UriStatusMap};
