//! What a chunk group construction step knows of the modules that are
//! already available to it.

use crate::chunk::available_assets::AvailableAssetsVc;
use crate::module::ModuleVc;
use vstd::prelude::*;

verus! {

/// The availability state that is handed to the construction of a chunk
/// group.
#[derive(Clone, Debug)]
pub enum AvailabilityInfo {
    /// Availability is not tracked: nothing is known to be available.
    Untracked,
    /// The chunk group is itself the origin of availability.
    Root { current_availability_root: ModuleVc },
    /// The chunk group is nested: a chain says what its ancestors provide.
    Inner { available_assets: AvailableAssetsVc, current_availability_root: ModuleVc },
}

impl AvailabilityInfo {
    /// The root whose chunk group is being built, unless availability is
    /// untracked.
    pub fn current_availability_root(&self) -> (result: Option<ModuleVc>)
        ensures
            result == match *self {
                AvailabilityInfo::Untracked => None,
                AvailabilityInfo::Root { current_availability_root } => Some(
                    current_availability_root,
                ),
                AvailabilityInfo::Inner { current_availability_root, .. } => Some(
                    current_availability_root,
                ),
            },
    {
        match self {
            Self::Untracked => None,
            Self::Root { current_availability_root } => Some(*current_availability_root),
            Self::Inner { current_availability_root, .. } => Some(*current_availability_root),
        }
    }

    /// The chain of what the ancestors provide, where there are ancestors.
    pub fn available_assets(&self) -> (result: Option<AvailableAssetsVc>)
        ensures
            result == match *self {
                AvailabilityInfo::Untracked => None,
                AvailabilityInfo::Root { .. } => None,
                AvailabilityInfo::Inner { available_assets, .. } => Some(available_assets),
            },
    {
        match self {
            Self::Untracked => None,
            Self::Root { .. } => None,
            Self::Inner { available_assets, .. } => Some(available_assets.share()),
        }
    }
}

} // verus!
