use vstd::prelude::*;

pub mod deletion_overview;
pub mod folder_tree;
pub mod folder_tree_helpers;
pub mod process_directory_tree;

verus! {

use crate::cleaning::track_files_for_deletion::DeletionMetaData;
use crate::configs::config::DataSizeUnit;
use crate::configs::config::PathConfig;
use crate::logging::deletion_overview::deletion_overview_spec;
use crate::logging::deletion_overview::generate_deletion_overview_text;
use crate::logging::deletion_overview::generate_size_overview_text;
use crate::logging::deletion_overview::size_overview_spec;

/// Which of the two reports a run produces.
pub enum TextOverviewType {
    Deletion,
    Size,
}

impl TextOverviewType {
    /// Renders the overview matching this report type.
    pub fn generate_text(
        &self,
        config: &PathConfig,
        deletion_metadata: DeletionMetaData,
        unit: &DataSizeUnit,
    ) -> (r: String)
        ensures
            self is Deletion ==> exists|ts: Seq<char>|
                r@ == deletion_overview_spec(*config, deletion_metadata, *unit, ts),
            self is Size ==> exists|ts: Seq<char>|
                r@ == size_overview_spec(*config, deletion_metadata, *unit, ts),
    {
        match self {
            TextOverviewType::Deletion => generate_deletion_overview_text(
                config,
                deletion_metadata,
                unit,
            ),
            TextOverviewType::Size => generate_size_overview_text(config, deletion_metadata, unit),
        }
    }
}

} // verus!
