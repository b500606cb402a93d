//! The command line of the tool, as plain values.
use vstd::prelude::*;

verus! {

/// The command line: which command to run.
pub struct Args {
    pub command: Commands,
}

/// Grabs the statics from an ESP file, then packages the meshes, textures,
/// and the ESP file into a single zip.
pub struct PackageCommand {
    /// ESP file to isolate meshes and textures from.
    pub file: String,
    /// Output file path; without one, the zip is created next to the ESP file.
    pub output: Option<String>,
    /// Include assets that are also referenced by master plugins.
    pub include_master_files: bool,
}

pub enum Commands {
    /// Package an ESP file into a zip.
    Package(PackageCommand),
    /// Update the program to the latest version.
    Update,
}

/// What the user chose in the asset window.
#[derive(Clone, Copy, PartialEq, Eq, Debug, Structural)]
pub enum GuiAction {
    Cancel,
    Package,
}

impl Default for GuiAction {
    fn default() -> (action: GuiAction)
        ensures
            action == GuiAction::Cancel,
    {
        GuiAction::Cancel
    }
}

} // verus!
