use vstd::prelude::*;
use crate::source::Source;

pub mod add;
pub mod clean;
pub mod export;
pub mod fetch;
pub mod import;
pub mod launch;
pub mod list;
pub mod new;
pub mod tree;

verus! {

/// Add mods to the current profile.
pub struct AddCommand {
    /// Mods to add, each optionally with a version requirement (`package@=1.2.3`).
    pub mods: Vec<String>,
    /// The source for the added mods.
    pub source: Option<Source>,
    /// Upgrade mods already in the manifest to the latest matching version.
    pub upgrade: bool,
}

/// Read the current profile and report any issues.
pub struct CheckCommand;

/// Clean up packages from the store.
pub struct CleanCommand {
    /// Remove all packages from the store, even those in use.
    pub force: bool,
}

/// Export the current profile to a file or a Thunderstore code.
pub struct ExportCommand {
    /// Where to export to; `None` uploads to Thunderstore.
    pub path: Option<String>,
}

/// Update the mod index for a game.
pub struct FetchCommand {
    /// The game to fetch the index for; `None` means the game of the current profile.
    pub game: Option<String>,
}

/// How an imported profile is obtained.
#[derive(PartialEq, Eq, Structural, Clone, Copy, Debug)]
pub enum ImportType {
    Thunderstore,
    Local,
    Gale,
}

/// Import a profile code.
pub struct ImportCommand {
    /// A Gale sync code, a Thunderstore profile UUID, or a file path.
    pub source: String,
    /// Where to save the imported profile.
    pub path: Option<String>,
    /// The game of the imported profile, overriding the one it names.
    pub game: Option<String>,
    /// Merge into an existing profile instead of replacing its mods.
    pub merge: bool,
    /// How to import; guessed from `source` when `None`.
    pub type_: Option<ImportType>,
}

/// Download and install mods for the current profile.
pub struct InstallCommand;

/// Launch the game with the current profile.
pub struct LaunchCommand {
    /// Stop before launching the game.
    pub dry_run: bool,
}

/// List the packages in the current profile.
pub struct ListCommand;

/// Create a new profile.
pub struct NewCommand {
    pub path: String,
    pub game: String,
    pub default_source: Option<Source>,
}

/// Display the dependency tree of the current profile.
pub struct TreeCommand {
    /// Show only the subtrees rooted at these packages.
    pub packages: Vec<String>,
    /// Show the packages that depend on the selected packages.
    pub reverse: bool,
}

/// Update the mods of the current profile.
pub struct UpgradeCommand;

} // verus!
