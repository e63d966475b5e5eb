use vstd::prelude::*;

verus! {

/// The command line of the archiver.
#[derive(Debug)]
pub struct Args {
    pub cmd: Commands,
    /// How many times debugging information was asked for.
    pub debug: u8,
}

/// What the archiver is asked to do.
#[derive(Debug, Clone)]
pub enum Commands {
    /// Create a new archive.
    Create {
        create_dedup_map: bool,
        follow_symlinks: bool,
        archive: String,
        directories: Vec<String>,
        verbose: bool,
    },
    /// Extract an archive.
    Extract { extract_to: String, verbose: bool, archive: String },
}

} // verus!
