//! What has to be done before the dataset can be read from a local folder:
//! the archives are fetched when one of them is missing, and unpacked when
//! one of the unpacked files is missing.

use vstd::prelude::*;

verus! {

/// Which of the four files of one kind, archives or unpacked files, are in
/// the folder.
#[derive(Clone, Copy, Debug, PartialEq, Eq, Structural)]
pub struct Present {
    pub train_images: bool,
    pub train_labels: bool,
    pub test_images: bool,
    pub test_labels: bool,
}

impl Present {
    /// Whether all four files are there.
    pub open spec fn complete(self) -> bool {
        self.train_images && self.train_labels && self.test_images && self.test_labels
    }

    /// Tells whether all four files are there.
    pub fn is_complete(&self) -> (all: bool)
        ensures
            all == self.complete(),
    {
        self.train_images && self.train_labels && self.test_images && self.test_labels
    }
}

/// The next thing to do.
#[derive(Clone, Copy, Debug, PartialEq, Eq, Structural)]
pub enum Action {
    /// Fetch all four archives.
    Download,
    /// Unpack all four archives.
    Decompress,
    /// Read the four unpacked files.
    Load,
}

/// The action that the contents of the folder call for. A missing archive
/// calls for the download of all four, even where the unpacked files are
/// there; a missing unpacked file for unpacking all four.
pub open spec fn action_for(archives: Present, files: Present) -> Action {
    if !archives.complete() {
        Action::Download
    } else if !files.complete() {
        Action::Decompress
    } else {
        Action::Load
    }
}

/// Decides what to do next, from the archives and the unpacked files that
/// are in the folder.
pub fn next_action(archives: &Present, files: &Present) -> (action: Action)
    ensures
        action == action_for(*archives, *files),
{
    if !archives.is_complete() {
        Action::Download
    } else if !files.is_complete() {
        Action::Decompress
    } else {
        Action::Load
    }
}

/// The steps come to an end: with all archives in the folder nothing is
/// fetched, and with all unpacked files there too, what is left is to read
/// them.
pub proof fn lemma_actions_end(archives: Present, files: Present)
    requires
        archives.complete(),
    ensures
        action_for(archives, files) != Action::Download,
        files.complete() ==> action_for(archives, files) == Action::Load,
{
}

} // verus!
