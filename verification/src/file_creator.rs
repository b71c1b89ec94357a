//! The decision core of output-file creation: whether an existing file is
//! overwritten or skipped. The sticky all-files modes decide by themselves;
//! otherwise one trimmed line of prompt input decides and may make a mode
//! sticky. Reading the prompt line and touching the file system belong to
//! the unverified front end, which loops until a decision comes back.

use vstd::prelude::*;

use crate::output_handler::OverwriteConfiguration;
use crate::text::str_eq;

verus! {

/// The outcome for one existing file.
#[derive(Clone, Copy, PartialEq, Eq, Structural, Debug)]
pub enum OverwriteOrSkip {
    Overwrite,
    Skip,
}

/// Creates output files, remembering a sticky overwrite mode across files.
pub struct FileCreator {
    pub overwrite_mode_config: OverwriteConfiguration,
}

impl FileCreator {
    /// The decision the current mode makes on its own: the sticky all-files
    /// modes answer immediately, `Ask` needs prompt input.
    pub fn mode_decision(&self) -> (r: Option<OverwriteOrSkip>)
        ensures
            r == match self.overwrite_mode_config {
                OverwriteConfiguration::OverwriteAll => Some(OverwriteOrSkip::Overwrite),
                OverwriteConfiguration::SkipAll => Some(OverwriteOrSkip::Skip),
                OverwriteConfiguration::Ask => None::<OverwriteOrSkip>,
            },
    {
        match self.overwrite_mode_config {
            OverwriteConfiguration::OverwriteAll => Some(OverwriteOrSkip::Overwrite),
            OverwriteConfiguration::SkipAll => Some(OverwriteOrSkip::Skip),
            OverwriteConfiguration::Ask => None,
        }
    }

    /// Applies one trimmed line of prompt input: `s` skips, `o` overwrites,
    /// `k` skips and makes skipping sticky, `a` overwrites and makes
    /// overwriting sticky; anything else decides nothing and the caller asks
    /// again.
    pub fn apply_prompt_answer(&mut self, input: &str) -> (r: Option<OverwriteOrSkip>)
        ensures
            r == (if input@ == "s"@ || input@ == "k"@ {
                Some(OverwriteOrSkip::Skip)
            } else if input@ == "o"@ || input@ == "a"@ {
                Some(OverwriteOrSkip::Overwrite)
            } else {
                None::<OverwriteOrSkip>
            }),
            final(self).overwrite_mode_config == (if input@ == "k"@ {
                OverwriteConfiguration::SkipAll
            } else if input@ == "a"@ {
                OverwriteConfiguration::OverwriteAll
            } else {
                old(self).overwrite_mode_config
            }),
    {
        proof {
            reveal_strlit("s");
            reveal_strlit("o");
            reveal_strlit("k");
            reveal_strlit("a");
        }
        if str_eq(input, "k") {
            self.overwrite_mode_config = OverwriteConfiguration::SkipAll;
        } else if str_eq(input, "a") {
            self.overwrite_mode_config = OverwriteConfiguration::OverwriteAll;
        }
        if str_eq(input, "s") || str_eq(input, "k") {
            Some(OverwriteOrSkip::Skip)
        } else if str_eq(input, "o") || str_eq(input, "a") {
            Some(OverwriteOrSkip::Overwrite)
        } else {
            None
        }
    }
}

} // verus!
