//! The choices that a run is made under.
use vstd::prelude::*;

verus! {

/// Where the converted table goes.
#[derive(Clone, Copy, Debug, PartialEq, Eq, Structural)]
pub enum OutputMode {
    /// In place of the input file.
    Overwrite,
    /// Beside the input file.
    Copy,
}

/// Which of the matching files are converted.
#[derive(Clone, Copy, Debug, PartialEq, Eq, Structural)]
pub enum SelectionMode {
    /// Those that an inspection finds still to be converted.
    Auto,
    /// All of them.
    All,
}

/// Which row tells whether a file is still to be converted.
#[derive(Clone, Copy, Debug, PartialEq, Eq, Structural)]
pub enum AutoInspectMode {
    /// The first.
    FirstRow,
    /// The last.
    LastRow,
}

/// The choices that concern the inspection of files.
#[derive(Clone, Copy, Debug)]
pub struct InspectionOptions {
    /// Where the converted tables go.
    pub mode: OutputMode,
    /// Which files are converted.
    pub selection_mode: SelectionMode,
    /// Which row tells whether a file is still to be converted.
    pub auto_inspect_mode: AutoInspectMode,
    /// How many leading columns stay.
    pub expected_columns: usize,
    /// How many RSI columns are asked for.
    pub rsi_column_count: usize,
    /// How many files are worked on at a time, at most.
    pub jobs: usize,
    /// Whether work starts without a question.
    pub skip_confirmation: bool,
}

}
