use vstd::prelude::*;

verus! {

/// The command line: one subcommand.
pub struct Cli {
    pub command: Commands,
}

/// The subcommands and their settings.
pub enum Commands {
    /// Create an index file from a demultiplexed FASTQ file.
    GenerateIndex { file: String, index: String },
    /// Summarise the duplicate statistics of an index file.
    Summary { index: String },
    /// Collapse each duplicate group to one record.
    Call {
        index: String,
        input: String,
        output: Option<String>,
        threads: usize,
        duplicates_only: bool,
        report_original_reads: bool,
    },
    /// Pass each duplicate group to an external command.
    Group {
        index: String,
        input: String,
        output: Option<String>,
        shell: String,
        threads: usize,
        command: Vec<String>,
    },
}

} // verus!
