//! The command line of the patching tool.

use vstd::prelude::*;

verus! {

/// The arguments of the tool: the path of the JSON file that maps symbol
/// names to hex payloads.
#[derive(Clone, Debug, PartialEq, Eq)]
pub struct Args {
    pub entries_file_path: String,
}

} // verus!
