//! Diagnostic settings: a level tag and the name of the log destination.
use vstd::prelude::*;

verus! {

pub struct Logger {
    pub level: String,
    pub output_file: String,
}

impl Logger {
    pub fn new(level: String, output_file: String) -> (r: Logger)
        ensures
            r.level == level,
            r.output_file == output_file,
    {
        Logger { level, output_file }
    }
}

} // verus!
