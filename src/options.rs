use vstd::prelude::*;

verus! {

/// How the interpreter is used.
pub struct Options {
    /// Keep output until the program finishes instead of passing on each byte at once.
    pub buffer: bool,
    /// Report how long the stages take.
    pub profile: bool,
    /// Describe the interpreted and optimized program.
    pub describe: bool,
    /// Lay out the description for reading.
    pub pretty: bool,
}

impl Options {
    /// Options with the given flags.
    pub fn default(buffer: bool, profile: bool, describe: bool, pretty: bool) -> (o: Options)
        ensures
            o.buffer == buffer,
            o.profile == profile,
            o.describe == describe,
            o.pretty == pretty,
    {
        Options { buffer, profile, describe, pretty }
    }
}

} // verus!
