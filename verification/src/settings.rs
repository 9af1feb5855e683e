use vstd::prelude::*;

verus! {

/// The tool's own section of the configuration: where its artifacts live.
#[derive(Debug, Clone)]
pub struct Rustytime {
    pub home: String,
}

/// The configuration handed in by the caller. Loading it from disk is the
/// caller's business; the core only carries it and reads the home path.
#[derive(Debug, Clone)]
pub struct Settings {
    pub rustytime: Rustytime,
}

impl Settings {
    /// A settings value rooted at the given home directory.
    pub fn with_home(home: String) -> (r: Settings)
        ensures
            r.rustytime.home@ == home@,
    {
        Settings { rustytime: Rustytime { home } }
    }
}

} // verus!
