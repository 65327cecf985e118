use vstd::prelude::*;

verus! {

/// Why a run produced no result set.
#[derive(Clone, Copy, Debug, PartialEq, Eq, Structural)]
pub enum LoadTestError {
    /// The lock around the shared buffer could not be taken.
    Lock,
    /// The shared buffer could not be reclaimed after the workers joined.
    Unwrap,
    /// A placement failed, so the run holds fewer samples than it owes.
    Device,
}

impl LoadTestError {
    /// The text shown for each error.
    pub open spec fn message_text(self) -> Seq<char> {
        match self {
            LoadTestError::Lock => "Mutex lock error"@,
            LoadTestError::Unwrap => "Arc unwrap error"@,
            LoadTestError::Device => "Device placement error"@,
        }
    }

    /// A short description of the error.
    pub fn message(&self) -> (s: &'static str)
        ensures
            s@ == self.message_text(),
    {
        match self {
            LoadTestError::Lock => "Mutex lock error",
            LoadTestError::Unwrap => "Arc unwrap error",
            LoadTestError::Device => "Device placement error",
        }
    }
}

} // verus!
