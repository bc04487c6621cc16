use vstd::prelude::*;

verus! {

/// The command-line settings of a search over magic sums.
#[derive(Clone, Copy, Debug, PartialEq, Eq, Structural)]
pub struct Args {
    /// The magic sum to start checking from; congruent to 3 modulo 72.
    pub from: u64,
    /// The amount the magic sum grows by each time; a positive multiple of 72.
    pub stride: u64,
    /// The number of checks run in parallel; at least one.
    pub threads: u64,
}

/// Which setting is invalid.
#[derive(Clone, Copy, Debug, PartialEq, Eq, Structural)]
pub enum ConfigurationError {
    /// `from` is not congruent to 3 modulo 72.
    From,
    /// `stride` is zero or not a multiple of 72.
    Stride,
    /// `threads` is zero.
    Threads,
}

impl Args {
    /// Checks the settings in order: `from`, then `stride`, then `threads`.
    pub fn validate(&self) -> (r: Result<(), ConfigurationError>)
        ensures
            r == Err::<(), ConfigurationError>(ConfigurationError::From) <==> self.from % 72 != 3,
            r == Err::<(), ConfigurationError>(ConfigurationError::Stride) <==> self.from % 72 == 3 && (
            self.stride == 0 || self.stride % 72 != 0),
            r == Err::<(), ConfigurationError>(ConfigurationError::Threads) <==> self.from % 72 == 3 && self.stride
                != 0 && self.stride % 72 == 0 && self.threads == 0,
            r is Ok <==> self.from % 72 == 3 && self.stride != 0 && self.stride % 72 == 0 && self.threads != 0,
    {
        if self.from % 72 != 3 {
            return Err(ConfigurationError::From);
        }
        if self.stride == 0 || self.stride % 72 != 0 {
            return Err(ConfigurationError::Stride);
        }
        if self.threads == 0 {
            return Err(ConfigurationError::Threads);
        }
        Ok(())
    }
}

} // verus!
