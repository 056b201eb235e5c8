//! The state a pool account holds.
use vstd::prelude::*;

verus! {

/// The value a pool's data field holds once the pool is initialised.
pub const INITIAL_POOL_DATA: u64 = 42;

/// The state of a liquidity pool account.
#[derive(Clone, Copy, Debug)]
pub struct Pool {
    /// The pool's data field.
    pub data: u64,
}

impl Pool {
    /// Initialise a freshly created pool: its data field is set to
    /// `INITIAL_POOL_DATA`.
    pub fn initialise(&mut self)
        ensures
            final(self).data == INITIAL_POOL_DATA,
    {
        self.data = INITIAL_POOL_DATA;
    }
}

} // verus!
