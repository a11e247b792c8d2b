//! What the graph's surroundings offer it: a store of bytes under keys, and
//! the models that an adapter loads a policy into.

use vstd::prelude::*;

verus! {

/// Why a store could not answer.
#[derive(Clone, Debug)]
pub struct StoreError {
    pub message: String,
}

/// A store of bytes under keys.
pub trait Store: Send + Sync + 'static {
    /// The bytes under `key`, `None` where there are none.
    fn get(&self, key: &str) -> Result<Option<Vec<u8>>, StoreError>;
}

/// A model that a policy is loaded into.
pub trait Model: Send + Sync + 'static {

}

} // verus!
