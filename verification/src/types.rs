//! Handles by which the parts of a scene are shared.

use std::sync::Arc;
use vstd::prelude::*;

verus! {

/// A value with several owners. A scene is built bottom-up and not changed
/// afterwards, so its parts are shared for reading.
pub type Shared<T> = Arc<T>;

/// Makes a shared handle of a value.
pub fn create_shared_mut<T>(t: T) -> (shared: Shared<T>)
    ensures
        *shared == t,
{
    Arc::new(t)
}

} // verus!
