//! Loaded media assets.
use std::collections::HashMap;
use vstd::prelude::*;

verus! {

/// Bytes of a loaded asset with free-form metadata.
pub struct Asset {
    pub metadata: HashMap<String, String>,
    pub bytes: Vec<u8>,
}

impl Asset {
    /// An asset holding `bytes`, with no metadata.
    pub fn new(bytes: Vec<u8>) -> (r: Asset)
        ensures
            r.metadata@ == Map::<String, String>::empty(),
            r.bytes@ == bytes@,
    {
        Asset { metadata: HashMap::new(), bytes }
    }
}

} // verus!
