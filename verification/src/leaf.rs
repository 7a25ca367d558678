//! The leaf node: one stored (key, value) pair.
use vstd::prelude::*;

use crate::Leaf;

verus! {

impl Leaf {
    /// A fresh leaf holding exactly the given key and value.
    pub fn new(new_key: Vec<u8>, new_value: Vec<u8>) -> (l: Leaf)
        ensures
            l.key@ == new_key@,
            l.value@ == new_value@,
    {
        Leaf { key: new_key, value: new_value }
    }
}

} // verus!
