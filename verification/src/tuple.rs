use vstd::prelude::*;

use crate::rid::RID;

verus! {

/// A row: its bytes, and the record id it was stored under, if any.
pub struct Tuple {
    pub rid: Option<RID>,
    pub data: Vec<u8>,
}

impl Tuple {
    /// A tuple not yet stored (without a record id).
    pub fn new(data: Vec<u8>) -> (t: Self)
        ensures
            t.rid is None,
            t.data@ == data@,
    {
        Self { rid: None, data }
    }

    /// A tuple stored under `rid`.
    pub fn with_rid(rid: RID, data: Vec<u8>) -> (t: Self)
        ensures
            t.rid == Some(rid),
            t.data@ == data@,
    {
        Self { rid: Some(rid), data }
    }

    /// Length of the tuple's bytes.
    pub fn get_data_length(&self) -> (r: usize)
        ensures
            r == self.data@.len(),
    {
        self.data.len()
    }
}

} // verus!
