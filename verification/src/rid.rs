use vstd::prelude::*;

verus! {

/// A record identifier: the page a record lives on and its slot there.
#[derive(Clone, Copy, Debug, PartialEq, Eq, PartialOrd, Hash, Structural)]
pub struct RID {
    pub page_id: u32,
    pub slot_id: u32,
}

/// The 64-bit packing of a record id: page id in the upper half,
/// slot id in the lower half.
pub open spec fn packed(rid: RID) -> u64 {
    (rid.page_id as int * 0x1_0000_0000 + rid.slot_id as int) as u64
}

/// The record id a 64-bit value unpacks to.
pub open spec fn unpacked(val: u64) -> RID {
    RID { page_id: (val as int / 0x1_0000_0000) as u32, slot_id: (val as int % 0x1_0000_0000) as u32 }
}

impl RID {
    pub fn new(page_id: u32, slot_id: u32) -> (r: Self)
        ensures
            r.page_id == page_id,
            r.slot_id == slot_id,
    {
        Self { page_id, slot_id }
    }

    /// Packs the page id into the upper 32 bits and the slot id into the lower 32 bits.
    pub fn to_u64(rid: RID) -> (packed_u64: u64)
        ensures
            packed_u64 == packed(rid),
            packed_u64 == rid.page_id as int * 0x1_0000_0000 + rid.slot_id as int,
    {
        let mut packed_u64: u64 = 0x0000000000000000;
        let mut page_id = rid.page_id as u64;
        let slot_id = rid.slot_id as u64;
        page_id = page_id << 32;
        packed_u64 = packed_u64 | page_id;
        packed_u64 = packed_u64 | slot_id;
        let p = rid.page_id as u64;
        assert(((0u64 | (p << 32u64)) | slot_id) == p * 0x1_0000_0000 + slot_id) by (bit_vector)
            requires
                p < 0x1_0000_0000,
                slot_id < 0x1_0000_0000,
        ;
        packed_u64
    }

    /// Splits a packed value back into page id (upper half) and slot id (lower half).
    pub fn from_u64(val: u64) -> (r: Self)
        ensures
            r == unpacked(val),
            r.page_id == val as int / 0x1_0000_0000,
            r.slot_id == val as int % 0x1_0000_0000,
    {
        let page_id = (val >> 32) as u32;
        let slot_id = (val & 0xFFFFFFFF) as u32;
        assert((val >> 32u64) == val / 0x1_0000_0000) by (bit_vector);
        assert((val & 0xFFFFFFFFu64) == val % 0x1_0000_0000) by (bit_vector);
        Self { page_id, slot_id }
    }
}

/// Unpacking a packed record id gives the record id back.
pub proof fn lemma_unpack_packed(rid: RID)
    ensures
        unpacked(packed(rid)) == rid,
{
    let v = rid.page_id as int * 0x1_0000_0000 + rid.slot_id as int;
    assert(v / 0x1_0000_0000 == rid.page_id as int);
    assert(v % 0x1_0000_0000 == rid.slot_id as int);
}

/// Packing an unpacked value gives the value back: the packing is a bijection.
pub proof fn lemma_packed_unpacked(val: u64)
    ensures
        packed(unpacked(val)) == val,
{
}

/// Two record ids pack to the same value only if they are equal.
pub proof fn lemma_packed_injective(a: RID, b: RID)
    requires
        packed(a) == packed(b),
    ensures
        a == b,
{
    lemma_unpack_packed(a);
    lemma_unpack_packed(b);
}

} // verus!
