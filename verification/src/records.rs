//! The plain values that describe a drive and a partition-table entry.

use vstd::prelude::*;
use crate::model::{Attributes, Slot};

verus! {

/// The display attributes of a drive, as last read. An attribute that the
/// service did not give is absent.
#[derive(Debug, PartialEq, Eq)]
pub struct DriveAttributes {
    pub model: Option<String>,
    pub serial: Option<String>,
    pub removable: Option<bool>,
    pub media_present: Option<bool>,
}

impl View for DriveAttributes {
    type V = Attributes;

    open spec fn view(&self) -> Attributes {
        Attributes {
            model: self.model.deep_view(),
            serial: self.serial.deep_view(),
            removable: self.removable,
            media_present: self.media_present,
        }
    }
}

impl Clone for DriveAttributes {
    fn clone(&self) -> (copy: Self)
        ensures
            copy@ == self@,
    {
        DriveAttributes {
            model: self.model.clone(),
            serial: self.serial.clone(),
            removable: self.removable,
            media_present: self.media_present,
        }
    }
}

/// One entry of a partition table: the partition's identity and its number.
#[derive(Debug, PartialEq, Eq)]
pub struct PartitionEntry {
    pub identity: String,
    pub number: u32,
}

impl View for PartitionEntry {
    type V = Slot;

    open spec fn view(&self) -> Slot {
        Slot { identity: self.identity@, number: self.number as nat }
    }
}

impl Clone for PartitionEntry {
    fn clone(&self) -> (copy: Self)
        ensures
            copy@ == self@,
    {
        PartitionEntry { identity: self.identity.clone(), number: self.number }
    }
}

/// The model of one entry.
pub open spec fn slot_of() -> spec_fn(PartitionEntry) -> Slot {
    |e: PartitionEntry| e@
}

/// The model of a table held as a vector of entries.
pub open spec fn slots_of(entries: Seq<PartitionEntry>) -> Seq<Slot> {
    entries.map_values(slot_of())
}

/// A copy of a table.
pub fn copy_entries(entries: &Vec<PartitionEntry>) -> (copy: Vec<PartitionEntry>)
    ensures
        slots_of(copy@) == slots_of(entries@),
{
    let mut copy: Vec<PartitionEntry> = Vec::new();
    let mut i: usize = 0;
    while i < entries.len()
        invariant
            i <= entries.len(),
            copy.len() == i,
            forall|k: int| 0 <= k < i ==> (#[trigger] copy[k])@ == entries[k]@,
        decreases entries.len() - i,
    {
        copy.push(entries[i].clone());
        i += 1;
    }
    assert(slots_of(copy@) =~= slots_of(entries@));
    copy
}

} // verus!
