//! Decides, from the capability interfaces an object advertises, which part it
//! plays in the storage topology.
//!
//! Classification looks only at whether a handful of well-known names are
//! present. Every other name is ignored, so an object that gains capabilities
//! this crate has never heard of is classified exactly as before.

use vstd::prelude::*;

verus! {

/// Interface advertised by every drive.
pub const DRIVE_INTERFACE: &'static str = "org.freedesktop.UDisks2.Drive";

/// Interface advertised by every block device.
pub const BLOCK_INTERFACE: &'static str = "org.freedesktop.UDisks2.Block";

/// Interface advertised by a block device that carries a partition table.
pub const PARTITION_TABLE_INTERFACE: &'static str = "org.freedesktop.UDisks2.PartitionTable";

/// Interface advertised by a block device that is a partition of some table.
pub const PARTITION_INTERFACE: &'static str = "org.freedesktop.UDisks2.Partition";

/// The primary role of an object. An object has exactly one.
#[derive(Clone, Copy, Debug, PartialEq, Eq, Structural)]
pub enum Role {
    /// The object is a drive, the root of a subtree.
    Drive,
    /// The object is a block device.
    Block,
    /// The object is neither; the topology does not track it.
    Neither,
}

/// The set of names that a list of advertised interfaces stands for. Order and
/// repetition in the list carry no meaning.
pub open spec fn interface_set(names: Seq<String>) -> Set<Seq<char>> {
    Set::new(|name: Seq<char>| exists|i: int| 0 <= i < names.len() && (#[trigger] names[i])@ == name)
}

/// The primary role of an object that advertises `interfaces`. A drive is a
/// drive whatever else it advertises; failing that, a block device is a block.
pub open spec fn role_of(interfaces: Set<Seq<char>>) -> Role {
    if interfaces.contains(DRIVE_INTERFACE@) {
        Role::Drive
    } else if interfaces.contains(BLOCK_INTERFACE@) {
        Role::Block
    } else {
        Role::Neither
    }
}

/// Whether `interface` is among `names`.
pub fn advertises(names: &[String], interface: &str) -> (found: bool)
    ensures
        found == interface_set(names@).contains(interface@),
{
    let wanted = interface.to_owned();
    let mut i: usize = 0;
    while i < names.len()
        invariant
            i <= names.len(),
            wanted@ == interface@,
            forall|j: int| 0 <= j < i ==> (#[trigger] names@[j])@ != interface@,
        decreases names.len() - i,
    {
        if names[i] == wanted {
            return true;
        }
        i += 1;
    }
    false
}

/// The primary role of an object that advertises `names`.
pub fn classify(names: &[String]) -> (role: Role)
    ensures
        role == role_of(interface_set(names@)),
{
    if advertises(names, DRIVE_INTERFACE) {
        Role::Drive
    } else if advertises(names, BLOCK_INTERFACE) {
        Role::Block
    } else {
        Role::Neither
    }
}

/// Whether an object that advertises `names` carries a partition table.
pub fn is_partition_table(names: &[String]) -> (table: bool)
    ensures
        table == interface_set(names@).contains(PARTITION_TABLE_INTERFACE@),
{
    advertises(names, PARTITION_TABLE_INTERFACE)
}

/// Whether an object that advertises `names` is a partition.
pub fn is_partition(names: &[String]) -> (partition: bool)
    ensures
        partition == interface_set(names@).contains(PARTITION_INTERFACE@),
{
    advertises(names, PARTITION_INTERFACE)
}

/// Names other than the drive and block interfaces never change the role.
pub proof fn law_extra_interfaces_ignored(interfaces: Set<Seq<char>>, extra: Set<Seq<char>>)
    requires
        !extra.contains(DRIVE_INTERFACE@),
        !extra.contains(BLOCK_INTERFACE@),
    ensures
        role_of(interfaces.union(extra)) == role_of(interfaces),
{
}

} // verus!
