//! The mathematical model of the topology: what the store holds, and what
//! each of its operations does, stated over sequences of plain records.
//!
//! An identity is the sequence of characters of an object's path. Drives and
//! blocks are kept in the order in which they were first inserted. Whether a
//! block hangs under a drive is never recorded here: it follows from the
//! block's declared parent and from the drives that are known at the moment.

use vstd::prelude::*;
use crate::classifier::Role;

verus! {

/// The display attributes of a drive. An attribute the service did not give
/// is absent.
pub struct Attributes {
    pub model: Option<Seq<char>>,
    pub serial: Option<Seq<char>>,
    pub removable: Option<bool>,
    pub media_present: Option<bool>,
}

/// One entry of a partition table: the partition's identity and its number.
pub struct Slot {
    pub identity: Seq<char>,
    pub number: nat,
}

/// A drive, as the store remembers it.
pub struct DriveRecord<H> {
    pub identity: Seq<char>,
    pub handle: H,
    pub attributes: Attributes,
}

/// A block device, as the store remembers it.
pub struct BlockRecord<H> {
    pub identity: Seq<char>,
    pub handle: H,
    /// The drive this block says it belongs to, known to the store or not.
    pub declared_parent: Option<Seq<char>>,
    /// The partitions of the table this block carries, by partition number.
    pub partitions: Seq<Slot>,
}

/// Everything the store knows.
pub struct Topology<H> {
    pub drives: Seq<DriveRecord<H>>,
    pub blocks: Seq<BlockRecord<H>>,
}

/// Holds of every drive but the one named `id`.
pub open spec fn drive_is_not<H>(id: Seq<char>) -> spec_fn(DriveRecord<H>) -> bool {
    |d: DriveRecord<H>| d.identity != id
}

/// Holds of every block but the one named `id`.
pub open spec fn block_is_not<H>(id: Seq<char>) -> spec_fn(BlockRecord<H>) -> bool {
    |b: BlockRecord<H>| b.identity != id
}

/// Holds of every slot but those of the partition named `id`.
pub open spec fn slot_is_not(id: Seq<char>) -> spec_fn(Slot) -> bool {
    |s: Slot| s.identity != id
}

/// Holds of the slots numbered `number` or lower.
pub open spec fn slot_up_to(number: nat) -> spec_fn(Slot) -> bool {
    |s: Slot| s.number <= number
}

/// Holds of the slots numbered above `number`.
pub open spec fn slot_above(number: nat) -> spec_fn(Slot) -> bool {
    |s: Slot| s.number > number
}

/// Whether some slot of `slots` names the partition `id`.
pub open spec fn lists(slots: Seq<Slot>, id: Seq<char>) -> bool {
    exists|k: int| 0 <= k < slots.len() && (#[trigger] slots[k]).identity == id
}

/// Holds of the slots whose partition `listing` does not name.
pub open spec fn slot_not_in(listing: Seq<Slot>) -> spec_fn(Slot) -> bool {
    |s: Slot| !lists(listing, s.identity)
}

/// Slots come by partition number, lowest first.
pub open spec fn ascending(slots: Seq<Slot>) -> bool {
    forall|k: int, l: int|
        0 <= k < l < slots.len() ==> (#[trigger] slots[k]).number <= (#[trigger] slots[l]).number
}

/// No partition occupies two slots.
pub open spec fn distinct(slots: Seq<Slot>) -> bool {
    forall|k: int, l: int|
        0 <= k < l < slots.len() ==> (#[trigger] slots[k]).identity != (#[trigger] slots[l]).identity
}

/// `slots` with `slot` put behind every slot of the same or a lower number and
/// before every slot of a higher one.
#[verifier::opaque]
pub open spec fn place(slots: Seq<Slot>, slot: Slot) -> Seq<Slot> {
    slots.filter(slot_up_to(slot.number)).push(slot) + slots.filter(slot_above(slot.number))
}

impl<H> BlockRecord<H> {
    /// This block with the partition `id` taken off its table.
    pub open spec fn without_partition(self, id: Seq<char>) -> Self {
        BlockRecord { partitions: self.partitions.filter(slot_is_not(id)), ..self }
    }

    /// This block with `slot` put into its table at the place its number gives.
    pub open spec fn with_partition(self, slot: Slot) -> Self {
        BlockRecord { partitions: place(self.partitions, slot), ..self }
    }

    /// This block with the partitions that `listing` names taken off its table.
    pub open spec fn without_listed(self, listing: Seq<Slot>) -> Self {
        BlockRecord { partitions: self.partitions.filter(slot_not_in(listing)), ..self }
    }

    /// This block with `listing` as its whole table.
    pub open spec fn with_table(self, listing: Seq<Slot>) -> Self {
        BlockRecord { partitions: listing, ..self }
    }

    /// This block seen again: a fresh handle and declared parent, the table kept.
    pub open spec fn refreshed(self, handle: H, declared_parent: Option<Seq<char>>) -> Self {
        BlockRecord { handle, declared_parent, ..self }
    }
}

/// The name of a block.
pub open spec fn block_name<H>() -> spec_fn(BlockRecord<H>) -> Seq<char> {
    |b: BlockRecord<H>| b.identity
}

/// Takes the partition `id` off a block's table.
pub open spec fn detach<H>(id: Seq<char>) -> spec_fn(BlockRecord<H>) -> BlockRecord<H> {
    |b: BlockRecord<H>| b.without_partition(id)
}

/// Replaces the drive named like `record` by `record`.
pub open spec fn renew_drive<H>(record: DriveRecord<H>) -> spec_fn(DriveRecord<H>) -> DriveRecord<H> {
    |d: DriveRecord<H>| if d.identity == record.identity { record } else { d }
}

/// Gives the block named `id` a fresh handle and declared parent.
pub open spec fn renew_block<H>(
    id: Seq<char>,
    handle: H,
    declared_parent: Option<Seq<char>>,
) -> spec_fn(BlockRecord<H>) -> BlockRecord<H> {
    |b: BlockRecord<H>| if b.identity == id { b.refreshed(handle, declared_parent) } else { b }
}

/// Puts `slot` into the table of the block named `table`.
pub open spec fn attach<H>(table: Seq<char>, slot: Slot) -> spec_fn(BlockRecord<H>) -> BlockRecord<H> {
    |b: BlockRecord<H>| if b.identity == table { b.with_partition(slot) } else { b }
}

/// Makes `listing` the table of the block named `table`, and takes the
/// partitions it names off every other table.
pub open spec fn resync<H>(table: Seq<char>, listing: Seq<Slot>) -> spec_fn(BlockRecord<H>) -> BlockRecord<H> {
    |b: BlockRecord<H>| if b.identity == table { b.with_table(listing) } else { b.without_listed(listing) }
}

/// No two drives share an identity.
pub open spec fn drives_apart<H>(drives: Seq<DriveRecord<H>>) -> bool {
    forall|i: int, j: int|
        0 <= i < j < drives.len() ==> (#[trigger] drives[i]).identity != (#[trigger] drives[j]).identity
}

/// What a table named `table` makes of `listing`: the slots of the listing
/// placed one after the other into an empty table, each by its number, a later
/// slot of a partition replacing an earlier one, and a slot of the table itself
/// left out.
pub open spec fn arrange(listing: Seq<Slot>, table: Seq<char>) -> Seq<Slot>
    decreases listing.len(),
{
    if listing.len() == 0 {
        Seq::empty()
    } else {
        let sooner = arrange(listing.drop_last(), table);
        let slot = listing.last();
        if slot.identity == table {
            sooner
        } else {
            place(sooner.filter(slot_is_not(slot.identity)), slot)
        }
    }
}

/// A table is tidy when its slots come by number, no partition comes twice,
/// and the block that owns it is not among them.
pub open spec fn tidy(slots: Seq<Slot>, owner: Seq<char>) -> bool {
    &&& ascending(slots)
    &&& distinct(slots)
    &&& !lists(slots, owner)
}

/// No two blocks share an identity, every table is tidy, and no partition is
/// listed by two tables.
pub open spec fn blocks_wf<H>(blocks: Seq<BlockRecord<H>>) -> bool {
    &&& forall|i: int, j: int|
        0 <= i < j < blocks.len() ==> (#[trigger] blocks[i]).identity != (#[trigger] blocks[j]).identity
    &&& forall|i: int| 0 <= i < blocks.len() ==> tidy((#[trigger] blocks[i]).partitions, blocks[i].identity)
    &&& forall|i: int, j: int, id: Seq<char>|
        0 <= i < blocks.len() && 0 <= j < blocks.len() && i != j && #[trigger] lists(blocks[i].partitions, id)
            ==> !#[trigger] lists(blocks[j].partitions, id)
}

impl<H> Topology<H> {
    /// The topology that knows nothing.
    pub open spec fn empty() -> Self {
        Topology { drives: Seq::empty(), blocks: Seq::empty() }
    }

    /// Whether a drive named `id` is known.
    pub open spec fn has_drive(self, id: Seq<char>) -> bool {
        exists|i: int| 0 <= i < self.drives.len() && (#[trigger] self.drives[i]).identity == id
    }

    /// Whether a block named `id` is known.
    pub open spec fn has_block(self, id: Seq<char>) -> bool {
        exists|i: int| 0 <= i < self.blocks.len() && (#[trigger] self.blocks[i]).identity == id
    }

    /// The role under which `id` is known.
    pub open spec fn role(self, id: Seq<char>) -> Role {
        if self.has_drive(id) {
            Role::Drive
        } else if self.has_block(id) {
            Role::Block
        } else {
            Role::Neither
        }
    }

    /// Whether any table lists the partition `id`.
    pub open spec fn lists_partition(self, id: Seq<char>) -> bool {
        exists|i: int| 0 <= i < self.blocks.len() && lists((#[trigger] self.blocks[i]).partitions, id)
    }

    /// Whether `id` occurs anywhere: as a drive, as a block, or in a table.
    pub open spec fn mentions(self, id: Seq<char>) -> bool {
        self.has_drive(id) || self.has_block(id) || self.lists_partition(id)
    }

    /// No identity names two nodes, every table is in order, and no partition
    /// is listed twice.
    pub open spec fn wf(self) -> bool {
        &&& drives_apart(self.drives)
        &&& blocks_wf(self.blocks)
        &&& forall|i: int, j: int|
            0 <= i < self.drives.len() && 0 <= j < self.blocks.len() ==> (
            #[trigger] self.drives[i]).identity != (#[trigger] self.blocks[j]).identity
    }

    /// The record of the drive named `id`, where one is known.
    pub open spec fn drive(self, id: Seq<char>) -> DriveRecord<H> {
        self.drives[choose|i: int| 0 <= i < self.drives.len() && (#[trigger] self.drives[i]).identity == id]
    }

    /// The record of the block named `id`, where one is known.
    pub open spec fn block(self, id: Seq<char>) -> BlockRecord<H> {
        self.blocks[choose|i: int| 0 <= i < self.blocks.len() && (#[trigger] self.blocks[i]).identity == id]
    }

    /// The node named `id` is forgotten, and with it every mention of `id` in a
    /// table. Blocks that declare `id` as their parent stay, and keep saying so.
    pub open spec fn remove(self, id: Seq<char>) -> Self {
        Topology {
            drives: self.drives.filter(drive_is_not(id)),
            blocks: self.blocks.filter(block_is_not(id)).map_values(detach(id)),
        }
    }

    /// A drive is seen whose name no block carries: a drive of that name keeps
    /// its place and takes the new handle and attributes, otherwise the drive
    /// comes last.
    pub open spec fn put_drive(self, id: Seq<char>, handle: H, attributes: Attributes) -> Self {
        let record = DriveRecord { identity: id, handle, attributes };
        if self.has_drive(id) {
            Topology { drives: self.drives.map_values(renew_drive(record)), ..self }
        } else {
            Topology { drives: self.drives.push(record), ..self }
        }
    }

    /// A block is seen whose name no drive carries: a block of that name keeps
    /// its place and its table and takes the new handle and declared parent,
    /// otherwise the block comes last, with an empty table.
    pub open spec fn put_block(self, id: Seq<char>, handle: H, declared_parent: Option<Seq<char>>) -> Self {
        if self.has_block(id) {
            Topology { blocks: self.blocks.map_values(renew_block(id, handle, declared_parent)), ..self }
        } else {
            Topology {
                blocks: self.blocks.push(
                    BlockRecord { identity: id, handle, declared_parent, partitions: Seq::empty() },
                ),
                ..self
            }
        }
    }

    /// A drive named `id` is seen. A block of that name is forgotten first, so
    /// that the name has one role.
    pub open spec fn insert_drive(self, id: Seq<char>, handle: H, attributes: Attributes) -> Self {
        let base = if self.has_block(id) { self.remove(id) } else { self };
        base.put_drive(id, handle, attributes)
    }

    /// A block named `id` is seen. A drive of that name is forgotten first, so
    /// that the name has one role.
    pub open spec fn insert_block(self, id: Seq<char>, handle: H, declared_parent: Option<Seq<char>>) -> Self {
        let base = if self.has_drive(id) { self.remove(id) } else { self };
        base.put_block(id, handle, declared_parent)
    }

    /// The partition `id` is taken off every table.
    pub open spec fn detach_partition(self, id: Seq<char>) -> Self {
        Topology { blocks: self.blocks.map_values(detach(id)), ..self }
    }

    /// The partition `id` says it is number `number` of `table`. It leaves
    /// whatever table listed it, and enters that of `table` by its number, if
    /// `table` is a known block other than `id` itself.
    pub open spec fn place_partition(self, id: Seq<char>, table: Seq<char>, number: nat) -> Self {
        let base = self.detach_partition(id);
        if table != id && base.has_block(table) {
            Topology { blocks: base.blocks.map_values(attach(table, Slot { identity: id, number })), ..base }
        } else {
            base
        }
    }

    /// Whether `table` is a known block and `slots` a tidy table for it.
    pub open spec fn accepts_table(self, table: Seq<char>, slots: Seq<Slot>) -> bool {
        self.has_block(table) && tidy(slots, table)
    }

    /// The block `table` takes `slots` as its whole table, and the partitions
    /// among them leave every other table, if `table` is a known block and
    /// `slots` is tidy for it; if not, nothing changes.
    pub open spec fn take_table(self, table: Seq<char>, slots: Seq<Slot>) -> Self {
        if self.accepts_table(table, slots) {
            Topology { blocks: self.blocks.map_values(resync(table, slots)), ..self }
        } else {
            self
        }
    }

    /// The block `table` reports `listing` as its partitions. If `table` is a
    /// known block, its table becomes the listing put in order, and the
    /// partitions of the listing leave every other table; if not, nothing
    /// changes.
    pub open spec fn sync_partitions(self, table: Seq<char>, listing: Seq<Slot>) -> Self {
        self.take_table(table, arrange(listing, table))
    }

    /// Whether the drive that `block` declares as its parent is known.
    pub open spec fn resolves(self, block: BlockRecord<H>) -> bool {
        block.declared_parent matches Some(parent) && self.has_drive(parent)
    }

    /// Holds of the blocks that wait for a drive that is not known.
    pub open spec fn waiting(self) -> spec_fn(BlockRecord<H>) -> bool {
        |b: BlockRecord<H>| b.declared_parent.is_some() && !self.resolves(b)
    }

    /// The orphans: the names of the blocks that wait for a drive that is not
    /// known, in the order the store keeps them.
    pub open spec fn orphans(self) -> Seq<Seq<char>> {
        self.blocks.filter(self.waiting()).map_values(block_name())
    }
}

} // verus!
