//! What holds of the topology whatever is done to it, and in whatever order.

use vstd::prelude::*;
use crate::lookup::{
    lemma_block_at, lemma_block_position, lemma_drive_at, lemma_drive_position, lemma_insert_drive_keeps,
    lemma_remove_keeps,
};
use crate::model::{
    arrange, ascending, lists, renew_block, renew_drive, resync, slot_is_not, slot_not_in, tidy, Attributes,
    BlockRecord, DriveRecord, Slot, Topology,
};
use crate::order::{lemma_put_block_remove, lemma_put_drive_remove, lemma_remove_commutes};
use crate::seqs::{lemma_filter_again, lemma_filter_origin};
use crate::tree::{lemma_tree_complete, lemma_tree_consistent, lemma_tree_mentions, Place};
use crate::wellformed::{
    lemma_kept_slots, lemma_insert_block, lemma_insert_drive, lemma_place_partition, lemma_remove,
    lemma_arranged, lemma_sync_partitions, lemma_take_table, lemma_unplace,
};

verus! {

/// Seeing the same drive twice, with the same handle and attributes, is
/// seeing it once.
pub proof fn law_insert_drive_idempotent<H>(t: Topology<H>, id: Seq<char>, handle: H, attributes: Attributes)
    requires
        t.wf(),
    ensures
        t.insert_drive(id, handle, attributes).insert_drive(id, handle, attributes) == t.insert_drive(
            id,
            handle,
            attributes,
        ),
{
    let once = t.insert_drive(id, handle, attributes);
    let twice = once.insert_drive(id, handle, attributes);
    let record = DriveRecord { identity: id, handle, attributes };
    lemma_insert_drive(t, id, handle, attributes);
    assert forall|i: int| 0 <= i < once.drives.len() implies renew_drive(record)(#[trigger] once.drives[i])
        == once.drives[i] by {
        lemma_drive_at(once, i);
    }
    assert(twice.drives =~= once.drives);
}

/// Seeing the same block twice, with the same handle and declared parent, is
/// seeing it once.
pub proof fn law_insert_block_idempotent<H>(
    t: Topology<H>,
    id: Seq<char>,
    handle: H,
    declared_parent: Option<Seq<char>>,
)
    requires
        t.wf(),
    ensures
        t.insert_block(id, handle, declared_parent).insert_block(id, handle, declared_parent) == t.insert_block(
            id,
            handle,
            declared_parent,
        ),
{
    let once = t.insert_block(id, handle, declared_parent);
    let twice = once.insert_block(id, handle, declared_parent);
    lemma_insert_block(t, id, handle, declared_parent);
    assert forall|i: int| 0 <= i < once.blocks.len() implies renew_block(id, handle, declared_parent)(
        #[trigger] once.blocks[i],
    ) == once.blocks[i] by {
        lemma_block_at(once, i);
    }
    assert(twice.blocks =~= once.blocks);
}

/// A block that has just lost a partition, and then perhaps received it back,
/// is the block that has just lost it once it loses it again.
proof fn lemma_detach_settles<H>(b: BlockRecord<H>, slot: Slot)
    requires
        ascending(b.partitions),
    ensures
        b.without_partition(slot.identity).without_partition(slot.identity) == b.without_partition(slot.identity),
        b.without_partition(slot.identity).with_partition(slot).without_partition(slot.identity)
            == b.without_partition(slot.identity),
{
    let cleared = b.partitions.filter(slot_is_not(slot.identity));
    lemma_kept_slots(b.partitions, slot_is_not(slot.identity));
    assert(!lists(cleared, slot.identity));
    lemma_filter_again(b.partitions, slot_is_not(slot.identity));
    lemma_unplace(cleared, slot);
}

/// Once a partition has been placed, taking it off every table leaves what
/// taking it off before the placing left.
proof fn lemma_place_then_detach<H>(t: Topology<H>, id: Seq<char>, table: Seq<char>, number: nat)
    requires
        t.wf(),
    ensures
        t.place_partition(id, table, number).detach_partition(id) == t.detach_partition(id),
{
    let slot = Slot { identity: id, number };
    let base = t.detach_partition(id);
    let again = t.place_partition(id, table, number).detach_partition(id);
    assert forall|i: int| 0 <= i < base.blocks.len() implies #[trigger] again.blocks[i] == base.blocks[i] by {
        assert(tidy(t.blocks[i].partitions, t.blocks[i].identity));
        lemma_detach_settles(t.blocks[i], slot);
    }
    assert(again.blocks =~= base.blocks);
}

/// Placing the same partition twice, in the same table under the same
/// number, is placing it once.
pub proof fn law_place_partition_idempotent<H>(t: Topology<H>, id: Seq<char>, table: Seq<char>, number: nat)
    requires
        t.wf(),
    ensures
        t.place_partition(id, table, number).place_partition(id, table, number) == t.place_partition(
            id,
            table,
            number,
        ),
{
    lemma_place_then_detach(t, id, table, number);
}

/// Taking over the same listing twice is taking it over once.
pub proof fn law_sync_partitions_idempotent<H>(t: Topology<H>, table: Seq<char>, listing: Seq<Slot>)
    requires
        t.wf(),
    ensures
        t.sync_partitions(table, listing).sync_partitions(table, listing) == t.sync_partitions(table, listing),
{
    let slots = arrange(listing, table);
    let once = t.take_table(table, slots);
    let twice = once.take_table(table, slots);
    lemma_arranged(listing, table);
    lemma_take_table(t, table, slots);
    if t.has_block(table) {
        assert(once.accepts_table(table, slots));
        assert forall|i: int| 0 <= i < once.blocks.len()
            implies resync::<H>(table, slots)(#[trigger] once.blocks[i])
            == once.blocks[i] by {
            if once.blocks[i].identity != table {
                lemma_filter_again(t.blocks[i].partitions, slot_not_in(slots));
            }
        }
        assert(twice.blocks =~= once.blocks);
    } else {
        assert(!once.accepts_table(table, slots));
    }
}

/// Partition re-sync: a re-read table holds what it last reported, put in
/// order, whatever its table held before. It holds exactly what it reported
/// where that came in order, and no other table keeps a partition of it.
pub proof fn law_partition_resync<H>(t: Topology<H>, table: Seq<char>, earlier: Seq<Slot>, later: Seq<Slot>)
    requires
        t.wf(),
        t.has_block(table),
    ensures
        t.sync_partitions(table, earlier).sync_partitions(table, later).block(table).partitions == arrange(
            later,
            table,
        ),
        tidy(later, table) ==> t.sync_partitions(table, earlier).sync_partitions(table, later).block(
            table,
        ).partitions == later,
        forall|other: Seq<char>, id: Seq<char>|
            other != table && t.has_block(other) && lists(arrange(later, table), id) ==> !#[trigger] lists(
                t.sync_partitions(table, earlier).sync_partitions(table, later).block(other).partitions,
                id,
            ),
{
    let first = t.sync_partitions(table, earlier);
    let second = first.sync_partitions(table, later);
    let slots = arrange(later, table);
    lemma_sync_partitions(t, table, earlier);
    lemma_sync_partitions(first, table, later);
    lemma_arranged(later, table);
    lemma_take_table(first, table, slots);
    assert(first.accepts_table(table, slots));
    assert forall|other: Seq<char>, id: Seq<char>|
        other != table && t.has_block(other) && lists(slots, id) implies !#[trigger] lists(
        second.block(other).partitions,
        id,
    ) by {
        assert(first.has_block(other));
        assert(second.has_block(other));
        let at = lemma_block_position(second, other);
        assert(first.blocks[at].identity == other);
        assert(!lists(second.blocks[at].partitions, id));
    }
}

/// A block that arrives before the drive it declares is attached under that
/// drive once the drive arrives: it hangs there, it is no root of its own, and
/// it is no orphan.
pub proof fn law_orphan_reconciled<H>(
    t: Topology<H>,
    block: Seq<char>,
    block_handle: H,
    drive: Seq<char>,
    drive_handle: H,
    attributes: Attributes,
)
    requires
        t.wf(),
        block != drive,
    ensures
        ({
            let after = t.insert_block(block, block_handle, Some(drive)).insert_drive(
                drive,
                drive_handle,
                attributes,
            );
            &&& after.wf()
            &&& after.has_drive(drive)
            &&& after.has_block(block)
            &&& after.block(block).declared_parent == Some(drive)
            &&& after.tree().hangs_under(block, drive)
            &&& !after.tree().is_bare(block)
            &&& !after.orphans().contains(block)
        }),
{
    let middle = t.insert_block(block, block_handle, Some(drive));
    let after = middle.insert_drive(drive, drive_handle, attributes);
    lemma_insert_block(t, block, block_handle, Some(drive));
    lemma_insert_drive(middle, drive, drive_handle, attributes);
    lemma_insert_drive_keeps(middle, drive, drive_handle, attributes, block);
    lemma_attached(after, block, drive);
}

/// In a well-formed topology, a block that declares a known drive hangs under
/// it, is no root of its own, and is no orphan.
pub proof fn lemma_attached<H>(t: Topology<H>, block: Seq<char>, drive: Seq<char>)
    requires
        t.wf(),
        t.has_drive(drive),
        t.has_block(block),
        t.block(block).declared_parent == Some(drive),
    ensures
        t.tree().hangs_under(block, drive),
        !t.tree().is_bare(block),
        !t.orphans().contains(block),
{
    let tree = t.tree();
    let at = lemma_block_position(t, block);
    assert(t.resolves(t.blocks[at]));
    lemma_tree_complete(t);
    lemma_tree_consistent(t);
    let (d, k) = choose|d: int, k: int| #[trigger]
        tree.holds(Place::Under { drive: d, index: k }) && tree.drives[d].identity == drive
            && tree.drives[d].blocks[k].identity == block;
    let under = Place::Under { drive: d, index: k };
    if tree.is_bare(block) {
        let b = choose|b: int| #[trigger] tree.holds(Place::Bare { index: b }) && tree.bare[b].identity == block;
        let bare = Place::Bare { index: b };
        assert(tree.holds(under) && tree.holds(bare) && under != bare);
        assert(tree.leaf_at(under).identity != tree.leaf_at(bare).identity);
    }
    if t.orphans().contains(block) {
        let waiting = t.blocks.filter(t.waiting());
        let origin = lemma_filter_origin(t.blocks, t.waiting());
        let i = choose|i: int| 0 <= i < t.orphans().len() && t.orphans()[i] == block;
        assert(waiting[i].identity == block);
        lemma_block_at(t, origin[i]);
    }
}

/// In a well-formed topology, a block that declares a drive that is not known
/// is a root of its own and an orphan, and hangs under no drive.
pub proof fn lemma_orphaned<H>(t: Topology<H>, block: Seq<char>, drive: Seq<char>)
    requires
        t.wf(),
        !t.has_drive(drive),
        t.has_block(block),
        t.block(block).declared_parent == Some(drive),
    ensures
        t.tree().is_bare(block),
        t.orphans().contains(block),
        forall|any: Seq<char>| !t.tree().hangs_under(block, any),
{
    let tree = t.tree();
    let at = lemma_block_position(t, block);
    assert(!t.resolves(t.blocks[at]));
    lemma_tree_complete(t);
    lemma_tree_consistent(t);
    let b = choose|b: int| #[trigger] tree.holds(Place::Bare { index: b }) && tree.bare[b].identity == block;
    let bare = Place::Bare { index: b };
    assert forall|any: Seq<char>| !tree.hangs_under(block, any) by {
        if tree.hangs_under(block, any) {
            let (d, k) = choose|d: int, k: int| #[trigger]
                tree.holds(Place::Under { drive: d, index: k }) && tree.drives[d].identity == any
                    && tree.drives[d].blocks[k].identity == block;
            let under = Place::Under { drive: d, index: k };
            assert(tree.holds(under) && tree.holds(bare) && under != bare);
            assert(tree.leaf_at(under).identity != tree.leaf_at(bare).identity);
        }
    }
    let origin = lemma_filter_origin(t.blocks, t.waiting());
    assert(t.waiting()(t.blocks[at]));
    let i = choose|i: int| 0 <= i < origin.len() && #[trigger] origin[i] == at;
    assert(t.orphans()[i] == block);
}

/// Removing a drive does not remove the blocks under it. The drive is gone
/// from the store and from the tree; a block that declared it stays, with its
/// handle, its declared parent and its table, as a root of its own and an orphan.
pub proof fn law_removal_cascades<H>(t: Topology<H>, drive: Seq<char>, block: Seq<char>)
    requires
        t.wf(),
        t.has_drive(drive),
        t.has_block(block),
        t.block(block).declared_parent == Some(drive),
    ensures
        !t.remove(drive).has_drive(drive),
        !t.remove(drive).tree().mentions(drive),
        t.remove(drive).has_block(block),
        t.remove(drive).block(block) == t.block(block).without_partition(drive),
        t.remove(drive).tree().is_bare(block),
        t.remove(drive).orphans().contains(block),
{
    let after = t.remove(drive);
    lemma_remove(t, drive);
    let at = lemma_block_position(t, block);
    let d = lemma_drive_position(t, drive);
    assert(t.drives[d].identity != t.blocks[at].identity);
    lemma_remove_keeps(t, drive, block);
    if after.tree().mentions(drive) {
        lemma_tree_mentions(after, drive);
    }
    lemma_orphaned(after, block, drive);
}

/// A removed name is gone: neither the store nor the tree mentions it, as a
/// drive, as a block or in a table.
pub proof fn law_removed_is_gone<H>(t: Topology<H>, id: Seq<char>)
    requires
        t.wf(),
    ensures
        !t.remove(id).mentions(id),
        !t.remove(id).tree().mentions(id),
{
    lemma_remove(t, id);
    if t.remove(id).tree().mentions(id) {
        lemma_tree_mentions(t.remove(id), id);
    }
}

/// A drive and a block of different names can arrive in either order: the
/// store ends up the same, whatever it held before and whatever parent the
/// block declares.
pub proof fn law_arrival_order<H>(
    t: Topology<H>,
    drive: Seq<char>,
    drive_handle: H,
    attributes: Attributes,
    block: Seq<char>,
    block_handle: H,
    declared_parent: Option<Seq<char>>,
)
    requires
        t.wf(),
        drive != block,
    ensures
        t.insert_drive(drive, drive_handle, attributes).insert_block(block, block_handle, declared_parent)
            == t.insert_block(block, block_handle, declared_parent).insert_drive(drive, drive_handle, attributes),
{
    let drive_first = t.insert_drive(drive, drive_handle, attributes);
    let block_first = t.insert_block(block, block_handle, declared_parent);
    lemma_insert_drive(t, drive, drive_handle, attributes);
    lemma_insert_block(t, block, block_handle, declared_parent);
    lemma_remove(t, drive);
    lemma_remove(t, block);
    assert(drive_first.has_drive(block) <==> t.has_drive(block));
    assert(block_first.has_block(drive) <==> t.has_block(drive));
    if t.has_block(drive) {
        lemma_put_drive_remove(t.remove(drive), drive, drive_handle, attributes, block);
    } else {
        lemma_put_drive_remove(t, drive, drive_handle, attributes, block);
    }
    if t.has_drive(block) {
        lemma_put_block_remove(t.remove(block), block, block_handle, declared_parent, drive);
    } else {
        lemma_put_block_remove(t, block, block_handle, declared_parent, drive);
    }
    lemma_remove_commutes(t, drive, block);
}

/// Order independence: a drive and a block that declares it end up as the
/// drive with the block under it, whichever of the two arrives first.
pub proof fn law_order_independent<H>(
    t: Topology<H>,
    drive: Seq<char>,
    drive_handle: H,
    attributes: Attributes,
    block: Seq<char>,
    block_handle: H,
)
    requires
        t.wf(),
        drive != block,
    ensures
        ({
            let drive_first = t.insert_drive(drive, drive_handle, attributes).insert_block(
                block,
                block_handle,
                Some(drive),
            );
            let block_first = t.insert_block(block, block_handle, Some(drive)).insert_drive(
                drive,
                drive_handle,
                attributes,
            );
            &&& drive_first == block_first
            &&& drive_first.tree() == block_first.tree()
            &&& drive_first.tree().has_drive(drive)
            &&& drive_first.tree().hangs_under(block, drive)
            &&& !drive_first.tree().is_bare(block)
        }),
{
    law_arrival_order(t, drive, drive_handle, attributes, block, block_handle, Some(drive));
    law_orphan_reconciled(t, block, block_handle, drive, drive_handle, attributes);
    let after = t.insert_block(block, block_handle, Some(drive)).insert_drive(drive, drive_handle, attributes);
    lemma_tree_complete(after);
}

/// One thing that can be done to the store.
pub enum Change<H> {
    /// A drive is seen.
    DriveSeen { identity: Seq<char>, handle: H, attributes: Attributes },
    /// A block is seen.
    BlockSeen { identity: Seq<char>, handle: H, declared_parent: Option<Seq<char>> },
    /// A partition is placed in a table.
    PartitionPlaced { identity: Seq<char>, table: Seq<char>, number: nat },
    /// A table's own listing is taken over.
    TableRead { table: Seq<char>, listing: Seq<Slot> },
    /// A node is forgotten.
    Removed { identity: Seq<char> },
}

impl<H> Topology<H> {
    /// The topology after one change.
    pub open spec fn after(self, change: Change<H>) -> Self {
        match change {
            Change::DriveSeen { identity, handle, attributes } => self.insert_drive(identity, handle, attributes),
            Change::BlockSeen { identity, handle, declared_parent } => self.insert_block(
                identity,
                handle,
                declared_parent,
            ),
            Change::PartitionPlaced { identity, table, number } => self.place_partition(identity, table, number),
            Change::TableRead { table, listing } => self.sync_partitions(table, listing),
            Change::Removed { identity } => self.remove(identity),
        }
    }

    /// The topology after a run of changes, in order.
    pub open spec fn after_all(self, changes: Seq<Change<H>>) -> Self
        decreases changes.len(),
    {
        if changes.len() == 0 {
            self
        } else {
            self.after_all(changes.drop_last()).after(changes.last())
        }
    }
}

/// Snapshot consistency: whatever has been done to a store since it was
/// empty, and in whatever order, what it holds is well-formed and the tree it
/// shows is whole. No block is shown under two drives, or under a drive and as a
/// root, and everything shown is a drive or a block.
pub proof fn law_every_state_whole<H>(changes: Seq<Change<H>>)
    ensures
        Topology::<H>::empty().after_all(changes).wf(),
        Topology::<H>::empty().after_all(changes).tree().consistent(),
    decreases changes.len(),
{
    let start = Topology::<H>::empty();
    if changes.len() == 0 {
        assert(start.wf());
    } else {
        law_every_state_whole(changes.drop_last());
        let before = start.after_all(changes.drop_last());
        match changes.last() {
            Change::DriveSeen { identity, handle, attributes } => {
                lemma_insert_drive(before, identity, handle, attributes);
            },
            Change::BlockSeen { identity, handle, declared_parent } => {
                lemma_insert_block(before, identity, handle, declared_parent);
            },
            Change::PartitionPlaced { identity, table, number } => {
                lemma_place_partition(before, identity, table, number);
            },
            Change::TableRead { table, listing } => {
                lemma_sync_partitions(before, table, listing);
            },
            Change::Removed { identity } => {
                lemma_remove(before, identity);
            },
        }
    }
    lemma_tree_consistent(start.after_all(changes));
}

} // verus!
