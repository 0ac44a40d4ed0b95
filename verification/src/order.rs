//! Why the order in which different nodes arrive and leave does not matter:
//! forgetting one name and seeing or forgetting another can be swapped.

use vstd::prelude::*;
use crate::model::{
    block_is_not, detach, drive_is_not, renew_block, renew_drive, slot_is_not, Attributes, BlockRecord, DriveRecord,
    Slot, Topology,
};
use crate::seqs::{lemma_filter_none, lemma_filter_of_map, lemma_filters_commute};
use crate::wellformed::lemma_remove;

verus! {

/// Two names can be taken off a table in either order.
pub proof fn lemma_detach_commutes<H>(b: BlockRecord<H>, first: Seq<char>, second: Seq<char>)
    ensures
        b.without_partition(first).without_partition(second) == b.without_partition(second).without_partition(first),
{
    lemma_filters_commute(b.partitions, slot_is_not(first), slot_is_not(second));
}

/// Two names can be forgotten in either order.
pub proof fn lemma_remove_commutes<H>(t: Topology<H>, first: Seq<char>, second: Seq<char>)
    ensures
        t.remove(first).remove(second) == t.remove(second).remove(first),
{
    let one = t.remove(first).remove(second);
    let other = t.remove(second).remove(first);
    lemma_filters_commute(t.drives, drive_is_not(first), drive_is_not(second));
    assert(one.drives == other.drives);
    let kept_first = t.blocks.filter(block_is_not(first));
    let kept_second = t.blocks.filter(block_is_not(second));
    lemma_filter_of_map(kept_first, detach(first), block_is_not(second));
    lemma_filter_of_map(kept_second, detach(second), block_is_not(first));
    lemma_filters_commute(t.blocks, block_is_not(first), block_is_not(second));
    let kept = kept_first.filter(block_is_not(second));
    assert(one.blocks == kept.map_values(detach(first)).map_values(detach(second)));
    assert(other.blocks == kept.map_values(detach(second)).map_values(detach(first)));
    assert forall|i: int| 0 <= i < kept.len() implies #[trigger] one.blocks[i] == other.blocks[i] by {
        lemma_detach_commutes(kept[i], first, second);
    }
    assert(one.blocks =~= other.blocks);
}

/// Seeing a drive and forgetting another name can be swapped.
pub proof fn lemma_put_drive_remove<H>(
    t: Topology<H>,
    id: Seq<char>,
    handle: H,
    attributes: Attributes,
    gone: Seq<char>,
)
    requires
        t.wf(),
        gone != id,
    ensures
        t.put_drive(id, handle, attributes).remove(gone) == t.remove(gone).put_drive(id, handle, attributes),
{
    let record = DriveRecord { identity: id, handle, attributes };
    let one = t.put_drive(id, handle, attributes).remove(gone);
    let other = t.remove(gone).put_drive(id, handle, attributes);
    lemma_remove(t, gone);
    assert(t.remove(gone).has_drive(id) <==> t.has_drive(id));
    assert(one.blocks == other.blocks);
    if t.has_drive(id) {
        assert forall|a: DriveRecord<H>|
            drive_is_not::<H>(gone)(#[trigger] renew_drive(record)(a)) == drive_is_not::<H>(gone)(a) by {}
        lemma_filter_of_map(t.drives, renew_drive(record), drive_is_not(gone));
    } else {
        t.drives.lemma_filter_push(record, drive_is_not(gone));
    }
    assert(one.drives == other.drives);
}

/// Seeing a block and forgetting another name can be swapped.
pub proof fn lemma_put_block_remove<H>(
    t: Topology<H>,
    id: Seq<char>,
    handle: H,
    declared_parent: Option<Seq<char>>,
    gone: Seq<char>,
)
    requires
        t.wf(),
        gone != id,
    ensures
        t.put_block(id, handle, declared_parent).remove(gone) == t.remove(gone).put_block(
            id,
            handle,
            declared_parent,
        ),
{
    let fresh = BlockRecord { identity: id, handle, declared_parent, partitions: Seq::<Slot>::empty() };
    let renew = renew_block(id, handle, declared_parent);
    let one = t.put_block(id, handle, declared_parent).remove(gone);
    let other = t.remove(gone).put_block(id, handle, declared_parent);
    lemma_remove(t, gone);
    assert(t.remove(gone).has_block(id) <==> t.has_block(id));
    assert(one.drives == other.drives);
    let kept = t.blocks.filter(block_is_not(gone));
    if t.has_block(id) {
        assert forall|a: BlockRecord<H>| block_is_not::<H>(gone)(#[trigger] renew(a)) == block_is_not::<H>(gone)(a) by {}
        lemma_filter_of_map(t.blocks, renew, block_is_not(gone));
        assert(one.blocks == kept.map_values(renew).map_values(detach(gone)));
        assert(other.blocks == kept.map_values(detach(gone)).map_values(renew));
        assert(one.blocks =~= other.blocks);
    } else {
        t.blocks.lemma_filter_push(fresh, block_is_not(gone));
        lemma_filter_none(fresh.partitions, slot_is_not(gone));
        assert(fresh.without_partition(gone) == fresh);
        assert(one.blocks == kept.push(fresh).map_values(detach(gone)));
        assert(other.blocks == kept.map_values(detach(gone)).push(fresh));
        assert(one.blocks =~= other.blocks);
    }
}

} // verus!
