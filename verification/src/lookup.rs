//! What a name finds in a well-formed topology, and how the nodes that an
//! operation does not name come through it.

use vstd::prelude::*;
use crate::model::{block_is_not, drive_is_not, Attributes, Topology};
use crate::seqs::lemma_filter_origin;
use crate::wellformed::{lemma_insert_drive, lemma_remove};

verus! {

/// The drive at a position is the drive its name finds.
pub proof fn lemma_drive_at<H>(t: Topology<H>, at: int)
    requires
        t.wf(),
        0 <= at < t.drives.len(),
    ensures
        t.has_drive(t.drives[at].identity),
        t.drive(t.drives[at].identity) == t.drives[at],
{
    let id = t.drives[at].identity;
    let found = choose|i: int| 0 <= i < t.drives.len() && (#[trigger] t.drives[i]).identity == id;
    if found < at {
        assert(t.drives[found].identity != t.drives[at].identity);
    } else if at < found {
        assert(t.drives[at].identity != t.drives[found].identity);
    }
}

/// The block at a position is the block its name finds.
pub proof fn lemma_block_at<H>(t: Topology<H>, at: int)
    requires
        t.wf(),
        0 <= at < t.blocks.len(),
    ensures
        t.has_block(t.blocks[at].identity),
        t.block(t.blocks[at].identity) == t.blocks[at],
{
    let id = t.blocks[at].identity;
    let found = choose|i: int| 0 <= i < t.blocks.len() && (#[trigger] t.blocks[i]).identity == id;
    if found < at {
        assert(t.blocks[found].identity != t.blocks[at].identity);
    } else if at < found {
        assert(t.blocks[at].identity != t.blocks[found].identity);
    }
}

/// The position of a known drive.
pub proof fn lemma_drive_position<H>(t: Topology<H>, id: Seq<char>) -> (at: int)
    requires
        t.has_drive(id),
    ensures
        0 <= at < t.drives.len(),
        t.drives[at].identity == id,
        t.drive(id) == t.drives[at],
{
    choose|i: int| 0 <= i < t.drives.len() && (#[trigger] t.drives[i]).identity == id
}

/// The position of a known block.
pub proof fn lemma_block_position<H>(t: Topology<H>, id: Seq<char>) -> (at: int)
    requires
        t.has_block(id),
    ensures
        0 <= at < t.blocks.len(),
        t.blocks[at].identity == id,
        t.block(id) == t.blocks[at],
{
    choose|i: int| 0 <= i < t.blocks.len() && (#[trigger] t.blocks[i]).identity == id
}

/// Forgetting a node leaves every other drive as it was, and every other
/// block as it was but for the forgotten name in its table.
pub proof fn lemma_remove_keeps<H>(t: Topology<H>, id: Seq<char>, other: Seq<char>)
    requires
        t.wf(),
        other != id,
    ensures
        t.has_drive(other) ==> t.remove(id).drive(other) == t.drive(other),
        t.has_block(other) ==> t.remove(id).block(other) == t.block(other).without_partition(id),
{
    let r = t.remove(id);
    lemma_remove(t, id);
    if t.has_drive(other) {
        let k = lemma_drive_position(t, other);
        let origin = lemma_filter_origin(t.drives, drive_is_not(id));
        assert(drive_is_not::<H>(id)(t.drives[k]));
        let i = choose|i: int| 0 <= i < origin.len() && #[trigger] origin[i] == k;
        assert(r.drives[i] == t.drives[k]);
        lemma_drive_at(r, i);
    }
    if t.has_block(other) {
        let k = lemma_block_position(t, other);
        let origin = lemma_filter_origin(t.blocks, block_is_not(id));
        assert(block_is_not::<H>(id)(t.blocks[k]));
        let i = choose|i: int| 0 <= i < origin.len() && #[trigger] origin[i] == k;
        assert(r.blocks[i] == t.blocks[k].without_partition(id));
        lemma_block_at(r, i);
    }
}

/// Seeing a drive leaves every other drive as it was, and every other block
/// as it was, but for the drive's name in its table where the drive replaces a
/// block.
pub proof fn lemma_insert_drive_keeps<H>(
    t: Topology<H>,
    id: Seq<char>,
    handle: H,
    attributes: Attributes,
    other: Seq<char>,
)
    requires
        t.wf(),
        other != id,
    ensures
        t.has_drive(other) ==> t.insert_drive(id, handle, attributes).drive(other) == t.drive(other),
        t.has_block(other) ==> t.insert_drive(id, handle, attributes).block(other) == (if t.has_block(id) {
            t.block(other).without_partition(id)
        } else {
            t.block(other)
        }),
{
    let r = t.insert_drive(id, handle, attributes);
    let base = if t.has_block(id) {
        t.remove(id)
    } else {
        t
    };
    lemma_remove(t, id);
    lemma_remove_keeps(t, id, other);
    lemma_insert_drive(t, id, handle, attributes);
    assert(r.blocks == base.blocks);
    if t.has_drive(other) {
        assert(base.has_drive(other));
        let k = lemma_drive_position(base, other);
        assert(r.drives[k] == base.drives[k]);
        lemma_drive_at(r, k);
    }
    if t.has_block(other) {
        assert(base.has_block(other));
        let k = lemma_block_position(base, other);
        lemma_block_at(r, k);
    }
}

} // verus!
