//! Every operation of the model keeps a well-formed topology well-formed, and
//! changes which identities are known in the way its name says.

use vstd::prelude::*;
use crate::model::{
    arrange, ascending, block_is_not, blocks_wf, detach, distinct, drive_is_not, drives_apart, lists, place,
    slot_above, slot_is_not, slot_not_in, slot_up_to, tidy, Attributes, BlockRecord, DriveRecord, Slot, Topology,
};
use crate::seqs::{lemma_filter_both, lemma_filter_drops_all, lemma_filter_keeps_all, lemma_filter_origin};

verus! {

/// What a filtered table lists: the partitions of the slots that were kept.
/// Filtering keeps a table in order and free of repetition.
pub proof fn lemma_kept_slots(slots: Seq<Slot>, keep: spec_fn(Slot) -> bool)
    ensures
        ascending(slots) ==> ascending(slots.filter(keep)),
        distinct(slots) ==> distinct(slots.filter(keep)),
        forall|id: Seq<char>| #[trigger]
            lists(slots.filter(keep), id) <==> exists|k: int|
                0 <= k < slots.len() && (#[trigger] slots[k]).identity == id && keep(slots[k]),
{
    let kept = slots.filter(keep);
    let origin = lemma_filter_origin(slots, keep);
    assert forall|id: Seq<char>| #[trigger] lists(kept, id) implies exists|k: int|
        0 <= k < slots.len() && (#[trigger] slots[k]).identity == id && keep(slots[k]) by {
        let k = choose|k: int| 0 <= k < kept.len() && (#[trigger] kept[k]).identity == id;
        assert(slots[origin[k]].identity == id);
    }
    assert forall|id: Seq<char>|
        (exists|k: int| 0 <= k < slots.len() && (#[trigger] slots[k]).identity == id && keep(slots[k]))
        implies #[trigger] lists(kept, id) by {
        let k = choose|k: int| 0 <= k < slots.len() && (#[trigger] slots[k]).identity == id && keep(slots[k]);
        let i = choose|i: int| 0 <= i < origin.len() && #[trigger] origin[i] == k;
        assert(kept[i].identity == id);
    }
    if ascending(slots) {
        assert forall|k: int, l: int| 0 <= k < l < kept.len() implies (#[trigger] kept[k]).number <= (
        #[trigger] kept[l]).number by {
            assert(origin[k] < origin[l]);
            assert(slots[origin[k]].number <= slots[origin[l]].number);
        }
    }
    if distinct(slots) {
        assert forall|k: int, l: int| 0 <= k < l < kept.len() implies (#[trigger] kept[k]).identity != (
        #[trigger] kept[l]).identity by {
            assert(origin[k] < origin[l]);
            assert(slots[origin[k]].identity != slots[origin[l]].identity);
        }
    }
}

/// A slot placed into an ordered table that does not list its partition leaves
/// the table ordered and free of repetition, and adds that partition and no
/// other.
pub proof fn lemma_placed(slots: Seq<Slot>, slot: Slot)
    requires
        ascending(slots),
        distinct(slots),
        !lists(slots, slot.identity),
    ensures
        ascending(place(slots, slot)),
        distinct(place(slots, slot)),
        forall|id: Seq<char>| #[trigger]
            lists(place(slots, slot), id) <==> (id == slot.identity || lists(slots, id)),
{
    reveal(place);
    let low = slots.filter(slot_up_to(slot.number));
    let high = slots.filter(slot_above(slot.number));
    let placed = place(slots, slot);
    let low_origin = lemma_filter_origin(slots, slot_up_to(slot.number));
    let high_origin = lemma_filter_origin(slots, slot_above(slot.number));
    assert(placed.len() == low.len() + 1 + high.len());
    assert forall|k: int| 0 <= k < placed.len() implies (#[trigger] placed[k]) == (if k < low.len() {
        slots[low_origin[k]]
    } else if k == low.len() {
        slot
    } else {
        slots[high_origin[k - low.len() - 1]]
    }) by {
        if k < low.len() {
            assert(placed[k] == low[k]);
        } else if k > low.len() {
            assert(placed[k] == high[k - low.len() - 1]);
        }
    }
    assert forall|k: int, l: int| 0 <= k < l < placed.len() implies (#[trigger] placed[k]).number <= (
    #[trigger] placed[l]).number && placed[k].identity != placed[l].identity by {
        if l < low.len() {
            assert(low_origin[k] < low_origin[l]);
            assert(slots[low_origin[k]].number <= slots[low_origin[l]].number);
            assert(slots[low_origin[k]].identity != slots[low_origin[l]].identity);
        } else if l == low.len() {
            assert(slots[low_origin[k]].number <= slot.number);
            assert(slots[low_origin[k]].identity != slot.identity);
        } else if k < low.len() {
            let a = low_origin[k];
            let b = high_origin[l - low.len() - 1];
            assert(slots[a].number <= slot.number);
            assert(slots[b].number > slot.number);
            assert(a != b);
            if a < b {
                assert(slots[a].identity != slots[b].identity);
            } else {
                assert(slots[b].identity != slots[a].identity);
            }
        } else if k == low.len() {
            let b = high_origin[l - low.len() - 1];
            assert(slots[b].number > slot.number);
            assert(slots[b].identity != slot.identity);
        } else {
            let a = high_origin[k - low.len() - 1];
            let b = high_origin[l - low.len() - 1];
            assert(a < b);
            assert(slots[a].number <= slots[b].number);
            assert(slots[a].identity != slots[b].identity);
        }
    }
    assert forall|id: Seq<char>| #[trigger] lists(placed, id) implies (id == slot.identity || lists(slots, id)) by {
        let k = choose|k: int| 0 <= k < placed.len() && (#[trigger] placed[k]).identity == id;
        if k < low.len() {
            assert(slots[low_origin[k]].identity == id);
        } else if k > low.len() {
            assert(slots[high_origin[k - low.len() - 1]].identity == id);
        }
    }
    assert forall|id: Seq<char>| (id == slot.identity || lists(slots, id)) implies #[trigger] lists(placed, id) by {
        if id == slot.identity {
            assert(placed[low.len() as int].identity == id);
        } else {
            let k = choose|k: int| 0 <= k < slots.len() && (#[trigger] slots[k]).identity == id;
            if slots[k].number <= slot.number {
                assert(slot_up_to(slot.number)(slots[k]));
                let i = choose|i: int| 0 <= i < low_origin.len() && #[trigger] low_origin[i] == k;
                assert(placed[i].identity == id);
            } else {
                assert(slot_above(slot.number)(slots[k]));
                let i = choose|i: int| 0 <= i < high_origin.len() && #[trigger] high_origin[i] == k;
                assert(placed[low.len() + 1 + i].identity == id);
            }
        }
    }
}

/// Where an ordered table divides at a number: the slots before the result are
/// numbered up to it, the slots from the result on above it.
pub proof fn lemma_split_point(slots: Seq<Slot>, number: nat) -> (at: int)
    requires
        ascending(slots),
    ensures
        0 <= at <= slots.len(),
        forall|k: int| 0 <= k < at ==> (#[trigger] slots[k]).number <= number,
        forall|k: int| at <= k < slots.len() ==> (#[trigger] slots[k]).number > number,
    decreases slots.len(),
{
    if slots.len() == 0 {
        0
    } else if slots.last().number <= number {
        assert forall|k: int| 0 <= k < slots.len() implies (#[trigger] slots[k]).number <= number by {
            if k < slots.len() - 1 {
                assert(slots[k].number <= slots[slots.len() - 1].number);
            }
        }
        slots.len() as int
    } else {
        let rest = slots.drop_last();
        assert forall|k: int, l: int| 0 <= k < l < rest.len() implies (#[trigger] rest[k]).number <= (
        #[trigger] rest[l]).number by {
            assert(slots[k].number <= slots[l].number);
        }
        let at = lemma_split_point(rest, number);
        assert forall|k: int| 0 <= k < at implies (#[trigger] slots[k]).number <= number by {
            assert(rest[k].number <= number);
        }
        assert forall|k: int| at <= k < slots.len() implies (#[trigger] slots[k]).number > number by {
            if k < rest.len() {
                assert(rest[k].number > number);
            }
        }
        at
    }
}

/// Filtering a table that divides at `at` by the number it divides at gives
/// its two parts.
pub proof fn lemma_split_filters(slots: Seq<Slot>, number: nat, at: int)
    requires
        0 <= at <= slots.len(),
        forall|k: int| 0 <= k < at ==> (#[trigger] slots[k]).number <= number,
        forall|k: int| at <= k < slots.len() ==> (#[trigger] slots[k]).number > number,
    ensures
        slots.filter(slot_up_to(number)) == slots.subrange(0, at),
        slots.filter(slot_above(number)) == slots.subrange(at, slots.len() as int),
{
    let front = slots.subrange(0, at);
    let back = slots.subrange(at, slots.len() as int);
    assert(slots =~= front + back);
    Seq::filter_distributes_over_add(front, back, slot_up_to(number));
    Seq::filter_distributes_over_add(front, back, slot_above(number));
    assert forall|k: int| 0 <= k < front.len() implies slot_up_to(number)(#[trigger] front[k]) && !slot_above(
        number,
    )(front[k]) by {
        assert(front[k] == slots[k]);
    }
    assert forall|k: int| 0 <= k < back.len() implies !slot_up_to(number)(#[trigger] back[k]) && slot_above(number)(
        back[k],
    ) by {
        assert(back[k] == slots[at + k]);
    }
    lemma_filter_keeps_all(front, slot_up_to(number));
    lemma_filter_drops_all(back, slot_up_to(number));
    lemma_filter_drops_all(front, slot_above(number));
    lemma_filter_keeps_all(back, slot_above(number));
    assert(front + Seq::<Slot>::empty() =~= front);
    assert(Seq::<Slot>::empty() + back =~= back);
}

/// In an ordered table, a slot is placed right before the first slot of a
/// higher number.
pub proof fn lemma_place_at(slots: Seq<Slot>, slot: Slot, at: int)
    requires
        0 <= at <= slots.len(),
        forall|k: int| 0 <= k < at ==> (#[trigger] slots[k]).number <= slot.number,
        forall|k: int| at <= k < slots.len() ==> (#[trigger] slots[k]).number > slot.number,
    ensures
        place(slots, slot) == slots.insert(at, slot),
{
    reveal(place);
    lemma_split_filters(slots, slot.number, at);
    assert(place(slots, slot) =~= slots.insert(at, slot));
}

/// An ordered table is its slots up to a number followed by its slots above
/// that number.
pub proof fn lemma_sorted_split(slots: Seq<Slot>, number: nat)
    requires
        ascending(slots),
    ensures
        slots.filter(slot_up_to(number)) + slots.filter(slot_above(number)) == slots,
{
    let at = lemma_split_point(slots, number);
    lemma_split_filters(slots, number, at);
    assert(slots.subrange(0, at) + slots.subrange(at, slots.len() as int) =~= slots);
}

/// Taking a freshly placed partition off again gives the table back.
pub proof fn lemma_unplace(slots: Seq<Slot>, slot: Slot)
    requires
        ascending(slots),
        !lists(slots, slot.identity),
    ensures
        place(slots, slot).filter(slot_is_not(slot.identity)) == slots,
{
    reveal(place);
    let low = slots.filter(slot_up_to(slot.number));
    let high = slots.filter(slot_above(slot.number));
    let other = slot_is_not(slot.identity);
    let low_origin = lemma_filter_origin(slots, slot_up_to(slot.number));
    let high_origin = lemma_filter_origin(slots, slot_above(slot.number));
    Seq::filter_distributes_over_add(low.push(slot), high, other);
    low.lemma_filter_push(slot, other);
    assert forall|k: int| 0 <= k < low.len() implies other(#[trigger] low[k]) by {
        assert(low[k] == slots[low_origin[k]]);
    }
    assert forall|k: int| 0 <= k < high.len() implies other(#[trigger] high[k]) by {
        assert(high[k] == slots[high_origin[k]]);
    }
    lemma_filter_keeps_all(low, other);
    lemma_filter_keeps_all(high, other);
    lemma_sorted_split(slots, slot.number);
}

/// Taking the partitions of a listing off a table one by one: once the first
/// `done` are off, taking the next one off leaves the table without the first
/// `done + 1`.
pub proof fn lemma_unlist_next(slots: Seq<Slot>, listing: Seq<Slot>, done: int)
    requires
        0 <= done < listing.len(),
    ensures
        slots.filter(slot_not_in(listing.take(done))).filter(slot_is_not(listing[done].identity)) == slots.filter(
            slot_not_in(listing.take(done + 1)),
        ),
{
    let shorter = listing.take(done);
    let longer = listing.take(done + 1);
    assert forall|a: Slot| #[trigger]
        slot_not_in(longer)(a) == (slot_not_in(shorter)(a) && slot_is_not(listing[done].identity)(a)) by {
        if lists(longer, a.identity) {
            let k = choose|k: int| 0 <= k < longer.len() && (#[trigger] longer[k]).identity == a.identity;
            if k < done {
                assert(shorter[k].identity == a.identity);
            }
        }
        if lists(shorter, a.identity) {
            let k = choose|k: int| 0 <= k < shorter.len() && (#[trigger] shorter[k]).identity == a.identity;
            assert(longer[k].identity == a.identity);
        }
        if a.identity == listing[done].identity {
            assert(longer[done].identity == a.identity);
        }
    }
    lemma_filter_both(
        slots,
        slot_not_in(shorter),
        slot_is_not(listing[done].identity),
        slot_not_in(longer),
    );
}

/// Taking the partitions of an empty listing off a table changes nothing.
pub proof fn lemma_unlist_none(slots: Seq<Slot>, listing: Seq<Slot>)
    requires
        listing.len() == 0,
    ensures
        slots.filter(slot_not_in(listing)) == slots,
{
    assert forall|k: int| 0 <= k < slots.len() implies slot_not_in(listing)(#[trigger] slots[k]) by {}
    lemma_filter_keeps_all(slots, slot_not_in(listing));
}

/// Filtering drives keeps their identities apart.
pub proof fn lemma_drives_kept<H>(drives: Seq<DriveRecord<H>>, keep: spec_fn(DriveRecord<H>) -> bool)
    requires
        drives_apart(drives),
    ensures
        drives_apart(drives.filter(keep)),
{
    let kept = drives.filter(keep);
    let origin = lemma_filter_origin(drives, keep);
    assert forall|i: int, j: int| 0 <= i < j < kept.len() implies (#[trigger] kept[i]).identity != (
    #[trigger] kept[j]).identity by {
        assert(origin[i] < origin[j]);
        assert(drives[origin[i]].identity != drives[origin[j]].identity);
    }
}

/// Filtering blocks keeps them well-formed.
pub proof fn lemma_blocks_kept<H>(blocks: Seq<BlockRecord<H>>, keep: spec_fn(BlockRecord<H>) -> bool)
    requires
        blocks_wf(blocks),
    ensures
        blocks_wf(blocks.filter(keep)),
{
    let kept = blocks.filter(keep);
    let origin = lemma_filter_origin(blocks, keep);
    assert forall|i: int, j: int| 0 <= i < j < kept.len() implies (#[trigger] kept[i]).identity != (
    #[trigger] kept[j]).identity by {
        assert(origin[i] < origin[j]);
        assert(blocks[origin[i]].identity != blocks[origin[j]].identity);
    }
    assert forall|i: int| 0 <= i < kept.len() implies tidy((#[trigger] kept[i]).partitions, kept[i].identity) by {
        assert(kept[i] == blocks[origin[i]]);
    }
    assert forall|i: int, j: int, id: Seq<char>|
        0 <= i < kept.len() && 0 <= j < kept.len() && i != j && #[trigger] lists(
            kept[i].partitions,
            id,
        ) implies !#[trigger] lists(kept[j].partitions, id) by {
        if i < j {
            assert(origin[i] < origin[j]);
        } else {
            assert(origin[j] < origin[i]);
        }
        assert(lists(blocks[origin[i]].partitions, id));
        assert(!lists(blocks[origin[j]].partitions, id));
    }
}

/// `after` holds the blocks of `before` under the same names and in the same
/// order, each with a tidy table that lists nothing its old table did not.
pub open spec fn thinned<H>(before: Seq<BlockRecord<H>>, after: Seq<BlockRecord<H>>) -> bool {
    &&& after.len() == before.len()
    &&& forall|i: int| 0 <= i < before.len() ==> (#[trigger] after[i]).identity == before[i].identity
    &&& forall|i: int| 0 <= i < before.len() ==> tidy((#[trigger] after[i]).partitions, after[i].identity)
    &&& forall|i: int, id: Seq<char>|
        0 <= i < before.len() && #[trigger] lists(after[i].partitions, id) ==> lists(before[i].partitions, id)
}

/// Thinning tables keeps blocks well-formed.
pub proof fn lemma_blocks_thinned<H>(before: Seq<BlockRecord<H>>, after: Seq<BlockRecord<H>>)
    requires
        blocks_wf(before),
        thinned(before, after),
    ensures
        blocks_wf(after),
{
    assert forall|i: int, j: int| 0 <= i < j < after.len() implies (#[trigger] after[i]).identity != (
    #[trigger] after[j]).identity by {
        assert(before[i].identity != before[j].identity);
    }
    assert forall|i: int, j: int, id: Seq<char>|
        0 <= i < after.len() && 0 <= j < after.len() && i != j && #[trigger] lists(
            after[i].partitions,
            id,
        ) implies !#[trigger] lists(after[j].partitions, id) by {
        assert(lists(before[i].partitions, id));
        if lists(after[j].partitions, id) {
            assert(lists(before[j].partitions, id));
        }
    }
}

/// Taking a partition off every table thins the tables, and no table lists it
/// afterwards.
pub proof fn lemma_detached<H>(blocks: Seq<BlockRecord<H>>, id: Seq<char>)
    requires
        blocks_wf(blocks),
    ensures
        thinned(blocks, blocks.map_values(detach(id))),
        blocks_wf(blocks.map_values(detach(id))),
        forall|i: int|
            0 <= i < blocks.len() ==> !lists((#[trigger] blocks.map_values(detach(id))[i]).partitions, id),
        forall|i: int, x: Seq<char>|
            0 <= i < blocks.len() && x != id ==> (#[trigger] lists(
                blocks.map_values(detach(id))[i].partitions,
                x,
            ) <==> lists(blocks[i].partitions, x)),
{
    let after = blocks.map_values(detach(id));
    assert forall|i: int| 0 <= i < blocks.len() implies tidy((#[trigger] after[i]).partitions, after[i].identity)
        && !lists(after[i].partitions, id) by {
        lemma_kept_slots(blocks[i].partitions, slot_is_not(id));
        assert(tidy(blocks[i].partitions, blocks[i].identity));
        if lists(after[i].partitions, after[i].identity) {
        }
    }
    assert forall|i: int, x: Seq<char>| 0 <= i < blocks.len()
        implies (#[trigger] lists(after[i].partitions, x) <==> (
    x != id && lists(blocks[i].partitions, x))) by {
        lemma_kept_slots(blocks[i].partitions, slot_is_not(id));
        if x != id && lists(blocks[i].partitions, x) {
            let k = choose|k: int| 0 <= k < blocks[i].partitions.len() && (#[trigger] blocks[i].partitions[k]).identity == x;
            assert(slot_is_not(id)(blocks[i].partitions[k]));
        }
    }
    lemma_blocks_thinned(blocks, after);
}

/// Forgetting a node keeps the topology well-formed. Nothing mentions the
/// node afterwards, and every other node is known exactly as before.
pub proof fn lemma_remove<H>(t: Topology<H>, id: Seq<char>)
    requires
        t.wf(),
    ensures
        t.remove(id).wf(),
        !t.remove(id).mentions(id),
        forall|x: Seq<char>| x != id ==> (#[trigger] t.remove(id).has_drive(x) <==> t.has_drive(x)),
        forall|x: Seq<char>| x != id ==> (#[trigger] t.remove(id).has_block(x) <==> t.has_block(x)),
{
    let r = t.remove(id);
    let drive_origin = lemma_filter_origin(t.drives, drive_is_not(id));
    let kept = t.blocks.filter(block_is_not(id));
    let block_origin = lemma_filter_origin(t.blocks, block_is_not(id));
    lemma_drives_kept(t.drives, drive_is_not(id));
    lemma_blocks_kept(t.blocks, block_is_not(id));
    lemma_detached(kept, id);
    assert forall|i: int, j: int| 0 <= i < r.drives.len() && 0 <= j < r.blocks.len() implies (
    #[trigger] r.drives[i]).identity != (#[trigger] r.blocks[j]).identity by {
        assert(r.drives[i] == t.drives[drive_origin[i]]);
        assert(r.blocks[j].identity == t.blocks[block_origin[j]].identity);
    }
    assert(!r.has_drive(id)) by {
        if r.has_drive(id) {
            let i = choose|i: int| 0 <= i < r.drives.len() && (#[trigger] r.drives[i]).identity == id;
            assert(drive_is_not::<H>(id)(t.drives[drive_origin[i]]));
        }
    }
    assert(!r.has_block(id)) by {
        if r.has_block(id) {
            let i = choose|i: int| 0 <= i < r.blocks.len() && (#[trigger] r.blocks[i]).identity == id;
            assert(block_is_not::<H>(id)(t.blocks[block_origin[i]]));
        }
    }
    assert(!r.lists_partition(id));
    assert forall|x: Seq<char>| x != id implies (#[trigger] r.has_drive(x) <==> t.has_drive(x)) by {
        if r.has_drive(x) {
            let i = choose|i: int| 0 <= i < r.drives.len() && (#[trigger] r.drives[i]).identity == x;
            assert(t.drives[drive_origin[i]].identity == x);
        }
        if t.has_drive(x) {
            let k = choose|k: int| 0 <= k < t.drives.len() && (#[trigger] t.drives[k]).identity == x;
            assert(drive_is_not::<H>(id)(t.drives[k]));
            let i = choose|i: int| 0 <= i < drive_origin.len() && #[trigger] drive_origin[i] == k;
            assert(r.drives[i].identity == x);
        }
    }
    assert forall|x: Seq<char>| x != id implies (#[trigger] r.has_block(x) <==> t.has_block(x)) by {
        if r.has_block(x) {
            let i = choose|i: int| 0 <= i < r.blocks.len() && (#[trigger] r.blocks[i]).identity == x;
            assert(t.blocks[block_origin[i]].identity == x);
        }
        if t.has_block(x) {
            let k = choose|k: int| 0 <= k < t.blocks.len() && (#[trigger] t.blocks[k]).identity == x;
            assert(block_is_not::<H>(id)(t.blocks[k]));
            let i = choose|i: int| 0 <= i < block_origin.len() && #[trigger] block_origin[i] == k;
            assert(r.blocks[i].identity == x);
        }
    }
}

/// Two topologies whose drives and blocks carry the same identities, position
/// by position, know the same drives and the same blocks.
pub proof fn lemma_same_names<H>(t: Topology<H>, r: Topology<H>)
    requires
        r.drives.len() == t.drives.len(),
        r.blocks.len() == t.blocks.len(),
        forall|i: int| 0 <= i < t.drives.len() ==> (#[trigger] r.drives[i]).identity == t.drives[i].identity,
        forall|i: int| 0 <= i < t.blocks.len() ==> (#[trigger] r.blocks[i]).identity == t.blocks[i].identity,
    ensures
        forall|x: Seq<char>| #[trigger] r.has_drive(x) <==> t.has_drive(x),
        forall|x: Seq<char>| #[trigger] r.has_block(x) <==> t.has_block(x),
{
    assert forall|x: Seq<char>| #[trigger] r.has_drive(x) <==> t.has_drive(x) by {
        if r.has_drive(x) {
            let i = choose|i: int| 0 <= i < r.drives.len() && (#[trigger] r.drives[i]).identity == x;
            assert(t.drives[i].identity == x);
        }
        if t.has_drive(x) {
            let i = choose|i: int| 0 <= i < t.drives.len() && (#[trigger] t.drives[i]).identity == x;
            assert(r.drives[i].identity == x);
        }
    }
    assert forall|x: Seq<char>| #[trigger] r.has_block(x) <==> t.has_block(x) by {
        if r.has_block(x) {
            let i = choose|i: int| 0 <= i < r.blocks.len() && (#[trigger] r.blocks[i]).identity == x;
            assert(t.blocks[i].identity == x);
        }
        if t.has_block(x) {
            let i = choose|i: int| 0 <= i < t.blocks.len() && (#[trigger] t.blocks[i]).identity == x;
            assert(r.blocks[i].identity == x);
        }
    }
}

/// Seeing a drive keeps the topology well-formed. The drive is known
/// afterwards, under that name and no other role, with the handle and attributes given;
/// every other node is known exactly as before.
pub proof fn lemma_insert_drive<H>(t: Topology<H>, id: Seq<char>, handle: H, attributes: Attributes)
    requires
        t.wf(),
    ensures
        t.insert_drive(id, handle, attributes).wf(),
        t.insert_drive(id, handle, attributes).has_drive(id),
        !t.insert_drive(id, handle, attributes).has_block(id),
        t.insert_drive(id, handle, attributes).drive(id) == (DriveRecord { identity: id, handle, attributes }),
        forall|x: Seq<char>|
            x != id ==> (#[trigger] t.insert_drive(id, handle, attributes).has_drive(x) <==> t.has_drive(x)),
        forall|x: Seq<char>|
            x != id ==> (#[trigger] t.insert_drive(id, handle, attributes).has_block(x) <==> t.has_block(x)),
{
    let r = t.insert_drive(id, handle, attributes);
    let base = if t.has_block(id) {
        t.remove(id)
    } else {
        t
    };
    let record = DriveRecord { identity: id, handle, attributes };
    lemma_remove(t, id);
    assert(base.wf());
    assert(!base.has_block(id));
    assert forall|j: int| 0 <= j < base.blocks.len() implies (#[trigger] base.blocks[j]).identity != id by {}
    if base.has_drive(id) {
        lemma_same_names(base, r);
        let k = choose|k: int| 0 <= k < base.drives.len() && (#[trigger] base.drives[k]).identity == id;
        assert(r.drives[k] == record);
        assert forall|i: int| 0 <= i < r.drives.len() && (#[trigger] r.drives[i]).identity == id implies r.drives[i]
            == record by {
            assert(base.drives[i].identity == id);
        }
    } else {
        assert forall|i: int| 0 <= i < base.drives.len() implies (#[trigger] base.drives[i]).identity != id by {}
        assert(r.drives[base.drives.len() as int] == record);
        assert forall|x: Seq<char>| x != id implies (#[trigger] r.has_drive(x) <==> base.has_drive(x)) by {
            if r.has_drive(x) {
                let i = choose|i: int| 0 <= i < r.drives.len() && (#[trigger] r.drives[i]).identity == x;
                assert(base.drives[i].identity == x);
            }
            if base.has_drive(x) {
                let i = choose|i: int| 0 <= i < base.drives.len() && (#[trigger] base.drives[i]).identity == x;
                assert(r.drives[i].identity == x);
            }
        }
        assert forall|i: int| 0 <= i < r.drives.len() && (#[trigger] r.drives[i]).identity == id implies r.drives[i]
            == record by {
            if i < base.drives.len() {
                assert(base.drives[i].identity == id);
            }
        }
    }
    assert(r.blocks == base.blocks);
    assert forall|x: Seq<char>| x != id implies (#[trigger] r.has_block(x) <==> t.has_block(x)) by {
        assert(r.has_block(x) <==> base.has_block(x));
        assert(base.has_block(x) <==> t.has_block(x));
    }
    assert forall|x: Seq<char>| x != id implies (#[trigger] r.has_drive(x) <==> t.has_drive(x)) by {
        assert(r.has_drive(x) <==> base.has_drive(x));
        assert(base.has_drive(x) <==> t.has_drive(x));
    }
    assert(r.has_drive(id));
    let c = choose|i: int| 0 <= i < r.drives.len() && (#[trigger] r.drives[i]).identity == id;
    assert(r.drives[c] == record);
}

/// Seeing a block keeps the topology well-formed. The block is known
/// afterwards, under that name and no other role; every other node is known
/// exactly as before.
pub proof fn lemma_insert_block<H>(t: Topology<H>, id: Seq<char>, handle: H, declared_parent: Option<Seq<char>>)
    requires
        t.wf(),
    ensures
        t.insert_block(id, handle, declared_parent).wf(),
        t.insert_block(id, handle, declared_parent).has_block(id),
        !t.insert_block(id, handle, declared_parent).has_drive(id),
        t.insert_block(id, handle, declared_parent).block(id).handle == handle,
        t.insert_block(id, handle, declared_parent).block(id).declared_parent == declared_parent,
        forall|x: Seq<char>|
            x != id ==> (#[trigger] t.insert_block(id, handle, declared_parent).has_drive(x) <==> t.has_drive(x)),
        forall|x: Seq<char>|
            x != id ==> (#[trigger] t.insert_block(id, handle, declared_parent).has_block(x) <==> t.has_block(x)),
{
    let r = t.insert_block(id, handle, declared_parent);
    let base = if t.has_drive(id) {
        t.remove(id)
    } else {
        t
    };
    lemma_remove(t, id);
    assert(base.wf());
    assert(!base.has_drive(id));
    assert forall|j: int| 0 <= j < base.drives.len() implies (#[trigger] base.drives[j]).identity != id by {}
    if base.has_block(id) {
        lemma_same_names(base, r);
        assert(thinned(base.blocks, r.blocks));
        lemma_blocks_thinned(base.blocks, r.blocks);
        let k = choose|k: int| 0 <= k < base.blocks.len() && (#[trigger] base.blocks[k]).identity == id;
        assert(r.blocks[k].identity == id);
    } else {
        assert forall|i: int| 0 <= i < base.blocks.len() implies (#[trigger] base.blocks[i]).identity != id by {}
        let last = base.blocks.len() as int;
        assert(r.blocks[last].identity == id);
        assert(r.blocks[last].partitions.len() == 0);
        assert forall|i: int| 0 <= i < r.blocks.len()
            implies tidy((#[trigger] r.blocks[i]).partitions, r.blocks[i].identity) by {
            if i < last {
                assert(r.blocks[i] == base.blocks[i]);
            }
        }
        assert forall|i: int, j: int, x: Seq<char>|
            0 <= i < r.blocks.len() && 0 <= j < r.blocks.len() && i != j && #[trigger] lists(
                r.blocks[i].partitions,
                x,
            ) implies !#[trigger] lists(r.blocks[j].partitions, x) by {
            if i < last && j < last {
                assert(r.blocks[i] == base.blocks[i]);
                assert(r.blocks[j] == base.blocks[j]);
                assert(lists(base.blocks[i].partitions, x));
            }
        }
        assert forall|i: int, j: int| 0 <= i < j < r.blocks.len() implies (#[trigger] r.blocks[i]).identity != (
        #[trigger] r.blocks[j]).identity by {
            assert(r.blocks[i] == base.blocks[i]);
            if j < last {
                assert(r.blocks[j] == base.blocks[j]);
            }
        }
        assert forall|x: Seq<char>| x != id implies (#[trigger] r.has_block(x) <==> base.has_block(x)) by {
            if r.has_block(x) {
                let i = choose|i: int| 0 <= i < r.blocks.len() && (#[trigger] r.blocks[i]).identity == x;
                assert(base.blocks[i].identity == x);
            }
            if base.has_block(x) {
                let i = choose|i: int| 0 <= i < base.blocks.len() && (#[trigger] base.blocks[i]).identity == x;
                assert(r.blocks[i].identity == x);
            }
        }
    }
    assert(r.drives == base.drives);
    assert forall|x: Seq<char>| x != id implies (#[trigger] r.has_drive(x) <==> t.has_drive(x)) by {
        assert(r.has_drive(x) <==> base.has_drive(x));
        assert(base.has_drive(x) <==> t.has_drive(x));
    }
    assert forall|x: Seq<char>| x != id implies (#[trigger] r.has_block(x) <==> t.has_block(x)) by {
        assert(r.has_block(x) <==> base.has_block(x));
        assert(base.has_block(x) <==> t.has_block(x));
    }
    assert(r.has_block(id));
    let c = choose|i: int| 0 <= i < r.blocks.len() && (#[trigger] r.blocks[i]).identity == id;
    if base.has_block(id) {
        assert(base.blocks[c].identity == id);
    }
}

/// Placing a partition keeps the topology well-formed and leaves the drives
/// and the names of the blocks as they were. Afterwards the table named lists
/// the partition if that table is a known block other than the partition
/// itself, and no other table lists it.
pub proof fn lemma_place_partition<H>(t: Topology<H>, id: Seq<char>, table: Seq<char>, number: nat)
    requires
        t.wf(),
    ensures
        t.place_partition(id, table, number).wf(),
        t.place_partition(id, table, number).drives == t.drives,
        forall|x: Seq<char>| #[trigger] t.place_partition(id, table, number).has_drive(x) <==> t.has_drive(x),
        forall|x: Seq<char>| #[trigger] t.place_partition(id, table, number).has_block(x) <==> t.has_block(x),
        forall|i: int|
            0 <= i < t.blocks.len() ==> (lists((#[trigger] t.place_partition(id, table, number).blocks[i]).partitions, id)
                <==> (table != id && t.blocks[i].identity == table)),
{
    let r = t.place_partition(id, table, number);
    let base = t.detach_partition(id);
    let slot = Slot { identity: id, number };
    lemma_detached(t.blocks, id);
    lemma_same_names(t, base);
    assert(base.wf());
    if table != id && base.has_block(table) {
        lemma_same_names(base, r);
        assert forall|i: int| 0 <= i < base.blocks.len()
            implies tidy((#[trigger] r.blocks[i]).partitions, r.blocks[i].identity)
            && (forall|x: Seq<char>| #[trigger]
            lists(r.blocks[i].partitions, x) <==> ((x == id && base.blocks[i].identity == table) || lists(
                base.blocks[i].partitions,
                x,
            ))) by {
            assert(tidy(base.blocks[i].partitions, base.blocks[i].identity));
            assert(!lists(base.blocks[i].partitions, id));
            if base.blocks[i].identity == table {
                lemma_placed(base.blocks[i].partitions, slot);
            }
        }
        assert forall|i: int, j: int| 0 <= i < j < r.blocks.len() implies (#[trigger] r.blocks[i]).identity != (
        #[trigger] r.blocks[j]).identity by {
            assert(base.blocks[i].identity != base.blocks[j].identity);
        }
        assert forall|i: int, j: int, x: Seq<char>|
            0 <= i < r.blocks.len() && 0 <= j < r.blocks.len() && i != j && #[trigger] lists(
                r.blocks[i].partitions,
                x,
            ) implies !#[trigger] lists(r.blocks[j].partitions, x) by {
            assert(tidy(r.blocks[i].partitions, r.blocks[i].identity));
            assert(tidy(r.blocks[j].partitions, r.blocks[j].identity));
            assert(!lists(base.blocks[i].partitions, id));
            assert(!lists(base.blocks[j].partitions, id));
            if i < j {
                assert(base.blocks[i].identity != base.blocks[j].identity);
            } else {
                assert(base.blocks[j].identity != base.blocks[i].identity);
            }
            if lists(r.blocks[j].partitions, x) {
                if x == id {
                } else {
                    assert(lists(base.blocks[i].partitions, x));
                    assert(lists(base.blocks[j].partitions, x));
                }
            }
        }
        assert forall|i: int| 0 <= i < t.blocks.len() implies (lists((#[trigger] r.blocks[i]).partitions, id) <==> (
        table != id && t.blocks[i].identity == table)) by {
            assert(tidy(r.blocks[i].partitions, r.blocks[i].identity));
            assert(!lists(base.blocks[i].partitions, id));
        }
    } else {
        assert forall|i: int| 0 <= i < t.blocks.len() implies (lists((#[trigger] r.blocks[i]).partitions, id) <==> (
        table != id && t.blocks[i].identity == table)) by {
            assert(!lists(base.blocks[i].partitions, id));
            if table != id && t.blocks[i].identity == table {
                assert(base.blocks[i].identity == table);
            }
        }
    }
    assert forall|x: Seq<char>| #[trigger] r.has_drive(x) <==> t.has_drive(x) by {
        assert(r.has_drive(x) <==> base.has_drive(x));
    }
    assert forall|x: Seq<char>| #[trigger] r.has_block(x) <==> t.has_block(x) by {
        assert(r.has_block(x) <==> base.has_block(x));
    }
}

/// Taking over a table's own listing keeps the topology well-formed and
/// leaves the drives and the names of the blocks as they were. Where the
/// listing is accepted, the table holds exactly the listing afterwards, and no
/// other table lists any partition of it.
pub proof fn lemma_take_table<H>(t: Topology<H>, table: Seq<char>, listing: Seq<Slot>)
    requires
        t.wf(),
    ensures
        t.take_table(table, listing).wf(),
        t.take_table(table, listing).drives == t.drives,
        forall|x: Seq<char>| #[trigger] t.take_table(table, listing).has_drive(x) <==> t.has_drive(x),
        forall|x: Seq<char>| #[trigger] t.take_table(table, listing).has_block(x) <==> t.has_block(x),
        t.accepts_table(table, listing) ==> t.take_table(table, listing).block(table).partitions == listing,
        t.accepts_table(table, listing) ==> forall|i: int, x: Seq<char>|
            0 <= i < t.blocks.len() && t.blocks[i].identity != table && lists(listing, x) ==> !#[trigger] lists(
                t.take_table(table, listing).blocks[i].partitions,
                x,
            ),
{
    let r = t.take_table(table, listing);
    if t.accepts_table(table, listing) {
        lemma_same_names(t, r);
        assert forall|i: int| 0 <= i < t.blocks.len()
            implies tidy((#[trigger] r.blocks[i]).partitions, r.blocks[i].identity)
            && (t.blocks[i].identity != table ==> forall|x: Seq<char>| #[trigger]
            lists(r.blocks[i].partitions, x) <==> (lists(t.blocks[i].partitions, x) && !lists(listing, x))) by {
            assert(tidy(t.blocks[i].partitions, t.blocks[i].identity));
            if t.blocks[i].identity != table {
                lemma_kept_slots(t.blocks[i].partitions, slot_not_in(listing));
                assert forall|x: Seq<char>| #[trigger]
                    lists(r.blocks[i].partitions, x) <==> (lists(t.blocks[i].partitions, x) && !lists(listing, x)) by {
                    if lists(t.blocks[i].partitions, x) && !lists(listing, x) {
                        let k = choose|k: int|
                            0 <= k < t.blocks[i].partitions.len() && (#[trigger] t.blocks[i].partitions[k]).identity == x;
                        assert(slot_not_in(listing)(t.blocks[i].partitions[k]));
                    }
                }
            }
        }
        assert forall|i: int, j: int| 0 <= i < j < r.blocks.len() implies (#[trigger] r.blocks[i]).identity != (
        #[trigger] r.blocks[j]).identity by {
            assert(t.blocks[i].identity != t.blocks[j].identity);
        }
        assert forall|i: int, j: int, x: Seq<char>|
            0 <= i < r.blocks.len() && 0 <= j < r.blocks.len() && i != j && #[trigger] lists(
                r.blocks[i].partitions,
                x,
            ) implies !#[trigger] lists(r.blocks[j].partitions, x) by {
            assert(tidy(r.blocks[i].partitions, r.blocks[i].identity));
            assert(tidy(r.blocks[j].partitions, r.blocks[j].identity));
            if i < j {
                assert(t.blocks[i].identity != t.blocks[j].identity);
            } else {
                assert(t.blocks[j].identity != t.blocks[i].identity);
            }
            if lists(r.blocks[j].partitions, x) {
                if t.blocks[i].identity != table && t.blocks[j].identity != table {
                    assert(lists(t.blocks[i].partitions, x));
                    assert(lists(t.blocks[j].partitions, x));
                }
            }
        }
        let c = choose|i: int| 0 <= i < r.blocks.len() && (#[trigger] r.blocks[i]).identity == table;
        let k = choose|k: int| 0 <= k < t.blocks.len() && (#[trigger] t.blocks[k]).identity == table;
        assert(r.blocks[k].identity == table);
        assert(t.blocks[c].identity == table);
        assert forall|i: int, x: Seq<char>|
            0 <= i < t.blocks.len() && t.blocks[i].identity != table && lists(listing, x) implies !#[trigger] lists(
            r.blocks[i].partitions,
            x,
        ) by {
            assert(tidy(r.blocks[i].partitions, r.blocks[i].identity));
        }
    }
}

/// What a table makes of a listing is tidy, whatever the listing.
pub proof fn lemma_arranged(listing: Seq<Slot>, table: Seq<char>)
    ensures
        tidy(arrange(listing, table), table),
        forall|id: Seq<char>| #[trigger] lists(arrange(listing, table), id) ==> lists(listing, id),
    decreases listing.len(),
{
    if listing.len() > 0 {
        let rest = listing.drop_last();
        let sooner = arrange(rest, table);
        let slot = listing.last();
        lemma_arranged(rest, table);
        assert forall|id: Seq<char>| lists(rest, id) implies lists(listing, id) by {
            let k = choose|k: int| 0 <= k < rest.len() && (#[trigger] rest[k]).identity == id;
            assert(listing[k].identity == id);
        }
        assert(lists(listing, slot.identity)) by {
            assert(listing[listing.len() - 1].identity == slot.identity);
        }
        if slot.identity != table {
            let cleared = sooner.filter(slot_is_not(slot.identity));
            lemma_kept_slots(sooner, slot_is_not(slot.identity));
            assert(!lists(cleared, slot.identity));
            assert(!lists(cleared, table));
            lemma_placed(cleared, slot);
            assert forall|id: Seq<char>| #[trigger] lists(arrange(listing, table), id)
                implies lists(listing, id) by {
                if id != slot.identity {
                    assert(lists(cleared, id));
                    assert(lists(sooner, id));
                }
            }
        }
    }
}

/// A tidy listing is taken as it stands.
pub proof fn lemma_arrange_tidy(listing: Seq<Slot>, table: Seq<char>)
    requires
        tidy(listing, table),
    ensures
        arrange(listing, table) == listing,
    decreases listing.len(),
{
    if listing.len() == 0 {
        assert(listing =~= Seq::<Slot>::empty());
    } else {
        let rest = listing.drop_last();
        let slot = listing.last();
        assert(tidy(rest, table)) by {
            assert forall|k: int, l: int| 0 <= k < l < rest.len() implies (#[trigger] rest[k]).number <= (
            #[trigger] rest[l]).number && rest[k].identity != rest[l].identity by {
                assert(listing[k].number <= listing[l].number);
                assert(listing[k].identity != listing[l].identity);
            }
            if lists(rest, table) {
                let k = choose|k: int| 0 <= k < rest.len() && (#[trigger] rest[k]).identity == table;
                assert(listing[k].identity == table);
            }
        }
        lemma_arrange_tidy(rest, table);
        assert(slot.identity != table) by {
            assert(listing[listing.len() - 1].identity == slot.identity);
        }
        assert forall|k: int| 0 <= k < rest.len()
            implies slot_is_not(slot.identity)(#[trigger] rest[k]) && rest[k].number
            <= slot.number by {
            assert(listing[k].identity != listing[listing.len() - 1].identity);
            assert(listing[k].number <= listing[listing.len() - 1].number);
        }
        lemma_filter_keeps_all(rest, slot_is_not(slot.identity));
        lemma_place_at(rest, slot, rest.len() as int);
        assert(rest.insert(rest.len() as int, slot) =~= listing);
    }
}

/// Taking over a table's own listing keeps the topology well-formed and
/// leaves the drives and the names of the blocks as they were. Where the table
/// is a known block, it holds the listing put in order afterwards, which is the
/// listing itself where that is tidy, and no other table lists a partition of
/// it.
pub proof fn lemma_sync_partitions<H>(t: Topology<H>, table: Seq<char>, listing: Seq<Slot>)
    requires
        t.wf(),
    ensures
        t.sync_partitions(table, listing).wf(),
        t.sync_partitions(table, listing).drives == t.drives,
        forall|x: Seq<char>| #[trigger] t.sync_partitions(table, listing).has_drive(x) <==> t.has_drive(x),
        forall|x: Seq<char>| #[trigger] t.sync_partitions(table, listing).has_block(x) <==> t.has_block(x),
        t.has_block(table) ==> t.sync_partitions(table, listing).block(table).partitions == arrange(listing, table),
        t.has_block(table) && tidy(listing, table) ==> t.sync_partitions(table, listing).block(table).partitions
            == listing,
        !t.has_block(table) ==> t.sync_partitions(table, listing) == t,
{
    lemma_arranged(listing, table);
    lemma_take_table(t, table, arrange(listing, table));
    if tidy(listing, table) {
        lemma_arrange_tidy(listing, table);
    }
}

} // verus!
