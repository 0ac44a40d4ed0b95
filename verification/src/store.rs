//! The topology store: the one mutable index of drives, blocks and partition
//! tables.
//!
//! Each block remembers the drive it declares as its parent, and whether that
//! drive is known at the moment. A block whose declared parent is not known
//! waits as an orphan; the arrival of the drive attaches it, the departure of
//! the drive releases it again.

use vstd::prelude::*;
use crate::classifier::Role;
use crate::lookup::{lemma_block_at, lemma_drive_at};
use crate::model::{
    arrange, ascending, attach, block_is_not, block_name, detach, distinct, drive_is_not, renew_block, renew_drive,
    resync, slot_is_not, slot_not_in, tidy, BlockRecord, DriveRecord, Slot, Topology,
};
use crate::records::{copy_entries, slots_of, DriveAttributes, PartitionEntry};
use crate::seqs::{lemma_filter_drops_one, lemma_filter_keeps_all, lemma_filter_none};
use crate::tree::{child_of, leaf, leaf_of, lemma_tree_consistent, BlockSubtree, DeviceTree, DriveSubtree};
use crate::wellformed::{
    lemma_arranged, lemma_blocks_kept, lemma_detached, lemma_insert_block, lemma_insert_drive, lemma_kept_slots,
    lemma_place_at, lemma_place_partition, lemma_remove, lemma_take_table, lemma_unlist_next, lemma_unlist_none,
};

verus! {

struct DriveNode<H> {
    identity: String,
    handle: H,
    attributes: DriveAttributes,
}

impl<H> DriveNode<H> {
    spec fn record(self) -> DriveRecord<H> {
        DriveRecord { identity: self.identity@, handle: self.handle, attributes: self.attributes@ }
    }
}

struct BlockNode<H> {
    identity: String,
    handle: H,
    declared_parent: Option<String>,
    /// Whether the declared parent is a drive the store knows.
    attached: bool,
    partitions: Vec<PartitionEntry>,
}

impl<H> BlockNode<H> {
    spec fn record(self) -> BlockRecord<H> {
        BlockRecord {
            identity: self.identity@,
            handle: self.handle,
            declared_parent: self.declared_parent.deep_view(),
            partitions: slots_of(self.partitions@),
        }
    }
}

spec fn drive_record<H>() -> spec_fn(DriveNode<H>) -> DriveRecord<H> {
    |n: DriveNode<H>| n.record()
}

spec fn block_record<H>() -> spec_fn(BlockNode<H>) -> BlockRecord<H> {
    |n: BlockNode<H>| n.record()
}

/// The store. `H` is the type of the capability handles that the nodes own;
/// the store keeps them and never looks inside.
pub struct TopologyStore<H> {
    drives: Vec<DriveNode<H>>,
    blocks: Vec<BlockNode<H>>,
}

impl<H> View for TopologyStore<H> {
    type V = Topology<H>;

    closed spec fn view(&self) -> Topology<H> {
        Topology {
            drives: self.drives@.map_values(drive_record()),
            blocks: self.blocks@.map_values(block_record()),
        }
    }
}

impl<H> TopologyStore<H> {
    /// The store's invariant: what it holds is a well-formed topology, and
    /// each block is marked attached exactly when its declared parent is known.
    pub closed spec fn wf(&self) -> bool {
        &&& self@.wf()
        &&& forall|i: int|
            0 <= i < self.blocks.len() ==> (#[trigger] self.blocks[i]).attached == self@.resolves(
                self.blocks[i].record(),
            )
    }

    /// A well-formed store holds a well-formed topology.
    pub proof fn lemma_wf(&self)
        requires
            self.wf(),
        ensures
            self@.wf(),
    {
    }

    /// A store that knows nothing.
    pub fn new() -> (store: Self)
        ensures
            store.wf(),
            store@ == Topology::<H>::empty(),
    {
        let store = TopologyStore { drives: Vec::new(), blocks: Vec::new() };
        assert(store@.drives =~= Seq::empty());
        assert(store@.blocks =~= Seq::empty());
        store
    }

    /// The position of the drive named `identity`, if the store knows it.
    fn find_drive(&self, identity: &String) -> (found: Option<usize>)
        ensures
            match found {
                Some(i) => i < self.drives.len() && self.drives[i as int].identity@ == identity@,
                None => !self@.has_drive(identity@),
            },
    {
        let mut i: usize = 0;
        while i < self.drives.len()
            invariant
                i <= self.drives.len(),
                forall|j: int| 0 <= j < i ==> (#[trigger] self.drives[j]).identity@ != identity@,
            decreases self.drives.len() - i,
        {
            if self.drives[i].identity == *identity {
                return Some(i);
            }
            i += 1;
        }
        assert forall|j: int| 0 <= j < self@.drives.len() implies (#[trigger] self@.drives[j]).identity
            != identity@ by {
            assert(self.drives[j].identity@ != identity@);
        }
        None
    }

    /// The position of the block named `identity`, if the store knows it.
    fn find_block(&self, identity: &String) -> (found: Option<usize>)
        ensures
            match found {
                Some(i) => i < self.blocks.len() && self.blocks[i as int].identity@ == identity@,
                None => !self@.has_block(identity@),
            },
    {
        let mut i: usize = 0;
        while i < self.blocks.len()
            invariant
                i <= self.blocks.len(),
                forall|j: int| 0 <= j < i ==> (#[trigger] self.blocks[j]).identity@ != identity@,
            decreases self.blocks.len() - i,
        {
            if self.blocks[i].identity == *identity {
                return Some(i);
            }
            i += 1;
        }
        assert forall|j: int| 0 <= j < self@.blocks.len() implies (#[trigger] self@.blocks[j]).identity
            != identity@ by {
            assert(self.blocks[j].identity@ != identity@);
        }
        None
    }
}

/// The position of the entry of the partition named `identity`, if the table
/// has one.
fn find_entry(entries: &Vec<PartitionEntry>, identity: &String) -> (found: Option<usize>)
    ensures
        match found {
            Some(k) => k < entries.len() && entries[k as int].identity@ == identity@,
            None => forall|k: int| 0 <= k < entries.len() ==> (#[trigger] entries[k]).identity@ != identity@,
        },
{
    let mut k: usize = 0;
    while k < entries.len()
        invariant
            k <= entries.len(),
            forall|j: int| 0 <= j < k ==> (#[trigger] entries[j]).identity@ != identity@,
        decreases entries.len() - k,
    {
        if entries[k].identity == *identity {
            return Some(k);
        }
        k += 1;
    }
    None
}

/// Takes the partition named `identity` off a table.
fn strip_entry(entries: &mut Vec<PartitionEntry>, identity: &String)
    requires
        distinct(slots_of(old(entries)@)),
    ensures
        slots_of(final(entries)@) == slots_of(old(entries)@).filter(slot_is_not(identity@)),
{
    let ghost before = slots_of(entries@);
    match find_entry(entries, identity) {
        Some(k) => {
            entries.remove(k);
            proof {
                assert forall|j: int| 0 <= j < before.len() && j != k implies slot_is_not(identity@)(
                    #[trigger] before[j],
                ) by {
                    if j < k {
                        assert(before[j].identity != before[k as int].identity);
                    } else {
                        assert(before[k as int].identity != before[j].identity);
                    }
                }
                lemma_filter_drops_one(before, slot_is_not(identity@), k as int);
                assert(slots_of(entries@) =~= before.remove(k as int));
            }
        },
        None => {
            proof {
                assert forall|j: int| 0 <= j < before.len()
                    implies slot_is_not(identity@)(#[trigger] before[j]) by {
                    assert(entries[j].identity@ != identity@);
                }
                lemma_filter_keeps_all(before, slot_is_not(identity@));
            }
        },
    }
}

impl<H> TopologyStore<H> {
    /// Marks every block that declares `drive` as its parent as attached, or as
    /// not attached, and touches nothing else.
    fn mark(&mut self, drive: &String, attached: bool)
        ensures
            final(self).drives@ == old(self).drives@,
            final(self).blocks.len() == old(self).blocks.len(),
            final(self)@ == old(self)@,
            forall|i: int|
                0 <= i < old(self).blocks.len() ==> (#[trigger] final(self).blocks[i]).record() == old(
                    self,
                ).blocks[i].record(),
            forall|i: int|
                0 <= i < old(self).blocks.len() ==> (#[trigger] final(self).blocks[i]).attached == (if old(
                    self,
                ).blocks[i].declared_parent.deep_view() == Some(drive@) {
                    attached
                } else {
                    old(self).blocks[i].attached
                }),
    {
        let mut i: usize = 0;
        while i < self.blocks.len()
            invariant
                i <= self.blocks.len(),
                self.drives@ == old(self).drives@,
                self.blocks.len() == old(self).blocks.len(),
                forall|j: int|
                    0 <= j < self.blocks.len() ==> (#[trigger] self.blocks[j]).record() == old(
                        self,
                    ).blocks[j].record(),
                forall|j: int|
                    0 <= j < i ==> (#[trigger] self.blocks[j]).attached == (if old(
                        self,
                    ).blocks[j].declared_parent.deep_view() == Some(drive@) {
                        attached
                    } else {
                        old(self).blocks[j].attached
                    }),
                forall|j: int|
                    i <= j < self.blocks.len() ==> (#[trigger] self.blocks[j]).attached == old(
                        self,
                    ).blocks[j].attached,
            decreases self.blocks.len() - i,
        {
            let declares = match &self.blocks[i].declared_parent {
                Some(parent) => *parent == *drive,
                None => false,
            };
            if declares {
                self.blocks[i].attached = attached;
            }
            i += 1;
        }
        assert(self@.blocks =~= old(self)@.blocks);
    }

    /// Takes the partition named `identity` off every table, and touches
    /// nothing else.
    fn strip_partition(&mut self, identity: &String)
        requires
            forall|i: int| 0 <= i < old(self).blocks.len() ==> distinct(#[trigger] old(self)@.blocks[i].partitions),
        ensures
            final(self).drives@ == old(self).drives@,
            final(self).blocks.len() == old(self).blocks.len(),
            final(self)@.drives == old(self)@.drives,
            final(self)@.blocks == old(self)@.blocks.map_values(detach(identity@)),
            forall|i: int|
                0 <= i < old(self).blocks.len() ==> (#[trigger] final(self).blocks[i]).attached == old(
                    self,
                ).blocks[i].attached,
    {
        let mut i: usize = 0;
        while i < self.blocks.len()
            invariant
                i <= self.blocks.len(),
                self.drives@ == old(self).drives@,
                self.blocks.len() == old(self).blocks.len(),
                forall|j: int|
                    0 <= j < old(self).blocks.len() ==> distinct(#[trigger] old(self)@.blocks[j].partitions),
                forall|j: int|
                    0 <= j < i ==> (#[trigger] self.blocks[j]).record() == old(
                        self,
                    ).blocks[j].record().without_partition(identity@),
                forall|j: int|
                    i <= j < self.blocks.len() ==> (#[trigger] self.blocks[j]).record() == old(
                        self,
                    ).blocks[j].record(),
                forall|j: int|
                    0 <= j < self.blocks.len() ==> (#[trigger] self.blocks[j]).attached == old(
                        self,
                    ).blocks[j].attached,
            decreases self.blocks.len() - i,
        {
            proof {
                assert(distinct(old(self)@.blocks[i as int].partitions));
                assert(old(self)@.blocks[i as int] == old(self).blocks[i as int].record());
            }
            strip_entry(&mut self.blocks[i].partitions, identity);
            i += 1;
        }
        assert(self@.blocks =~= old(self)@.blocks.map_values(detach(identity@)));
    }
}

impl<H> TopologyStore<H> {
    /// Forgets the node named `identity`; see [`TopologyStore::remove`].
    fn forget(&mut self, identity: &String) -> (known: bool)
        requires
            old(self).wf(),
        ensures
            final(self).wf(),
            final(self)@ == old(self)@.remove(identity@),
            known == (old(self)@.has_drive(identity@) || old(self)@.has_block(identity@)),
    {
        let ghost before = self@;
        let ghost target = before.remove(identity@);
        proof {
            lemma_remove(before, identity@);
        }
        let mut known = false;
        match self.find_drive(identity) {
            Some(i) => {
                proof {
                    assert(before.drives[i as int].identity == identity@);
                    assert forall|j: int| 0 <= j < before.drives.len() && j != i implies drive_is_not::<H>(
                        identity@,
                    )(#[trigger] before.drives[j]) by {
                        if j < i {
                            assert(before.drives[j].identity != before.drives[i as int].identity);
                        } else {
                            assert(before.drives[i as int].identity != before.drives[j].identity);
                        }
                    }
                    lemma_filter_drops_one(before.drives, drive_is_not(identity@), i as int);
                }
                self.drives.remove(i);
                assert(self@.drives =~= before.drives.remove(i as int));
                self.mark(identity, false);
                known = true;
            },
            None => {
                proof {
                    assert forall|j: int| 0 <= j < before.drives.len() implies drive_is_not::<H>(identity@)(
                        #[trigger] before.drives[j],
                    ) by {}
                    lemma_filter_keeps_all(before.drives, drive_is_not(identity@));
                }
            },
        }
        assert(self@.drives == target.drives);
        assert(self@.blocks =~= before.blocks);
        assert forall|j: int| 0 <= j < self.blocks.len() implies (#[trigger] self.blocks[j]).attached
            == target.resolves(self.blocks[j].record()) by {
            assert(self.blocks[j].record() == old(self).blocks[j].record());
            assert(old(self).blocks[j].attached == before.resolves(old(self).blocks[j].record()));
            match self.blocks[j].record().declared_parent {
                Some(parent) => {
                    if parent != identity@ {
                        assert(target.has_drive(parent) <==> before.has_drive(parent));
                    }
                },
                None => {},
            }
        }
        let ghost middle = self.blocks@;
        match self.find_block(identity) {
            Some(i) => {
                proof {
                    assert(before.blocks[i as int].identity == identity@);
                    assert forall|j: int| 0 <= j < before.blocks.len() && j != i implies block_is_not::<H>(
                        identity@,
                    )(#[trigger] before.blocks[j]) by {
                        if j < i {
                            assert(before.blocks[j].identity != before.blocks[i as int].identity);
                        } else {
                            assert(before.blocks[i as int].identity != before.blocks[j].identity);
                        }
                    }
                    lemma_filter_drops_one(before.blocks, block_is_not(identity@), i as int);
                }
                self.blocks.remove(i);
                assert(self@.blocks =~= before.blocks.remove(i as int));
                assert forall|j: int| 0 <= j < self.blocks.len() implies (#[trigger] self.blocks[j]).attached
                    == target.resolves(self.blocks[j].record()) by {
                    if j < i {
                        assert(self.blocks[j] == middle[j]);
                    } else {
                        assert(self.blocks[j] == middle[j + 1]);
                    }
                }
                known = true;
            },
            None => {
                proof {
                    assert forall|j: int| 0 <= j < before.blocks.len() implies block_is_not::<H>(identity@)(
                        #[trigger] before.blocks[j],
                    ) by {}
                    lemma_filter_keeps_all(before.blocks, block_is_not(identity@));
                }
            },
        }
        assert(self@.blocks == before.blocks.filter(block_is_not(identity@)));
        proof {
            lemma_blocks_kept(before.blocks, block_is_not(identity@));
        }
        let ghost late = self.blocks@;
        self.strip_partition(identity);
        assert(self@ == target);
        assert forall|j: int| 0 <= j < self.blocks.len() implies (#[trigger] self.blocks[j]).attached
            == self@.resolves(self.blocks[j].record()) by {
            assert(self@.blocks[j] == self.blocks[j].record());
            assert(self@.blocks[j] == late[j].record().without_partition(identity@));
            assert(late[j].attached == target.resolves(late[j].record()));
        }
        known
    }

    /// Forgets the node named `identity`, drive or block, and takes the name
    /// off every partition table. Blocks that declare a removed drive as their
    /// parent stay in the store as orphans. Says whether there was such a node.
    pub fn remove(&mut self, identity: &str) -> (known: bool)
        requires
            old(self).wf(),
        ensures
            final(self).wf(),
            final(self)@ == old(self)@.remove(identity@),
            known == (old(self)@.has_drive(identity@) || old(self)@.has_block(identity@)),
    {
        let wanted = identity.to_owned();
        self.forget(&wanted)
    }
}

impl<H> TopologyStore<H> {
    /// Records a drive. A block of the same name is forgotten first, as by
    /// [`TopologyStore::remove`]. A drive that is already known keeps its
    /// place and takes the new handle and attributes. A drive that is new comes
    /// last, and every orphan that was waiting for it is attached to it.
    pub fn insert_drive(&mut self, identity: String, handle: H, attributes: DriveAttributes)
        requires
            old(self).wf(),
        ensures
            final(self).wf(),
            final(self)@ == old(self)@.insert_drive(identity@, handle, attributes@),
    {
        let ghost before = self@;
        let ghost target = before.insert_drive(identity@, handle, attributes@);
        let ghost record = DriveRecord { identity: identity@, handle, attributes: attributes@ };
        proof {
            lemma_insert_drive(before, identity@, handle, attributes@);
        }
        match self.find_block(&identity) {
            Some(i) => {
                assert(before.blocks[i as int].identity == identity@);
                self.forget(&identity);
            },
            None => {},
        }
        let ghost base = self@;
        let ghost settled = self.blocks@;
        assert(base == if before.has_block(identity@) {
            before.remove(identity@)
        } else {
            before
        });
        match self.find_drive(&identity) {
            Some(i) => {
                assert(base.drives[i as int].identity == identity@);
                self.drives[i].handle = handle;
                self.drives[i].attributes = attributes;
                proof {
                    assert forall|j: int| 0 <= j < base.drives.len() implies (#[trigger] self@.drives[j])
                        == renew_drive(record)(base.drives[j]) by {
                        if j < i {
                            assert(base.drives[j].identity != base.drives[i as int].identity);
                        } else if j > i {
                            assert(base.drives[i as int].identity != base.drives[j].identity);
                        }
                    }
                    assert(self@.drives =~= base.drives.map_values(renew_drive(record)));
                    assert(self@.blocks =~= base.blocks);
                }
            },
            None => {
                let name = identity.clone();
                self.drives.push(DriveNode { identity, handle, attributes });
                assert(self@.drives =~= base.drives.push(record));
                assert(self@.blocks =~= base.blocks);
                self.mark(&name, true);
            },
        }
        assert(self@ == target);
        assert forall|j: int| 0 <= j < self.blocks.len() implies (#[trigger] self.blocks[j]).attached
            == self@.resolves(self.blocks[j].record()) by {
            assert(self.blocks[j].record() == settled[j].record());
            assert(settled[j].attached == base.resolves(settled[j].record()));
            match settled[j].record().declared_parent {
                Some(parent) => {
                    if parent != identity@ {
                        assert(target.has_drive(parent) <==> before.has_drive(parent));
                        if before.has_block(identity@) {
                            lemma_remove(before, identity@);
                            assert(base.has_drive(parent) <==> before.has_drive(parent));
                        }
                    }
                },
                None => {},
            }
        }
    }

    /// Records a block. A drive of the same name is forgotten first, as by
    /// [`TopologyStore::remove`]. A block that is already known keeps its place
    /// and its partition table and takes the new handle and declared parent. A
    /// block that is new comes last, with an empty table. Either way the block
    /// hangs under its declared parent if that drive is known, and otherwise
    /// waits for it as a root of its own.
    pub fn insert_block(&mut self, identity: String, handle: H, declared_parent: Option<String>)
        requires
            old(self).wf(),
        ensures
            final(self).wf(),
            final(self)@ == old(self)@.insert_block(identity@, handle, declared_parent.deep_view()),
    {
        let ghost before = self@;
        let ghost target = before.insert_block(identity@, handle, declared_parent.deep_view());
        proof {
            lemma_insert_block(before, identity@, handle, declared_parent.deep_view());
        }
        match self.find_drive(&identity) {
            Some(i) => {
                assert(before.drives[i as int].identity == identity@);
                self.forget(&identity);
            },
            None => {},
        }
        let ghost base = self@;
        let ghost settled = self.blocks@;
        assert(base == if before.has_drive(identity@) {
            before.remove(identity@)
        } else {
            before
        });
        let attached = match &declared_parent {
            Some(parent) => {
                match self.find_drive(parent) {
                    Some(i) => {
                        assert(base.drives[i as int].identity == parent@);
                        true
                    },
                    None => false,
                }
            },
            None => false,
        };
        let ghost fresh = BlockRecord {
            identity: identity@,
            handle,
            declared_parent: declared_parent.deep_view(),
            partitions: Seq::<Slot>::empty(),
        };
        assert(attached == base.resolves(fresh));
        match self.find_block(&identity) {
            Some(i) => {
                assert(base.blocks[i as int].identity == identity@);
                self.blocks[i].handle = handle;
                self.blocks[i].declared_parent = declared_parent;
                self.blocks[i].attached = attached;
                proof {
                    assert forall|j: int| 0 <= j < base.blocks.len() implies (#[trigger] self@.blocks[j])
                        == renew_block(identity@, handle, declared_parent.deep_view())(base.blocks[j]) by {
                        if j < i {
                            assert(base.blocks[j].identity != base.blocks[i as int].identity);
                        } else if j > i {
                            assert(base.blocks[i as int].identity != base.blocks[j].identity);
                        }
                    }
                    assert(self@.blocks =~= base.blocks.map_values(
                        renew_block(identity@, handle, declared_parent.deep_view()),
                    ));
                    assert(self@.drives =~= base.drives);
                }
            },
            None => {
                self.blocks.push(
                    BlockNode { identity, handle, declared_parent, attached, partitions: Vec::new() },
                );
                proof {
                    assert(self.blocks[base.blocks.len() as int].record().partitions =~= fresh.partitions);
                    assert(self.blocks[base.blocks.len() as int].record() == fresh);
                    assert(self@.blocks =~= base.blocks.push(fresh));
                    assert(self@.drives =~= base.drives);
                }
            },
        }
        assert(self@ == target);
        assert forall|j: int| 0 <= j < self.blocks.len() implies (#[trigger] self.blocks[j]).attached
            == self@.resolves(self.blocks[j].record()) by {
            assert(self@.drives == base.drives);
            if j < settled.len() && settled[j].identity@ != identity@ {
                assert(self.blocks[j] == settled[j]);
                assert(settled[j].attached == base.resolves(settled[j].record()));
            }
        }
    }
}

/// Where an entry numbered `number` goes in an ordered table: behind every
/// entry of the same or a lower number.
fn insertion_point(entries: &Vec<PartitionEntry>, number: u32) -> (at: usize)
    requires
        ascending(slots_of(entries@)),
    ensures
        at <= entries.len(),
        forall|k: int| 0 <= k < at ==> (#[trigger] slots_of(entries@)[k]).number <= number,
        forall|k: int| at <= k < entries.len() ==> (#[trigger] slots_of(entries@)[k]).number > number,
{
    let ghost slots = slots_of(entries@);
    let mut at: usize = 0;
    while at < entries.len() && entries[at].number <= number
        invariant
            at <= entries.len(),
            slots == slots_of(entries@),
            forall|k: int| 0 <= k < at ==> (#[trigger] slots[k]).number <= number,
        decreases entries.len() - at,
    {
        at += 1;
    }
    assert forall|k: int| at <= k < entries.len() implies (#[trigger] slots[k]).number > number by {
        assert(slots[at as int].number > number);
        if at < k {
            assert(slots[at as int].number <= slots[k].number);
        }
    }
    at
}

impl<H> TopologyStore<H> {
    /// Records that the partition `identity` is number `number` of the table
    /// carried by the block `table`. The partition leaves whatever table listed
    /// it. If `table` is a known block other than the partition itself, the
    /// partition enters its table behind the entries of the same or a lower number;
    /// otherwise no table lists it afterwards.
    pub fn place_partition(&mut self, identity: String, table: &str, number: u32)
        requires
            old(self).wf(),
        ensures
            final(self).wf(),
            final(self)@ == old(self)@.place_partition(identity@, table@, number as nat),
    {
        let ghost before = self@;
        let ghost target = before.place_partition(identity@, table@, number as nat);
        let ghost slot = Slot { identity: identity@, number: number as nat };
        let ghost entering = old(self).blocks@;
        proof {
            lemma_place_partition(before, identity@, table@, number as nat);
            lemma_detached(before.blocks, identity@);
        }
        self.strip_partition(&identity);
        let ghost base = self@;
        let ghost settled = self.blocks@;
        assert(base == before.detach_partition(identity@));
        let owner = table.to_owned();
        if !(owner == identity) {
            match self.find_block(&owner) {
                Some(t) => {
                    assert(base.blocks[t as int].identity == table@);
                    assert(base.blocks[t as int] == self.blocks[t as int].record());
                    let at = insertion_point(&self.blocks[t].partitions, number);
                    proof {
                        lemma_place_at(base.blocks[t as int].partitions, slot, at as int);
                    }
                    self.blocks[t].partitions.insert(at, PartitionEntry { identity, number });
                    proof {
                        assert(slots_of(self.blocks[t as int].partitions@) =~= base.blocks[t as int].partitions.insert(
                            at as int,
                            slot,
                        ));
                        assert forall|j: int| 0 <= j < base.blocks.len() implies (#[trigger] self@.blocks[j])
                            == attach::<H>(table@, slot)(base.blocks[j]) by {
                            if j < t {
                                assert(base.blocks[j].identity != base.blocks[t as int].identity);
                            } else if j > t {
                                assert(base.blocks[t as int].identity != base.blocks[j].identity);
                            }
                        }
                        assert(self@.blocks =~= base.blocks.map_values(attach(table@, slot)));
                    }
                },
                None => {},
            }
        }
        assert(self@.drives =~= before.drives);
        assert(self@ == target);
        assert forall|j: int| 0 <= j < self.blocks.len() implies (#[trigger] self.blocks[j]).attached
            == self@.resolves(self.blocks[j].record()) by {
            assert(self.blocks[j].attached == entering[j].attached);
            assert(self.blocks[j].record().declared_parent == entering[j].record().declared_parent) by {
                assert(settled[j].record() == base.blocks[j]);
                assert(base.blocks[j] == before.blocks[j].without_partition(identity@));
                assert(before.blocks[j] == entering[j].record());
            }
            assert(entering[j].attached == before.resolves(entering[j].record()));
        }
    }
}

/// Puts a listing in order: its entries placed one after the other into an
/// empty table, each by its number, a later entry of a partition replacing an
/// earlier one, and an entry of `owner` itself left out.
fn arrange_entries(listing: &Vec<PartitionEntry>, owner: &String) -> (arranged: Vec<PartitionEntry>)
    ensures
        slots_of(arranged@) == arrange(slots_of(listing@), owner@),
{
    let ghost reported = slots_of(listing@);
    let mut arranged: Vec<PartitionEntry> = Vec::new();
    let mut i: usize = 0;
    assert(slots_of(arranged@) =~= arrange(reported.take(0), owner@));
    while i < listing.len()
        invariant
            i <= listing.len(),
            reported == slots_of(listing@),
            slots_of(arranged@) == arrange(reported.take(i as int), owner@),
        decreases listing.len() - i,
    {
        let ghost sooner = slots_of(arranged@);
        proof {
            lemma_arranged(reported.take(i as int), owner@);
            assert(reported.take(i + 1).drop_last() =~= reported.take(i as int));
            assert(reported.take(i + 1).last() == reported[i as int]);
            assert(reported[i as int] == listing[i as int]@);
        }
        if !(listing[i].identity == *owner) {
            strip_entry(&mut arranged, &listing[i].identity);
            proof {
                lemma_kept_slots(sooner, slot_is_not(listing[i as int].identity@));
            }
            let at = insertion_point(&arranged, listing[i].number);
            proof {
                lemma_place_at(slots_of(arranged@), listing[i as int]@, at as int);
            }
            let ghost cleared = slots_of(arranged@);
            arranged.insert(at, listing[i].clone());
            assert(slots_of(arranged@) =~= cleared.insert(at as int, listing[i as int]@));
        }
        i += 1;
    }
    assert(reported.take(i as int) =~= reported);
    arranged
}

/// Takes the partitions that `listing` names off a block's table.
spec fn unlist<H>(listing: Seq<Slot>) -> spec_fn(BlockRecord<H>) -> BlockRecord<H> {
    |b: BlockRecord<H>| b.without_listed(listing)
}

impl<H> TopologyStore<H> {
    /// Takes over what the block `table` itself reports as its partitions.
    /// Where the store knows that block, its table becomes the listing put in
    /// order (by partition number; of a partition listed twice the later entry;
    /// the table itself left out), which is the listing as it stands where that
    /// is in order already. The partitions of the listing leave every other
    /// table. Where the store knows no such block, nothing changes. Says whether
    /// the store knows the block.
    pub fn sync_partitions(&mut self, table: &str, listing: Vec<PartitionEntry>) -> (known: bool)
        requires
            old(self).wf(),
        ensures
            final(self).wf(),
            final(self)@ == old(self)@.sync_partitions(table@, slots_of(listing@)),
            known == old(self)@.has_block(table@),
    {
        let ghost before = self@;
        let ghost entering = self.blocks@;
        let owner = table.to_owned();
        let t = match self.find_block(&owner) {
            Some(t) => t,
            None => {
                return false;
            },
        };
        assert(before.blocks[t as int].identity == table@);
        let arranged = arrange_entries(&listing, &owner);
        let ghost reported = slots_of(arranged@);
        proof {
            lemma_arranged(slots_of(listing@), table@);
            lemma_take_table(before, table@, reported);
        }
        let mut done: usize = 0;
        proof {
            assert forall|j: int| 0 <= j < before.blocks.len() implies #[trigger] before.blocks[j] == unlist::<H>(
                reported.take(0),
            )(before.blocks[j]) by {
                lemma_unlist_none(before.blocks[j].partitions, reported.take(0));
            }
            assert(self@.blocks =~= before.blocks.map_values(unlist(reported.take(0))));
        }
        while done < arranged.len()
            invariant
                done <= arranged.len(),
                reported == slots_of(arranged@),
                before.wf(),
                self.drives@ == old(self).drives@,
                self.blocks.len() == entering.len(),
                before.blocks.len() == entering.len(),
                self@.blocks == before.blocks.map_values(unlist(reported.take(done as int))),
                forall|j: int|
                    0 <= j < self.blocks.len() ==> (#[trigger] self.blocks[j]).attached == entering[j].attached,
            decreases arranged.len() - done,
        {
            let ghost current = self@.blocks;
            proof {
                assert forall|j: int| 0 <= j < self.blocks.len()
                    implies distinct(#[trigger] self@.blocks[j].partitions) by {
                    lemma_kept_slots(before.blocks[j].partitions, slot_not_in(reported.take(done as int)));
                    assert(tidy(before.blocks[j].partitions, before.blocks[j].identity));
                }
            }
            self.strip_partition(&arranged[done].identity);
            proof {
                assert(reported[done as int].identity == arranged[done as int].identity@);
                assert forall|j: int| 0 <= j < before.blocks.len()
                    implies (#[trigger] self@.blocks[j]) == unlist::<H>(
                    reported.take(done + 1),
                )(before.blocks[j]) by {
                    assert(self@.blocks[j] == current[j].without_partition(reported[done as int].identity));
                    lemma_unlist_next(before.blocks[j].partitions, reported, done as int);
                }
                assert(self@.blocks =~= before.blocks.map_values(unlist(reported.take(done + 1))));
            }
            done += 1;
        }
        assert(reported.take(done as int) =~= reported);
        let ghost thinned = self@.blocks;
        self.blocks[t].partitions = arranged;
        proof {
            assert forall|j: int| 0 <= j < before.blocks.len() implies (#[trigger] self@.blocks[j]) == resync::<H>(
                table@,
                reported,
            )(before.blocks[j]) by {
                assert(thinned[j] == before.blocks[j].without_listed(reported));
                if j < t {
                    assert(before.blocks[j].identity != before.blocks[t as int].identity);
                } else if j > t {
                    assert(before.blocks[t as int].identity != before.blocks[j].identity);
                }
            }
            assert(self@.blocks =~= before.blocks.map_values(resync(table@, reported)));
            assert(self@.drives =~= before.drives);
            assert(self@ == before.take_table(table@, reported));
            assert forall|j: int| 0 <= j < self.blocks.len() implies (#[trigger] self.blocks[j]).attached
                == self@.resolves(self.blocks[j].record()) by {
                assert(self@.blocks[j] == self.blocks[j].record());
                assert(before.blocks[j] == entering[j].record());
                assert(entering[j].attached == before.resolves(entering[j].record()));
            }
        }
        true
    }
}

impl<H> BlockNode<H> {
    /// This block as a snapshot shows it.
    fn subtree(&self) -> (shown: BlockSubtree)
        ensures
            shown@ == leaf::<H>()(self.record()),
    {
        BlockSubtree {
            identity: self.identity.clone(),
            declared_parent: self.declared_parent.clone(),
            partitions: copy_entries(&self.partitions),
        }
    }
}

impl<H> TopologyStore<H> {
    /// The blocks that declare `drive` as their parent, as a snapshot shows
    /// them.
    fn children_of(&self, drive: &String) -> (children: Vec<BlockSubtree>)
        ensures
            children@.map_values(leaf_of()) == self@.children(drive@),
    {
        let mut children: Vec<BlockSubtree> = Vec::new();
        let mut i: usize = 0;
        assert(self@.blocks.take(0) =~= Seq::empty());
        proof {
            lemma_filter_none(self@.blocks.take(0), child_of::<H>(drive@));
        }
        assert(children@.map_values(leaf_of()) =~= self@.blocks.take(0).filter(child_of(drive@)).map_values(leaf()));
        while i < self.blocks.len()
            invariant
                i <= self.blocks.len(),
                children@.map_values(leaf_of()) == self@.blocks.take(i as int).filter(child_of(drive@)).map_values(
                    leaf(),
                ),
            decreases self.blocks.len() - i,
        {
            let ghost seen = self@.blocks.take(i as int);
            let ghost kept = seen.filter(child_of(drive@));
            let ghost shown = children@;
            proof {
                assert(self@.blocks.take(i + 1) =~= seen.push(self@.blocks[i as int]));
                seen.lemma_filter_push(self@.blocks[i as int], child_of(drive@));
                assert(self@.blocks[i as int] == self.blocks[i as int].record());
            }
            let declares = match &self.blocks[i].declared_parent {
                Some(parent) => *parent == *drive,
                None => false,
            };
            if declares {
                let block = self.blocks[i].subtree();
                children.push(block);
                assert(children@.map_values(leaf_of()) =~= shown.map_values(leaf_of()).push(
                    leaf::<H>()(self@.blocks[i as int]),
                ));
                assert(kept.push(self@.blocks[i as int]).map_values(leaf()) =~= kept.map_values(leaf()).push(
                    leaf::<H>()(self@.blocks[i as int]),
                ));
            }
            i += 1;
        }
        assert(self@.blocks.take(i as int) =~= self@.blocks);
        children
    }

    /// The blocks that hang under no known drive, as a snapshot shows them.
    fn bare_blocks(&self) -> (bare: Vec<BlockSubtree>)
        requires
            self.wf(),
        ensures
            bare@.map_values(leaf_of()) == self@.tree().bare,
    {
        let mut bare: Vec<BlockSubtree> = Vec::new();
        let mut i: usize = 0;
        assert(self@.blocks.take(0) =~= Seq::empty());
        proof {
            lemma_filter_none(self@.blocks.take(0), self@.unresolved());
        }
        assert(bare@.map_values(leaf_of()) =~= self@.blocks.take(0).filter(self@.unresolved()).map_values(leaf()));
        while i < self.blocks.len()
            invariant
                i <= self.blocks.len(),
                self.wf(),
                bare@.map_values(leaf_of()) == self@.blocks.take(i as int).filter(self@.unresolved()).map_values(
                    leaf(),
                ),
            decreases self.blocks.len() - i,
        {
            let ghost seen = self@.blocks.take(i as int);
            let ghost kept = seen.filter(self@.unresolved());
            let ghost shown = bare@;
            proof {
                assert(self@.blocks.take(i + 1) =~= seen.push(self@.blocks[i as int]));
                seen.lemma_filter_push(self@.blocks[i as int], self@.unresolved());
                assert(self@.blocks[i as int] == self.blocks[i as int].record());
            }
            if !self.blocks[i].attached {
                let block = self.blocks[i].subtree();
                bare.push(block);
                assert(bare@.map_values(leaf_of()) =~= shown.map_values(leaf_of()).push(
                    leaf::<H>()(self@.blocks[i as int]),
                ));
                assert(kept.push(self@.blocks[i as int]).map_values(leaf()) =~= kept.map_values(leaf()).push(
                    leaf::<H>()(self@.blocks[i as int]),
                ));
            }
            i += 1;
        }
        assert(self@.blocks.take(i as int) =~= self@.blocks);
        bare
    }

    /// The inventory as it stands: every drive with the blocks that hang under
    /// it, and the blocks that hang under no known drive. The result is a copy;
    /// it shares nothing with the store. It is whole in the sense of
    /// [`crate::tree::Tree::consistent`].
    pub fn snapshot(&self) -> (tree: DeviceTree)
        requires
            self.wf(),
        ensures
            tree@ == self@.tree(),
            tree@.consistent(),
    {
        let mut drives: Vec<DriveSubtree> = Vec::new();
        let mut d: usize = 0;
        while d < self.drives.len()
            invariant
                d <= self.drives.len(),
                drives.len() == d,
                forall|k: int| 0 <= k < d ==> (#[trigger] drives[k])@ == self@.branch()(self@.drives[k]),
            decreases self.drives.len() - d,
        {
            let blocks = self.children_of(&self.drives[d].identity);
            let drive = DriveSubtree {
                identity: self.drives[d].identity.clone(),
                attributes: self.drives[d].attributes.clone(),
                blocks,
            };
            assert(self@.drives[d as int] == self.drives[d as int].record());
            drives.push(drive);
            d += 1;
        }
        let bare = self.bare_blocks();
        let tree = DeviceTree { drives, bare };
        proof {
            assert(tree@.drives =~= self@.tree().drives);
            lemma_tree_consistent(self@);
        }
        tree
    }

    /// The orphans: the names of the blocks that declare a parent the store
    /// does not know, in the order the store keeps them.
    pub fn orphans(&self) -> (names: Vec<String>)
        requires
            self.wf(),
        ensures
            names.deep_view() == self@.orphans(),
    {
        let mut names: Vec<String> = Vec::new();
        let mut i: usize = 0;
        assert(self@.blocks.take(0) =~= Seq::empty());
        proof {
            lemma_filter_none(self@.blocks.take(0), self@.waiting());
        }
        assert(names.deep_view() =~= self@.blocks.take(0).filter(self@.waiting()).map_values(block_name()));
        while i < self.blocks.len()
            invariant
                i <= self.blocks.len(),
                self.wf(),
                names.deep_view() == self@.blocks.take(i as int).filter(self@.waiting()).map_values(block_name()),
            decreases self.blocks.len() - i,
        {
            let ghost seen = self@.blocks.take(i as int);
            let ghost kept = seen.filter(self@.waiting());
            let ghost listed = names.deep_view();
            proof {
                assert(self@.blocks.take(i + 1) =~= seen.push(self@.blocks[i as int]));
                seen.lemma_filter_push(self@.blocks[i as int], self@.waiting());
                assert(self@.blocks[i as int] == self.blocks[i as int].record());
            }
            if self.blocks[i].declared_parent.is_some() && !self.blocks[i].attached {
                names.push(self.blocks[i].identity.clone());
                assert(names.deep_view() =~= listed.push(self@.blocks[i as int].identity));
                assert(kept.push(self@.blocks[i as int]).map_values(block_name()) =~= kept.map_values(
                    block_name(),
                ).push(self@.blocks[i as int].identity));
            }
            i += 1;
        }
        assert(self@.blocks.take(i as int) =~= self@.blocks);
        names
    }
}

impl<H> TopologyStore<H> {
    /// The role under which the store knows `identity`.
    pub fn role(&self, identity: &str) -> (role: Role)
        ensures
            role == self@.role(identity@),
    {
        let wanted = identity.to_owned();
        match self.find_drive(&wanted) {
            Some(i) => {
                assert(self@.drives[i as int].identity == identity@);
                Role::Drive
            },
            None => match self.find_block(&wanted) {
                Some(i) => {
                    assert(self@.blocks[i as int].identity == identity@);
                    Role::Block
                },
                None => Role::Neither,
            },
        }
    }

    /// The handle of the drive named `identity`, if the store knows such a
    /// drive.
    pub fn drive_handle(&self, identity: &str) -> (handle: Option<&H>)
        requires
            self.wf(),
        ensures
            match handle {
                Some(handle) => self@.has_drive(identity@) && *handle == self@.drive(identity@).handle,
                None => !self@.has_drive(identity@),
            },
    {
        let wanted = identity.to_owned();
        match self.find_drive(&wanted) {
            Some(i) => {
                proof {
                    assert(self@.drives[i as int] == self.drives[i as int].record());
                    lemma_drive_at(self@, i as int);
                }
                Some(&self.drives[i].handle)
            },
            None => None,
        }
    }

    /// The handle of the block named `identity`, if the store knows such a
    /// block.
    pub fn block_handle(&self, identity: &str) -> (handle: Option<&H>)
        requires
            self.wf(),
        ensures
            match handle {
                Some(handle) => self@.has_block(identity@) && *handle == self@.block(identity@).handle,
                None => !self@.has_block(identity@),
            },
    {
        let wanted = identity.to_owned();
        match self.find_block(&wanted) {
            Some(i) => {
                proof {
                    assert(self@.blocks[i as int] == self.blocks[i as int].record());
                    lemma_block_at(self@, i as int);
                }
                Some(&self.blocks[i].handle)
            },
            None => None,
        }
    }
}

} // verus!
