//! The inventory as consumers see it: every drive with the blocks that hang
//! under it, and the blocks that hang under no known drive.

use vstd::prelude::*;
use crate::model::{lists, tidy, Attributes, BlockRecord, DriveRecord, Slot, Topology};
use crate::records::{copy_entries, slots_of, DriveAttributes, PartitionEntry};
use crate::seqs::lemma_filter_origin;

verus! {

/// A block as the tree shows it.
pub struct BlockLeaf {
    pub identity: Seq<char>,
    /// The drive the block says it belongs to. Under a drive this is that
    /// drive; among the bare blocks it is absent, or names a drive that is not
    /// known yet.
    pub declared_parent: Option<Seq<char>>,
    pub partitions: Seq<Slot>,
}

/// A drive with the blocks that hang under it.
pub struct DriveBranch {
    pub identity: Seq<char>,
    pub attributes: Attributes,
    pub blocks: Seq<BlockLeaf>,
}

/// The whole inventory.
pub struct Tree {
    pub drives: Seq<DriveBranch>,
    /// The blocks that are roots of their own: those without a parent, and
    /// those whose parent is not known.
    pub bare: Seq<BlockLeaf>,
}

/// A position at which the tree shows a block.
pub enum Place {
    /// The block at `index` under the drive at `drive`.
    Under { drive: int, index: int },
    /// The bare block at `index`.
    Bare { index: int },
}

impl Tree {
    /// Whether the tree shows a drive named `id`.
    pub open spec fn has_drive(self, id: Seq<char>) -> bool {
        exists|i: int| 0 <= i < self.drives.len() && (#[trigger] self.drives[i]).identity == id
    }

    /// Whether `place` is a position of this tree.
    pub open spec fn holds(self, place: Place) -> bool {
        match place {
            Place::Under { drive, index } => 0 <= drive < self.drives.len() && 0 <= index
                < self.drives[drive].blocks.len(),
            Place::Bare { index } => 0 <= index < self.bare.len(),
        }
    }

    /// The block shown at `place`.
    pub open spec fn leaf_at(self, place: Place) -> BlockLeaf {
        match place {
            Place::Under { drive, index } => self.drives[drive].blocks[index],
            Place::Bare { index } => self.bare[index],
        }
    }

    /// Whether the tree shows the block `leaf` at some place.
    pub open spec fn shows(self, leaf: BlockLeaf) -> bool {
        exists|place: Place| #[trigger] self.holds(place) && self.leaf_at(place) == leaf
    }

    /// Whether the tree shows the block named `block` under the drive named
    /// `drive`.
    pub open spec fn hangs_under(self, block: Seq<char>, drive: Seq<char>) -> bool {
        exists|d: int, k: int| #[trigger]
            self.holds(Place::Under { drive: d, index: k }) && self.drives[d].identity == drive
                && self.drives[d].blocks[k].identity == block
    }

    /// Whether the tree shows the block named `block` as a root of its own.
    pub open spec fn is_bare(self, block: Seq<char>) -> bool {
        exists|k: int| #[trigger] self.holds(Place::Bare { index: k }) && self.bare[k].identity == block
    }

    /// Whether `id` occurs in the tree as a drive, as a block, or in a table.
    pub open spec fn mentions(self, id: Seq<char>) -> bool {
        ||| self.has_drive(id)
        ||| exists|place: Place| #[trigger]
            self.holds(place) && (self.leaf_at(place).identity == id || lists(self.leaf_at(place).partitions, id))
    }

    /// The tree is whole: no drive and no block is shown twice, nothing is both,
    /// a block under a drive declares that drive, a bare block declares no drive
    /// that the tree shows, every table is tidy, and no partition is listed by two
    /// tables.
    pub open spec fn consistent(self) -> bool {
        &&& forall|i: int, j: int|
            0 <= i < j < self.drives.len() ==> (#[trigger] self.drives[i]).identity != (
            #[trigger] self.drives[j]).identity
        &&& forall|p: Place, q: Place|
            #[trigger] self.holds(p) && #[trigger] self.holds(q) && p != q ==> self.leaf_at(p).identity
                != self.leaf_at(q).identity
        &&& forall|p: Place, i: int|
            #[trigger] self.holds(p) && 0 <= i < self.drives.len() ==> self.leaf_at(p).identity != (
            #[trigger] self.drives[i]).identity
        &&& forall|p: Place| #[trigger]
            self.holds(p) ==> match p {
                Place::Under { drive, index } => self.leaf_at(p).declared_parent == Some(
                    self.drives[drive].identity,
                ),
                Place::Bare { index } => self.leaf_at(p).declared_parent matches Some(parent) ==> !self.has_drive(
                    parent,
                ),
            }
        &&& forall|p: Place| #[trigger] self.holds(p) ==> tidy(self.leaf_at(p).partitions, self.leaf_at(p).identity)
        &&& forall|p: Place, q: Place, id: Seq<char>|
            #[trigger] self.holds(p) && #[trigger] self.holds(q) && p != q && #[trigger] lists(
                self.leaf_at(p).partitions,
                id,
            ) ==> !lists(self.leaf_at(q).partitions, id)
    }
}

/// How the tree shows a block.
pub open spec fn leaf<H>() -> spec_fn(BlockRecord<H>) -> BlockLeaf {
    |b: BlockRecord<H>|
        BlockLeaf { identity: b.identity, declared_parent: b.declared_parent, partitions: b.partitions }
}

/// Holds of the blocks that declare `drive` as their parent.
pub open spec fn child_of<H>(drive: Seq<char>) -> spec_fn(BlockRecord<H>) -> bool {
    |b: BlockRecord<H>| b.declared_parent == Some(drive)
}

impl<H> Topology<H> {
    /// The blocks that hang under the drive named `drive`, in the order the
    /// store keeps them.
    pub open spec fn children(self, drive: Seq<char>) -> Seq<BlockLeaf> {
        self.blocks.filter(child_of(drive)).map_values(leaf())
    }

    /// How the tree shows a drive.
    pub open spec fn branch(self) -> spec_fn(DriveRecord<H>) -> DriveBranch {
        |d: DriveRecord<H>|
            DriveBranch { identity: d.identity, attributes: d.attributes, blocks: self.children(d.identity) }
    }

    /// Holds of the blocks that hang under no known drive.
    pub open spec fn unresolved(self) -> spec_fn(BlockRecord<H>) -> bool {
        |b: BlockRecord<H>| !self.resolves(b)
    }

    /// The inventory: every drive with its children, and the blocks without a
    /// known parent as roots of their own.
    pub open spec fn tree(self) -> Tree {
        Tree {
            drives: self.drives.map_values(self.branch()),
            bare: self.blocks.filter(self.unresolved()).map_values(leaf()),
        }
    }
}

/// A block as a snapshot shows it.
#[derive(Debug, PartialEq, Eq)]
pub struct BlockSubtree {
    pub identity: String,
    /// The drive the block says it belongs to, if it names one.
    pub declared_parent: Option<String>,
    /// The partitions of the table this block carries, by partition number.
    pub partitions: Vec<PartitionEntry>,
}

impl View for BlockSubtree {
    type V = BlockLeaf;

    open spec fn view(&self) -> BlockLeaf {
        BlockLeaf {
            identity: self.identity@,
            declared_parent: self.declared_parent.deep_view(),
            partitions: slots_of(self.partitions@),
        }
    }
}

impl Clone for BlockSubtree {
    fn clone(&self) -> (copy: Self)
        ensures
            copy@ == self@,
    {
        BlockSubtree {
            identity: self.identity.clone(),
            declared_parent: self.declared_parent.clone(),
            partitions: copy_entries(&self.partitions),
        }
    }
}

/// The model of one block of a snapshot.
pub open spec fn leaf_of() -> spec_fn(BlockSubtree) -> BlockLeaf {
    |b: BlockSubtree| b@
}

/// A copy of a run of blocks.
pub fn copy_blocks(blocks: &Vec<BlockSubtree>) -> (copy: Vec<BlockSubtree>)
    ensures
        copy@.map_values(leaf_of()) == blocks@.map_values(leaf_of()),
{
    let mut copy: Vec<BlockSubtree> = Vec::new();
    let mut i: usize = 0;
    while i < blocks.len()
        invariant
            i <= blocks.len(),
            copy.len() == i,
            forall|k: int| 0 <= k < i ==> (#[trigger] copy[k])@ == blocks[k]@,
        decreases blocks.len() - i,
    {
        copy.push(blocks[i].clone());
        i += 1;
    }
    assert(copy@.map_values(leaf_of()) =~= blocks@.map_values(leaf_of()));
    copy
}

/// A drive as a snapshot shows it, with the blocks that hang under it.
#[derive(Debug, PartialEq, Eq)]
pub struct DriveSubtree {
    pub identity: String,
    pub attributes: DriveAttributes,
    pub blocks: Vec<BlockSubtree>,
}

impl View for DriveSubtree {
    type V = DriveBranch;

    open spec fn view(&self) -> DriveBranch {
        DriveBranch {
            identity: self.identity@,
            attributes: self.attributes@,
            blocks: self.blocks@.map_values(leaf_of()),
        }
    }
}

impl Clone for DriveSubtree {
    fn clone(&self) -> (copy: Self)
        ensures
            copy@ == self@,
    {
        DriveSubtree {
            identity: self.identity.clone(),
            attributes: self.attributes.clone(),
            blocks: copy_blocks(&self.blocks),
        }
    }
}

/// The model of one drive of a snapshot.
pub open spec fn branch_of() -> spec_fn(DriveSubtree) -> DriveBranch {
    |d: DriveSubtree| d@
}

/// A snapshot of the inventory: a value of its own, which later changes to the
/// store do not touch.
#[derive(Debug, PartialEq, Eq)]
pub struct DeviceTree {
    pub drives: Vec<DriveSubtree>,
    /// The blocks that are roots of their own.
    pub bare: Vec<BlockSubtree>,
}

impl View for DeviceTree {
    type V = Tree;

    open spec fn view(&self) -> Tree {
        Tree { drives: self.drives@.map_values(branch_of()), bare: self.bare@.map_values(leaf_of()) }
    }
}

impl Clone for DeviceTree {
    fn clone(&self) -> (copy: Self)
        ensures
            copy@ == self@,
    {
        let mut drives: Vec<DriveSubtree> = Vec::new();
        let mut i: usize = 0;
        while i < self.drives.len()
            invariant
                i <= self.drives.len(),
                drives.len() == i,
                forall|k: int| 0 <= k < i ==> (#[trigger] drives[k])@ == self.drives[k]@,
            decreases self.drives.len() - i,
        {
            drives.push(self.drives[i].clone());
            i += 1;
        }
        assert(drives@.map_values(branch_of()) =~= self.drives@.map_values(branch_of()));
        DeviceTree { drives, bare: copy_blocks(&self.bare) }
    }
}

impl DeviceTree {
    /// The drive named `identity` with what hangs under it, if the snapshot
    /// shows such a drive: the first of that name, which in a whole tree is the
    /// only one.
    pub fn drive(&self, identity: &str) -> (found: Option<&DriveSubtree>)
        ensures
            match found {
                Some(drive) => exists|i: int|
                    0 <= i < self.drives.len() && *drive == #[trigger] self.drives[i] && drive.identity@ == identity@
                        && forall|k: int| 0 <= k < i ==> (#[trigger] self.drives[k]).identity@ != identity@,
                None => !self@.has_drive(identity@),
            },
    {
        let wanted = identity.to_owned();
        let mut i: usize = 0;
        while i < self.drives.len()
            invariant
                i <= self.drives.len(),
                wanted@ == identity@,
                forall|k: int| 0 <= k < i ==> (#[trigger] self.drives[k]).identity@ != identity@,
            decreases self.drives.len() - i,
        {
            if self.drives[i].identity == wanted {
                return Some(&self.drives[i]);
            }
            i += 1;
        }
        assert forall|k: int| 0 <= k < self@.drives.len()
            implies (#[trigger] self@.drives[k]).identity != identity@ by {
            assert(self.drives[k].identity@ != identity@);
        }
        None
    }

    /// The block named `identity`, if the snapshot shows it as a root of its
    /// own: the first of that name, which in a whole tree is the only one.
    pub fn bare_block(&self, identity: &str) -> (found: Option<&BlockSubtree>)
        ensures
            match found {
                Some(block) => exists|i: int|
                    0 <= i < self.bare.len() && *block == #[trigger] self.bare[i] && block.identity@ == identity@
                        && forall|k: int| 0 <= k < i ==> (#[trigger] self.bare[k]).identity@ != identity@,
                None => !self@.is_bare(identity@),
            },
    {
        let wanted = identity.to_owned();
        let mut i: usize = 0;
        while i < self.bare.len()
            invariant
                i <= self.bare.len(),
                wanted@ == identity@,
                forall|k: int| 0 <= k < i ==> (#[trigger] self.bare[k]).identity@ != identity@,
            decreases self.bare.len() - i,
        {
            if self.bare[i].identity == wanted {
                return Some(&self.bare[i]);
            }
            i += 1;
        }
        assert forall|k: int| #[trigger] self@.holds(Place::Bare { index: k }) implies self@.bare[k].identity
            != identity@ by {
            assert(self.bare[k].identity@ != identity@);
        }
        None
    }
}

/// Where a place of the tree comes from: the position in the store of the
/// block shown there. A block under a drive declares that drive; a bare block
/// declares no known drive.
pub proof fn lemma_place_source<H>(t: Topology<H>, p: Place) -> (at: int)
    requires
        t.tree().holds(p),
    ensures
        0 <= at < t.blocks.len(),
        t.tree().leaf_at(p) == leaf::<H>()(t.blocks[at]),
        match p {
            Place::Under { drive, index } => t.blocks[at].declared_parent == Some(t.drives[drive].identity),
            Place::Bare { index } => !t.resolves(t.blocks[at]),
        },
{
    match p {
        Place::Under { drive, index } => {
            let origin = lemma_filter_origin(t.blocks, child_of(t.drives[drive].identity));
            assert(t.tree().drives[drive].blocks == t.children(t.drives[drive].identity));
            origin[index]
        },
        Place::Bare { index } => {
            let origin = lemma_filter_origin(t.blocks, t.unresolved());
            origin[index]
        },
    }
}

/// Two places of the tree show two blocks of the store.
pub proof fn lemma_places_apart<H>(t: Topology<H>, p: Place, q: Place) -> (at: (int, int))
    requires
        t.wf(),
        t.tree().holds(p),
        t.tree().holds(q),
        p != q,
    ensures
        0 <= at.0 < t.blocks.len(),
        0 <= at.1 < t.blocks.len(),
        at.0 != at.1,
        t.tree().leaf_at(p) == leaf::<H>()(t.blocks[at.0]),
        t.tree().leaf_at(q) == leaf::<H>()(t.blocks[at.1]),
{
    match (p, q) {
        (Place::Under { drive: d1, index: k1 }, Place::Under { drive: d2, index: k2 }) => {
            assert(t.tree().drives[d1].blocks == t.children(t.drives[d1].identity));
            assert(t.tree().drives[d2].blocks == t.children(t.drives[d2].identity));
            let first = lemma_filter_origin(t.blocks, child_of(t.drives[d1].identity));
            if d1 == d2 {
                if k1 < k2 {
                    assert(first[k1] < first[k2]);
                } else {
                    assert(first[k2] < first[k1]);
                }
                (first[k1], first[k2])
            } else {
                let second = lemma_filter_origin(t.blocks, child_of(t.drives[d2].identity));
                if d1 < d2 {
                    assert(t.drives[d1].identity != t.drives[d2].identity);
                } else {
                    assert(t.drives[d2].identity != t.drives[d1].identity);
                }
                (first[k1], second[k2])
            }
        },
        (Place::Under { drive: d1, index: k1 }, Place::Bare { index: k2 }) => {
            assert(t.tree().drives[d1].blocks == t.children(t.drives[d1].identity));
            let first = lemma_filter_origin(t.blocks, child_of(t.drives[d1].identity));
            let second = lemma_filter_origin(t.blocks, t.unresolved());
            assert(t.has_drive(t.drives[d1].identity));
            assert(t.resolves(t.blocks[first[k1]]));
            (first[k1], second[k2])
        },
        (Place::Bare { index: k1 }, Place::Under { drive: d2, index: k2 }) => {
            assert(t.tree().drives[d2].blocks == t.children(t.drives[d2].identity));
            let first = lemma_filter_origin(t.blocks, t.unresolved());
            let second = lemma_filter_origin(t.blocks, child_of(t.drives[d2].identity));
            assert(t.has_drive(t.drives[d2].identity));
            assert(t.resolves(t.blocks[second[k2]]));
            (first[k1], second[k2])
        },
        (Place::Bare { index: k1 }, Place::Bare { index: k2 }) => {
            let first = lemma_filter_origin(t.blocks, t.unresolved());
            if k1 < k2 {
                assert(first[k1] < first[k2]);
            } else {
                assert(first[k2] < first[k1]);
            }
            (first[k1], first[k2])
        },
    }
}

/// The tree of a well-formed topology is whole.
pub proof fn lemma_tree_consistent<H>(t: Topology<H>)
    requires
        t.wf(),
    ensures
        t.tree().consistent(),
{
    let tree = t.tree();
    assert forall|i: int, j: int| 0 <= i < j < tree.drives.len() implies (#[trigger] tree.drives[i]).identity != (
    #[trigger] tree.drives[j]).identity by {
        assert(t.drives[i].identity != t.drives[j].identity);
    }
    assert forall|p: Place, q: Place| #[trigger] tree.holds(p) && #[trigger] tree.holds(q) && p != q
        implies tree.leaf_at(
        p,
    ).identity != tree.leaf_at(q).identity by {
        let at = lemma_places_apart(t, p, q);
        if at.0 < at.1 {
            assert(t.blocks[at.0].identity != t.blocks[at.1].identity);
        } else {
            assert(t.blocks[at.1].identity != t.blocks[at.0].identity);
        }
    }
    assert forall|p: Place, i: int| #[trigger] tree.holds(p) && 0 <= i < tree.drives.len() implies tree.leaf_at(
        p,
    ).identity != (#[trigger] tree.drives[i]).identity by {
        let at = lemma_place_source(t, p);
        assert(t.drives[i].identity != t.blocks[at].identity);
    }
    assert forall|p: Place| #[trigger] tree.holds(p) implies match p {
        Place::Under { drive, index } => tree.leaf_at(p).declared_parent == Some(tree.drives[drive].identity),
        Place::Bare { index } => tree.leaf_at(p).declared_parent matches Some(parent) ==> !tree.has_drive(parent),
    } by {
        let at = lemma_place_source(t, p);
        match p {
            Place::Under { drive, index } => {},
            Place::Bare { index } => {
                match tree.leaf_at(p).declared_parent {
                    Some(parent) => {
                        if tree.has_drive(parent) {
                            let i = choose|i: int| 0 <= i < tree.drives.len() && (#[trigger] tree.drives[i]).identity == parent;
                            assert(t.drives[i].identity == parent);
                            assert(t.has_drive(parent));
                        }
                    },
                    None => {},
                }
            },
        }
    }
    assert forall|p: Place| #[trigger] tree.holds(p)
        implies tidy(tree.leaf_at(p).partitions, tree.leaf_at(p).identity) by {
        let at = lemma_place_source(t, p);
        assert(tidy(t.blocks[at].partitions, t.blocks[at].identity));
    }
    assert forall|p: Place, q: Place, id: Seq<char>|
        #[trigger] tree.holds(p) && #[trigger] tree.holds(q) && p != q && #[trigger] lists(
            tree.leaf_at(p).partitions,
            id,
        ) implies !lists(tree.leaf_at(q).partitions, id) by {
        let at = lemma_places_apart(t, p, q);
        assert(lists(t.blocks[at.0].partitions, id));
        assert(!lists(t.blocks[at.1].partitions, id));
    }
}

/// The tree shows every drive and every block of the topology: a block whose
/// declared parent is known under that drive, every other block as a root of
/// its own.
pub proof fn lemma_tree_complete<H>(t: Topology<H>)
    ensures
        forall|id: Seq<char>| t.has_drive(id) ==> #[trigger] t.tree().has_drive(id),
        forall|j: int| 0 <= j < t.blocks.len() ==> t.tree().shows(leaf::<H>()(#[trigger] t.blocks[j])),
        forall|j: int|
            0 <= j < t.blocks.len() && t.resolves(#[trigger] t.blocks[j]) ==> t.tree().hangs_under(
                t.blocks[j].identity,
                t.blocks[j].declared_parent.unwrap(),
            ),
        forall|j: int|
            0 <= j < t.blocks.len() && !t.resolves(#[trigger] t.blocks[j]) ==> t.tree().is_bare(
                t.blocks[j].identity,
            ),
{
    let tree = t.tree();
    assert forall|id: Seq<char>| t.has_drive(id) implies #[trigger] tree.has_drive(id) by {
        let i = choose|i: int| 0 <= i < t.drives.len() && (#[trigger] t.drives[i]).identity == id;
        assert(tree.drives[i].identity == id);
    }
    assert forall|j: int| 0 <= j < t.blocks.len()
        implies tree.shows(leaf::<H>()(#[trigger] t.blocks[j])) && (t.resolves(
        t.blocks[j],
    ) ==> tree.hangs_under(t.blocks[j].identity, t.blocks[j].declared_parent.unwrap())) && (!t.resolves(t.blocks[j])
        ==> tree.is_bare(t.blocks[j].identity)) by {
        if t.resolves(t.blocks[j]) {
            let parent = t.blocks[j].declared_parent.unwrap();
            let d = choose|d: int| 0 <= d < t.drives.len() && (#[trigger] t.drives[d]).identity == parent;
            let origin = lemma_filter_origin(t.blocks, child_of(parent));
            assert(child_of::<H>(parent)(t.blocks[j]));
            let k = choose|k: int| 0 <= k < origin.len() && #[trigger] origin[k] == j;
            assert(tree.drives[d].blocks == t.children(parent));
            let p = Place::Under { drive: d, index: k };
            assert(tree.holds(p) && tree.leaf_at(p) == leaf::<H>()(t.blocks[j]));
        } else {
            let origin = lemma_filter_origin(t.blocks, t.unresolved());
            assert(t.unresolved()(t.blocks[j]));
            let k = choose|k: int| 0 <= k < origin.len() && #[trigger] origin[k] == j;
            let p = Place::Bare { index: k };
            assert(tree.holds(p) && tree.leaf_at(p) == leaf::<H>()(t.blocks[j]));
        }
    }
}

/// The tree mentions nothing that the topology does not.
pub proof fn lemma_tree_mentions<H>(t: Topology<H>, id: Seq<char>)
    requires
        t.tree().mentions(id),
    ensures
        t.mentions(id),
{
    let tree = t.tree();
    if tree.has_drive(id) {
        let i = choose|i: int| 0 <= i < tree.drives.len() && (#[trigger] tree.drives[i]).identity == id;
        assert(t.drives[i].identity == id);
    } else {
        let p = choose|p: Place| #[trigger]
            tree.holds(p) && (tree.leaf_at(p).identity == id || lists(tree.leaf_at(p).partitions, id));
        let at = lemma_place_source(t, p);
        if tree.leaf_at(p).identity == id {
            assert(t.blocks[at].identity == id);
        } else {
            assert(lists(t.blocks[at].partitions, id));
        }
    }
}

} // verus!
