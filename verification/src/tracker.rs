//! The decisions of the driver loop.
//!
//! The loop itself waits on the service and so lives outside this crate. It
//! hands each notification to [`Tracker::notify`], which says what has to be
//! asked of the service; it asks, and hands the answers back as one report,
//! which the tracker applies to the store in one step or not at all.

use vstd::prelude::*;
use crate::classifier::{
    classify, interface_set, is_partition, is_partition_table, role_of, Role, PARTITION_INTERFACE,
    PARTITION_TABLE_INTERFACE,
};
use crate::gateway::GatewayError;
use crate::model::{Attributes, Topology};
use crate::records::{slots_of, DriveAttributes, PartitionEntry};
use crate::store::TopologyStore;
use crate::tree::DeviceTree;
use crate::wellformed::{lemma_insert_block, lemma_place_partition};

verus! {

/// Why the tracker stopped.
#[derive(Clone, Copy, Debug, PartialEq, Eq, Structural)]
pub enum TrackerError {
    /// The stream of notifications ended. What the store holds can no longer
    /// be kept up to date.
    StreamEnded,
}

/// What the service says has happened to one object.
#[derive(Debug, PartialEq, Eq)]
pub enum Notification {
    /// The object `identity` advertises `interfaces`. The first enumeration
    /// reports every object this way.
    Added { identity: String, interfaces: Vec<String> },
    /// The object `identity` is gone.
    Removed { identity: String },
}

/// What the loss of `interfaces` by the object `identity` means to the
/// topology: the object is gone if it has lost the interface that gave it its
/// role, and nothing has happened to it otherwise.
pub fn lost(identity: String, interfaces: &[String]) -> (notification: Option<Notification>)
    ensures
        notification == (if role_of(interface_set(interfaces@)) == Role::Neither {
            None::<Notification>
        } else {
            Some(Notification::Removed { identity })
        }),
{
    match classify(interfaces) {
        Role::Neither => None,
        _ => Some(Notification::Removed { identity }),
    }
}

/// What has to be asked of the service about an object before it can enter
/// the store.
#[derive(Clone, Copy, Debug, PartialEq, Eq, Structural)]
pub struct Inquiry {
    /// The role of the object. For `Role::Neither` nothing is asked and nothing
    /// is reported back.
    pub role: Role,
    /// The object is a block that is a partition: ask for its table and number.
    pub partition: bool,
    /// The object is a block that carries a partition table: ask for the
    /// table's listing.
    pub table: bool,
}

/// What has to be asked about an object that advertises `interfaces`.
pub open spec fn inquiry_for(interfaces: Set<Seq<char>>) -> Inquiry {
    let role = role_of(interfaces);
    Inquiry {
        role,
        partition: role == Role::Block && interfaces.contains(PARTITION_INTERFACE@),
        table: role == Role::Block && interfaces.contains(PARTITION_TABLE_INTERFACE@),
    }
}

/// What has to be asked about an object that advertises `names`.
pub fn plan(names: &[String]) -> (inquiry: Inquiry)
    ensures
        inquiry == inquiry_for(interface_set(names@)),
{
    match classify(names) {
        Role::Block => Inquiry {
            role: Role::Block,
            partition: is_partition(names),
            table: is_partition_table(names),
        },
        role => Inquiry { role, partition: false, table: false },
    }
}

/// The failure that makes the tracker give an object up: any failure but a
/// missing property.
pub open spec fn fatal<T>(read: Result<T, GatewayError>) -> Option<GatewayError> {
    match read {
        Ok(_) => None,
        Err(GatewayError::Unavailable) => None,
        Err(error) => Some(error),
    }
}

/// What a read gave, if it gave anything.
pub open spec fn present<T>(read: Result<T, GatewayError>) -> Option<T> {
    match read {
        Ok(value) => Some(value),
        Err(_) => None,
    }
}

/// What a read of a text gave, if it gave anything.
pub open spec fn present_text(read: Result<String, GatewayError>) -> Option<Seq<char>> {
    match read {
        Ok(value) => Some(value@),
        Err(_) => None,
    }
}

/// The first of `earlier` and `later` that names a failure.
pub open spec fn or_else(earlier: Option<GatewayError>, later: Option<GatewayError>) -> Option<GatewayError> {
    if earlier.is_some() {
        earlier
    } else {
        later
    }
}

/// Settles one read: a missing property is an absent value, any other failure
/// stands.
pub fn lenient<T>(read: Result<T, GatewayError>) -> (settled: Result<Option<T>, GatewayError>)
    ensures
        match fatal(read) {
            Some(error) => settled == Err::<Option<T>, GatewayError>(error),
            None => settled == Ok::<Option<T>, GatewayError>(present(read)),
        },
{
    match read {
        Ok(value) => Ok(Some(value)),
        Err(GatewayError::Unavailable) => Ok(None),
        Err(error) => Err(error),
    }
}

/// The answers of the service about a drive, in the order in which they are
/// asked for. A question that was not asked because an earlier one failed
/// carries the earlier failure.
pub struct DriveReport<H> {
    pub handle: Result<H, GatewayError>,
    pub model: Result<String, GatewayError>,
    pub serial: Result<String, GatewayError>,
    pub removable: Result<bool, GatewayError>,
    pub media_present: Result<bool, GatewayError>,
}

impl<H> DriveReport<H> {
    /// The failure that makes the tracker give the drive up, if there is one:
    /// the first, in the order of asking, of a handle that could not be had and
    /// of a read that failed for another reason than a missing property.
    pub open spec fn failure(self) -> Option<GatewayError> {
        or_else(
            match self.handle {
                Ok(_) => None,
                Err(error) => Some(error),
            },
            or_else(
                fatal(self.model),
                or_else(fatal(self.serial), or_else(fatal(self.removable), fatal(self.media_present))),
            ),
        )
    }

    /// The attributes the report gives: what was read, with every missing
    /// property absent.
    pub open spec fn attributes(self) -> Attributes {
        Attributes {
            model: present_text(self.model),
            serial: present_text(self.serial),
            removable: present(self.removable),
            media_present: present(self.media_present),
        }
    }
}

/// Where a partition says it belongs.
#[derive(Debug, PartialEq, Eq)]
pub struct PartitionLink {
    pub table: String,
    pub number: u32,
}

/// The answers of the service about a block, in the order in which they are
/// asked for. A question that was not asked because an earlier one failed
/// carries the earlier failure; a question that the inquiry did not call for is
/// absent.
pub struct BlockReport<H> {
    pub handle: Result<H, GatewayError>,
    /// The drive the block declares as its parent. A block without one lacks
    /// the property.
    pub parent: Result<String, GatewayError>,
    /// For a partition, its table and number.
    pub partition: Option<Result<PartitionLink, GatewayError>>,
    /// For a partition table, its own listing of its partitions.
    pub listing: Option<Result<Vec<PartitionEntry>, GatewayError>>,
}

impl<H> BlockReport<H> {
    /// The failure that makes the tracker give the block up, if there is one:
    /// the first, in the order of asking, of a handle that could not be had and
    /// of a read that failed for another reason than a missing property.
    pub open spec fn failure(self) -> Option<GatewayError> {
        or_else(
            match self.handle {
                Ok(_) => None,
                Err(error) => Some(error),
            },
            or_else(
                fatal(self.parent),
                or_else(
                    match self.partition {
                        Some(read) => fatal(read),
                        None => None,
                    },
                    match self.listing {
                        Some(read) => fatal(read),
                        None => None,
                    },
                ),
            ),
        )
    }

    /// What the store holds once a report without failure about the block
    /// named `identity` is applied: the block is seen with its handle and
    /// declared parent, then placed in its table if it is a partition that names
    /// one, then given its own listing, put in order, if it carries a table that
    /// gave one.
    pub open spec fn applied(self, before: Topology<H>, identity: Seq<char>) -> Topology<H> {
        let seen = before.insert_block(identity, self.handle->Ok_0, present_text(self.parent));
        let placed = match self.partition {
            Some(Ok(link)) => seen.place_partition(identity, link.table@, link.number as nat),
            _ => seen,
        };
        match self.listing {
            Some(Ok(listing)) => placed.sync_partitions(identity, slots_of(listing@)),
            _ => placed,
        }
    }
}

/// What became of a report.
#[derive(Clone, Copy, Debug, PartialEq, Eq, Structural)]
pub enum Outcome {
    /// The object is in the store as reported.
    Applied,
    /// The object was given up for the failure named. The store is as it was.
    Abandoned(GatewayError),
    /// The tracker had stopped. The store is as it was.
    Disconnected,
}

/// What a tracker is at one moment.
pub struct TrackerState<H> {
    /// What the store holds.
    pub topology: Topology<H>,
    /// How many objects were given up because an answer could not be
    /// understood.
    pub decode_errors: nat,
    /// Whether the stream of notifications has ended.
    pub disconnected: bool,
}

impl<H> TrackerState<H> {
    /// The state after an object was given up for `error`: an answer that
    /// could not be understood is counted, as far as the counter reaches.
    pub open spec fn counting(self, error: GatewayError) -> Self {
        if error == GatewayError::DecodeError && self.decode_errors < u64::MAX {
            TrackerState { decode_errors: self.decode_errors + 1, ..self }
        } else {
            self
        }
    }

    /// The state after `event`, where `None` stands for the end of the stream.
    /// A removal is applied at once. An addition changes nothing yet. The end of
    /// the stream stops the tracker, and a stopped tracker takes no more events.
    pub open spec fn notified(self, event: Option<Notification>) -> Self {
        if self.disconnected {
            self
        } else {
            match event {
                None => TrackerState { disconnected: true, ..self },
                Some(Notification::Removed { identity }) => TrackerState {
                    topology: self.topology.remove(identity@),
                    ..self
                },
                Some(Notification::Added { identity, interfaces }) => self,
            }
        }
    }

    /// What the tracker answers to `event`: the end of the stream, now or
    /// earlier, is an error; a removal calls for nothing; an addition calls for
    /// what the advertised interfaces say.
    pub open spec fn answer(self, event: Option<Notification>) -> Result<Inquiry, TrackerError> {
        if self.disconnected {
            Err(TrackerError::StreamEnded)
        } else {
            match event {
                None => Err(TrackerError::StreamEnded),
                Some(Notification::Removed { identity }) => Ok(
                    Inquiry { role: Role::Neither, partition: false, table: false },
                ),
                Some(Notification::Added { identity, interfaces }) => Ok(inquiry_for(interface_set(interfaces@))),
            }
        }
    }

    /// The state after an event of the stream that could not be decoded: the
    /// event is dropped and counted.
    pub open spec fn garbled(self) -> Self {
        if self.disconnected {
            self
        } else {
            self.counting(GatewayError::DecodeError)
        }
    }

    /// What becomes of a report about a drive.
    pub open spec fn drive_outcome(self, report: DriveReport<H>) -> Outcome {
        if self.disconnected {
            Outcome::Disconnected
        } else {
            match report.failure() {
                Some(error) => Outcome::Abandoned(error),
                None => Outcome::Applied,
            }
        }
    }

    /// The state after a report about the drive named `identity`.
    pub open spec fn drive_reported(self, identity: Seq<char>, report: DriveReport<H>) -> Self {
        if self.disconnected {
            self
        } else {
            match report.failure() {
                Some(error) => self.counting(error),
                None => TrackerState {
                    topology: self.topology.insert_drive(identity, report.handle->Ok_0, report.attributes()),
                    ..self
                },
            }
        }
    }

    /// What becomes of a report about a block.
    pub open spec fn block_outcome(self, report: BlockReport<H>) -> Outcome {
        if self.disconnected {
            Outcome::Disconnected
        } else {
            match report.failure() {
                Some(error) => Outcome::Abandoned(error),
                None => Outcome::Applied,
            }
        }
    }

    /// The state after a report about the block named `identity`.
    pub open spec fn block_reported(self, identity: Seq<char>, report: BlockReport<H>) -> Self {
        if self.disconnected {
            self
        } else {
            match report.failure() {
                Some(error) => self.counting(error),
                None => TrackerState { topology: report.applied(self.topology, identity), ..self },
            }
        }
    }
}

/// The tracker: the store, and what the driver loop has to remember besides.
pub struct Tracker<H> {
    store: TopologyStore<H>,
    decode_errors: u64,
    disconnected: bool,
}

impl<H> View for Tracker<H> {
    type V = TrackerState<H>;

    closed spec fn view(&self) -> TrackerState<H> {
        TrackerState {
            topology: self.store@,
            decode_errors: self.decode_errors as nat,
            disconnected: self.disconnected,
        }
    }
}

impl<H> Tracker<H> {
    /// The tracker's invariant: its store is well-formed.
    pub closed spec fn wf(&self) -> bool {
        self.store.wf()
    }

    /// A well-formed tracker holds a well-formed topology.
    pub proof fn lemma_wf(&self)
        requires
            self.wf(),
        ensures
            self@.topology.wf(),
            self@.decode_errors <= u64::MAX,
    {
        self.store.lemma_wf();
    }

    /// A tracker with an empty store, ready for the first enumeration.
    pub fn new() -> (tracker: Self)
        ensures
            tracker.wf(),
            tracker@ == (TrackerState { topology: Topology::<H>::empty(), decode_errors: 0, disconnected: false }),
    {
        Tracker { store: TopologyStore::new(), decode_errors: 0, disconnected: false }
    }

    /// Gives an object up for `error`.
    fn abandon(&mut self, error: GatewayError) -> (outcome: Outcome)
        requires
            old(self).wf(),
        ensures
            final(self).wf(),
            final(self)@ == old(self)@.counting(error),
            outcome == Outcome::Abandoned(error),
    {
        match error {
            GatewayError::DecodeError => {
                if self.decode_errors < u64::MAX {
                    self.decode_errors = self.decode_errors + 1;
                }
            },
            _ => {},
        }
        Outcome::Abandoned(error)
    }

    /// Takes the next event of the stream, `None` when the stream has ended.
    /// A removal is applied to the store at once, with its cascade. For an
    /// addition the result says what has to be asked of the service; the store
    /// changes only when the answers are reported. The end of the stream is an
    /// error, and so is every event after it.
    pub fn notify(&mut self, event: Option<Notification>) -> (result: Result<Inquiry, TrackerError>)
        requires
            old(self).wf(),
        ensures
            final(self).wf(),
            final(self)@ == old(self)@.notified(event),
            result == old(self)@.answer(event),
    {
        if self.disconnected {
            return Err(TrackerError::StreamEnded);
        }
        match event {
            None => {
                self.disconnected = true;
                Err(TrackerError::StreamEnded)
            },
            Some(Notification::Removed { identity }) => {
                self.store.remove(identity.as_str());
                Ok(Inquiry { role: Role::Neither, partition: false, table: false })
            },
            Some(Notification::Added { identity, interfaces }) => Ok(plan(interfaces.as_slice())),
        }
    }

    /// Takes note of an event of the stream that could not be decoded. The
    /// event is dropped and counted; the store stays as it was, and the tracker
    /// goes on.
    pub fn drop_garbled(&mut self) -> (outcome: Outcome)
        requires
            old(self).wf(),
        ensures
            final(self).wf(),
            final(self)@ == old(self)@.garbled(),
            outcome == (if old(self)@.disconnected {
                Outcome::Disconnected
            } else {
                Outcome::Abandoned(GatewayError::DecodeError)
            }),
    {
        if self.disconnected {
            return Outcome::Disconnected;
        }
        self.abandon(GatewayError::DecodeError)
    }

    /// Takes the answers of the service about the drive named `identity`. If
    /// none of them is a failure that gives the drive up, the drive enters the
    /// store with its handle and with the attributes that were read; otherwise the
    /// store stays as it was, and an answer that could not be understood is
    /// counted.
    pub fn report_drive(&mut self, identity: String, report: DriveReport<H>) -> (outcome: Outcome)
        requires
            old(self).wf(),
        ensures
            final(self).wf(),
            final(self)@ == old(self)@.drive_reported(identity@, report),
            outcome == old(self)@.drive_outcome(report),
    {
        if self.disconnected {
            return Outcome::Disconnected;
        }
        let DriveReport { handle, model, serial, removable, media_present } = report;
        let handle = match handle {
            Ok(handle) => handle,
            Err(error) => {
                return self.abandon(error);
            },
        };
        let model = match lenient(model) {
            Ok(model) => model,
            Err(error) => {
                return self.abandon(error);
            },
        };
        let serial = match lenient(serial) {
            Ok(serial) => serial,
            Err(error) => {
                return self.abandon(error);
            },
        };
        let removable = match lenient(removable) {
            Ok(removable) => removable,
            Err(error) => {
                return self.abandon(error);
            },
        };
        let media_present = match lenient(media_present) {
            Ok(media_present) => media_present,
            Err(error) => {
                return self.abandon(error);
            },
        };
        let attributes = DriveAttributes { model, serial, removable, media_present };
        assert(attributes@ == report.attributes());
        self.store.insert_drive(identity, handle, attributes);
        Outcome::Applied
    }

    /// Takes the answers of the service about the block named `identity`. If
    /// none of them is a failure that gives the block up, the whole report is
    /// applied in one step: the block enters the store with its handle and
    /// declared parent, a block without a parent as a root of its own; a partition
    /// that names its table is placed in it; a table takes over its own listing,
    /// put in order. Otherwise the store stays as it was, and an answer that
    /// could not be understood is counted.
    pub fn report_block(&mut self, identity: String, report: BlockReport<H>) -> (outcome: Outcome)
        requires
            old(self).wf(),
        ensures
            final(self).wf(),
            final(self)@ == old(self)@.block_reported(identity@, report),
            outcome == old(self)@.block_outcome(report),
    {
        if self.disconnected {
            return Outcome::Disconnected;
        }
        let ghost before = self.store@;
        let BlockReport { handle, parent, partition, listing } = report;
        let handle = match handle {
            Ok(handle) => handle,
            Err(error) => {
                return self.abandon(error);
            },
        };
        let parent = match lenient(parent) {
            Ok(parent) => parent,
            Err(error) => {
                return self.abandon(error);
            },
        };
        let partition = match partition {
            Some(read) => match lenient(read) {
                Ok(link) => link,
                Err(error) => {
                    return self.abandon(error);
                },
            },
            None => None,
        };
        let listing = match listing {
            Some(read) => match lenient(read) {
                Ok(listing) => listing,
                Err(error) => {
                    return self.abandon(error);
                },
            },
            None => None,
        };
        assert(report.failure().is_none());
        proof {
            self.store.lemma_wf();
            lemma_insert_block(before, identity@, handle, parent.deep_view());
        }
        let name = identity.clone();
        self.store.insert_block(identity, handle, parent);
        let ghost seen = self.store@;
        match partition {
            Some(link) => {
                proof {
                    lemma_place_partition(seen, name@, link.table@, link.number as nat);
                }
                self.store.place_partition(name.clone(), link.table.as_str(), link.number);
            },
            None => {},
        }
        match listing {
            Some(entries) => {
                self.store.sync_partitions(name.as_str(), entries);
            },
            None => {},
        }
        Outcome::Applied
    }

    /// The inventory as it stands; see [`TopologyStore::snapshot`]. It never
    /// asks the service anything.
    pub fn snapshot(&self) -> (tree: DeviceTree)
        requires
            self.wf(),
        ensures
            tree@ == self@.topology.tree(),
            tree@.consistent(),
    {
        self.store.snapshot()
    }

    /// The store, for reading.
    pub fn store(&self) -> (store: &TopologyStore<H>)
        requires
            self.wf(),
        ensures
            store.wf(),
            store@ == self@.topology,
    {
        &self.store
    }

    /// How many objects were given up because an answer could not be
    /// understood.
    pub fn decode_errors(&self) -> (count: u64)
        ensures
            count == self@.decode_errors,
    {
        self.decode_errors
    }

    /// Whether the stream of notifications has ended.
    pub fn is_disconnected(&self) -> (disconnected: bool)
        ensures
            disconnected == self@.disconnected,
    {
        self.disconnected
    }
}

} // verus!
