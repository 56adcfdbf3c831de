//! Events: what happened to one entity, and what that builds on.

use ankurah::proto::{EventId as ProtoEventId, Operation, OperationSet};
use vstd::prelude::*;

use crate::ids::{id_views, Clock, CollectionId, EntityId, EventId};

verus! {

/// The operations of one backend in one event, as the backend encoded them.
#[derive(Debug, PartialEq, Eq)]
pub struct Operations {
    pub backend: String,
    pub diffs: Vec<Vec<u8>>,
}

/// The contents of a list of byte strings.
pub open spec fn byte_strings(list: Seq<Vec<u8>>) -> Seq<Seq<u8>> {
    Seq::new(list.len(), |i: int| list[i]@)
}

impl View for Operations {
    type V = (Seq<char>, Seq<Seq<u8>>);

    open spec fn view(&self) -> (Seq<char>, Seq<Seq<u8>>) {
        (self.backend@, byte_strings(self.diffs@))
    }
}

/// The contents of a list of operations.
pub open spec fn operation_views(list: Seq<Operations>) -> Seq<(Seq<char>, Seq<Seq<u8>>)> {
    Seq::new(list.len(), |i: int| list[i]@)
}

/// No backend is listed twice.
pub open spec fn backends_once(operations: Seq<(Seq<char>, Seq<Seq<u8>>)>) -> bool {
    forall|i: int, j: int|
        0 <= i < j < operations.len() ==> (#[trigger] operations[i]).0 != (
        #[trigger] operations[j]).0
}

/// One event. The operations are listed by backend, each backend once.
#[derive(Debug, PartialEq, Eq)]
pub struct Event {
    pub collection: CollectionId,
    pub entity_id: EntityId,
    pub operations: Vec<Operations>,
    /// The events this one builds on.
    pub parent: Clock,
}

/// An event together with the number of attestations it carries.
#[derive(Debug, PartialEq, Eq)]
pub struct Attested {
    pub payload: Event,
    pub attestations: usize,
}

/// The content hash of an event's parts.
pub uninterp spec fn event_hash(
    entity: Seq<u8>,
    operations: Seq<(Seq<char>, Seq<Seq<u8>>)>,
    parent: Seq<Seq<u8>>,
) -> Seq<u8>;

/// Calls `ankurah::proto::EventId::from_parts`: the SHA-256 hash of the encoded
/// entity id, operations and parent clock, which is a function of these alone.
#[verifier::external_body]
fn hash_parts(entity: [u8; 16], operations: &Vec<Operations>, parents: &Vec<EventId>) -> (hash: [u8; 32])
    ensures
        hash@ == event_hash(entity@, operation_views(operations@), id_views(parents@)),
{
    let operations = operations
        .iter()
        .map(|o| (o.backend.clone(), o.diffs.iter().map(|d| Operation { diff: d.clone() }).collect()))
        .collect();
    let parents: Vec<ProtoEventId> = parents.iter().map(|p| ProtoEventId::from_bytes(p.bytes)).collect();
    let entity = ankurah::proto::EntityId::from_bytes(entity);
    let clock = ankurah::proto::Clock::new(parents);
    ProtoEventId::from_parts(&entity, &OperationSet(operations), &clock).to_bytes()
}

impl Event {
    /// No backend is listed twice. Whoever makes an event sees to it: an event comes
    /// with its operations by backend.
    pub open spec fn well_formed(self) -> bool {
        backends_once(operation_views(self.operations@))
    }

    /// The id the event's content gives it.
    pub open spec fn content_id(self) -> Seq<u8> {
        event_hash(self.entity_id@, operation_views(self.operations@), self.parent@)
    }

    /// The event's id: the hash of its content.
    pub fn id(&self) -> (id: EventId)
        ensures
            id@ == self.content_id(),
    {
        EventId { bytes: hash_parts(self.entity_id.bytes, &self.operations, &self.parent.to_vec()) }
    }
}

} // verus!
