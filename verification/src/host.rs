//! The application boundary: what the panel learns from the application that
//! mounts it, and how an application installs itself.

use std::sync::Arc;

use ankurah::entity::Entity;
use vstd::prelude::*;

use crate::ids::{Clock, EventId};
use crate::text::texts;

verus! {

// ---------------------------------------------------------------------------
// What the panel learns
// ---------------------------------------------------------------------------

/// What the panel learns about one entity from the application that owns it.
#[derive(Clone, Debug, PartialEq)]
pub struct Resolved {
    /// The entity's authoritative in-memory head, when the application has it
    /// loaded. `None` falls back to the head recorded in local storage.
    pub head: Option<Clock>,
    /// Property and rendered value, for the "Current values" card.
    pub values: Vec<(String, String)>,
    /// For each event, the LWW properties whose current value it wrote. Each event
    /// is listed once.
    pub wrote_current: Vec<(EventId, Vec<String>)>,
    /// A deliberate refusal to show this entity's history, with the reason to
    /// display. Not an error.
    pub refusal: Option<String>,
}

impl Resolved {
    /// What every answer keeps: no event is listed twice.
    pub open spec fn well_formed(self) -> bool {
        listed_once(self.wrote_current@)
    }
}

impl Default for Resolved {
    fn default() -> (resolved: Resolved)
        ensures
            resolved.head is None,
            resolved.values@.len() == 0,
            resolved.wrote_current@.len() == 0,
            resolved.refusal is None,
            resolved.well_formed(),
    {
        Resolved { head: None, values: Vec::new(), wrote_current: Vec::new(), refusal: None }
    }
}

/// Node facts for the panel's "This node" card. `None` means that the application
/// has nothing to say, and renders as nothing.
#[derive(Clone, Debug, PartialEq)]
pub struct NodeStatus {
    /// Durable nodes keep storage authoritatively.
    pub durable: Option<bool>,
    /// Whether the policy agent finished its initial sync.
    pub policy_ready: Option<bool>,
    /// Whether the node has joined the system catalog.
    pub system_ready: Option<bool>,
    /// Short form of the system root's head, when there is a root.
    pub system_root_head: Option<String>,
}

impl Default for NodeStatus {
    fn default() -> (status: NodeStatus)
        ensures
            status.durable is None,
            status.policy_ready is None,
            status.system_ready is None,
            status.system_root_head is None,
    {
        NodeStatus { durable: None, policy_ready: None, system_ready: None, system_root_head: None }
    }
}

// ---------------------------------------------------------------------------
// Provenance
// ---------------------------------------------------------------------------

#[verifier::external_type_specification]
#[verifier::external_body]
pub struct ExEntity(Entity);

#[verifier::external_type_specification]
#[verifier::external_body]
pub struct ExLWWBackend(ankurah::core::property::backend::LWWBackend);

/// Calls `ankurah::entity::Entity::get_backend` for the LWW backend, creating an
/// empty one where the entity has none. An entity changes as events are applied to
/// it, so nothing is claimed of the answer. The call takes the entity's lock, and
/// like any user of that lock it panics once another thread has panicked under it.
#[verifier::external_body]
fn lww_backend(entity: &Entity) -> (backend: Option<Arc<ankurah::core::property::backend::LWWBackend>>) {
    entity.get_backend::<ankurah::core::property::backend::LWWBackend>().ok()
}

/// Calls `LWWBackend::get_event_id`: the event that last wrote the property, if
/// the backend knows one. A backend changes as operations are applied to it, so
/// nothing is claimed of the answer. The call takes the backend's lock, and like any
/// user of that lock it panics once another thread has panicked under it.
#[verifier::external_body]
fn last_writer(backend: &Arc<ankurah::core::property::backend::LWWBackend>, prop: &str) -> (writer: Option<EventId>) {
    backend.get_event_id(&prop.to_string()).map(|id| EventId { bytes: id.to_bytes() })
}

/// The contents of a list of text slices.
pub open spec fn slices(list: Seq<&str>) -> Seq<Seq<char>> {
    Seq::new(list.len(), |i: int| list[i]@)
}

/// The ids of a list of writers, each of which may be unknown.
pub open spec fn writer_views(list: Seq<Option<EventId>>) -> Seq<Option<Seq<u8>>> {
    Seq::new(
        list.len(),
        |i: int|
            match list[i] {
                Some(id) => Some(id@),
                None => None,
            },
    )
}

/// The properties that the event wrote, in the order in which they are listed.
pub open spec fn written_by(
    props: Seq<Seq<char>>,
    writers: Seq<Option<Seq<u8>>>,
    event: Seq<u8>,
) -> Seq<Seq<char>>
    decreases props.len(),
{
    if props.len() == 0 {
        Seq::empty()
    } else {
        let before = written_by(props.drop_last(), writers, event);
        if writers[props.len() - 1] == Some(event) {
            before.push(props.last())
        } else {
            before
        }
    }
}

/// No event is listed twice.
pub open spec fn listed_once(map: Seq<(EventId, Vec<String>)>) -> bool {
    forall|i: int, j: int|
        0 <= i < j < map.len() ==> (#[trigger] map[i]).0@ != (#[trigger] map[j]).0@
}

/// `map` lists, for each event that wrote one of the properties and for no other,
/// exactly the properties that it wrote. No event is listed twice.
pub open spec fn is_provenance(
    map: Seq<(EventId, Vec<String>)>,
    props: Seq<Seq<char>>,
    writers: Seq<Option<Seq<u8>>>,
) -> bool {
    &&& listed_once(map)
    &&& forall|i: int|
        0 <= i < map.len() ==> texts((#[trigger] map[i]).1@) == written_by(
            props,
            writers,
            map[i].0@,
        ) && map[i].1@.len() > 0
    &&& forall|event: Seq<u8>|
        #[trigger] written_by(props, writers, event).len() > 0 ==> is_listed(map, event)
}

/// `map` has an entry for the event.
pub open spec fn is_listed(map: Seq<(EventId, Vec<String>)>, event: Seq<u8>) -> bool {
    exists|i: int| 0 <= i < map.len() && (#[trigger] map[i]).0@ == event
}

/// Group properties by the event that wrote each of them.
pub fn provenance(props: &[&str], writers: &Vec<Option<EventId>>) -> (map: Vec<
    (EventId, Vec<String>),
>)
    requires
        props@.len() == writers@.len(),
    ensures
        is_provenance(map@, slices(props@), writer_views(writers@)),
{
    let ghost names = slices(props@);
    let ghost ids = writer_views(writers@);
    let mut map: Vec<(EventId, Vec<String>)> = Vec::new();
    let mut i: usize = 0;
    assert(names.take(0) =~= Seq::<Seq<char>>::empty());
    while i < props.len()
        invariant
            i <= props@.len(),
            props@.len() == writers@.len(),
            names == slices(props@),
            ids == writer_views(writers@),
            is_provenance(map@, names.take(i as int), ids),
        decreases props@.len() - i,
    {
        let ghost taken = names.take(i as int);
        let ghost longer = names.take(i + 1);
        proof {
            assert(longer.drop_last() =~= taken);
            assert(longer.last() == props@[i as int]@);
        }
        if let Some(event) = writers[i] {
            add_property(&mut map, event, props[i], Ghost(taken), Ghost(ids));
            assert(taken.push(props@[i as int]@) =~= longer);
        } else {
            assert forall|e: Seq<u8>| #[trigger] written_by(longer, ids, e) == written_by(
                taken,
                ids,
                e,
            ) by {}
            assert forall|e: Seq<u8>| #[trigger]
                written_by(longer, ids, e).len() > 0 implies is_listed(map@, e) by {
                assert(written_by(taken, ids, e).len() > 0);
            }
        }
        i += 1;
    }
    assert(names.take(i as int) =~= names);
    map
}

/// Enter one more property under the event that wrote it.
fn add_property(
    map: &mut Vec<(EventId, Vec<String>)>,
    event: EventId,
    prop: &str,
    Ghost(taken): Ghost<Seq<Seq<char>>>,
    Ghost(ids): Ghost<Seq<Option<Seq<u8>>>>,
)
    requires
        is_provenance(old(map)@, taken, ids),
        taken.len() < ids.len(),
        ids[taken.len() as int] == Some(event@),
    ensures
        is_provenance(final(map)@, taken.push(prop@), ids),
{
    let ghost before = map@;
    let ghost longer = taken.push(prop@);
    proof {
        assert(longer.drop_last() =~= taken);
        assert forall|e: Seq<u8>| #[trigger]
            written_by(longer, ids, e) == if e == event@ {
                written_by(taken, ids, e).push(prop@)
            } else {
                written_by(taken, ids, e)
            } by {}
    }
    let mut k: usize = 0;
    while k < map.len()
        invariant
            k <= map.len(),
            map@ == before,
            is_provenance(before, taken, ids),
            longer == taken.push(prop@),
            forall|j: int| 0 <= j < k ==> (#[trigger] before[j]).0@ != event@,
            forall|e: Seq<u8>| #[trigger]
                written_by(longer, ids, e) == if e == event@ {
                    written_by(taken, ids, e).push(prop@)
                } else {
                    written_by(taken, ids, e)
                },
        decreases map.len() - k,
    {
        if map[k].0.same(&event) {
            let ghost list = map@[k as int].1@;
            map[k].1.push(prop.to_owned());
            proof {
                let now = map@;
                assert(now[k as int].0 == before[k as int].0);
                assert(now[k as int].1@ =~= list.push(now[k as int].1@.last()));
                assert(texts(now[k as int].1@) =~= texts(list).push(prop@));
                assert(forall|j: int| 0 <= j < now.len() && j != k ==> now[j] == before[j]);
                assert forall|i: int, j: int| 0 <= i < j < now.len() implies (
                #[trigger] now[i]).0@ != (#[trigger] now[j]).0@ by {
                    assert(now[i].0 == before[i].0);
                    assert(now[j].0 == before[j].0);
                }
                assert forall|j: int| 0 <= j < now.len() implies texts((#[trigger] now[j]).1@)
                    == written_by(longer, ids, now[j].0@) && now[j].1@.len() > 0 by {
                    if j != k {
                        assert(now[j] == before[j]);
                        assert(before[j].0@ != before[k as int].0@);
                    }
                }
                assert forall|e: Seq<u8>| #[trigger]
                    written_by(longer, ids, e).len() > 0 implies is_listed(now, e) by {
                    if e == event@ {
                        assert(now[k as int].0@ == e);
                    } else {
                        assert(written_by(taken, ids, e).len() > 0);
                        let j = choose|j: int| 0 <= j < before.len() && (#[trigger] before[j]).0@
                            == e;
                        assert(now[j].0@ == e);
                    }
                }
            }
            return;
        }
        k += 1;
    }
    let mut list: Vec<String> = Vec::new();
    list.push(prop.to_owned());
    map.push((event, list));
    proof {
        let now = map@;
        assert(written_by(taken, ids, event@).len() == 0) by {
            if written_by(taken, ids, event@).len() > 0 {
                assert(is_listed(before, event@));
            }
        }
        assert(texts(now.last().1@) =~= written_by(longer, ids, event@));
        assert forall|j: int| 0 <= j < now.len() implies texts((#[trigger] now[j]).1@)
            == written_by(longer, ids, now[j].0@) && now[j].1@.len() > 0 by {
            if j < before.len() {
                assert(now[j] == before[j]);
            }
        }
        assert forall|e: Seq<u8>| #[trigger]
            written_by(longer, ids, e).len() > 0 implies is_listed(now, e) by {
            if e == event@ {
                assert(now[before.len() as int].0@ == e);
            } else {
                assert(written_by(taken, ids, e).len() > 0);
                let j = choose|j: int| 0 <= j < before.len() && (#[trigger] before[j]).0@ == e;
                assert(now[j].0@ == e);
            }
        }
    }
}

/// `backend` is an answer of the entity when it is asked for its LWW backend.
pub closed spec fn gives_backend(
    entity: &Entity,
    backend: Option<Arc<ankurah::core::property::backend::LWWBackend>>,
) -> bool {
    call_ensures(lww_backend, (entity,), backend)
}

/// `writer` is an answer of the backend when it is asked which event last wrote the
/// property.
pub closed spec fn names_writer(
    backend: Arc<ankurah::core::property::backend::LWWBackend>,
    prop: &str,
    writer: Option<EventId>,
) -> bool {
    call_ensures(last_writer, (&backend, prop), writer)
}

/// What the two stand for: an answer is what the call came back with.
proof fn lemma_answers(
    entity: &Entity,
    given: Option<Arc<ankurah::core::property::backend::LWWBackend>>,
    backend: Arc<ankurah::core::property::backend::LWWBackend>,
    prop: &str,
    writer: Option<EventId>,
)
    ensures
        gives_backend(entity, given) ==> call_ensures(lww_backend, (entity,), given),
        names_writer(backend, prop, writer) ==> call_ensures(last_writer, (&backend, prop), writer),
{
}

/// Ask for the writer of each of the properties.
fn read_writers(entity: &Entity, props: &[&str]) -> (writers: Vec<Option<EventId>>)
    ensures
        writers.len() == props@.len(),
        exists|backend: Option<Arc<ankurah::core::property::backend::LWWBackend>>|
            call_ensures(lww_backend, (entity,), backend) && forall|i: int|
                0 <= i < writers@.len() ==> match backend {
                    Some(backend) => call_ensures(
                        last_writer,
                        (&backend, props@[i]),
                        #[trigger] writers@[i],
                    ),
                    None => writers@[i] is None,
                },
{
    let mut writers: Vec<Option<EventId>> = Vec::new();
    let backend = lww_backend(entity);
    let mut i: usize = 0;
    while i < props.len()
        invariant
            i <= props@.len(),
            writers@.len() == i,
            call_ensures(lww_backend, (entity,), backend),
            forall|j: int|
                0 <= j < i ==> match backend {
                    Some(backend) => call_ensures(
                        last_writer,
                        (&backend, props@[j]),
                        #[trigger] writers@[j],
                    ),
                    None => writers@[j] is None,
                },
        decreases props@.len() - i,
    {
        match &backend {
            Some(backend) => writers.push(last_writer(backend, props[i])),
            None => writers.push(None),
        }
        i += 1;
    }
    writers
}

/// For each named LWW property of an entity, which event wrote the value standing
/// today, grouped by event. A property that no event is known to have written is
/// left out.
///
/// An entity and its backend change as events are applied, so what they answer is no
/// function of the two: the contract speaks of the answers that they gave, one to each
/// property.
pub fn lww_provenance(entity: &Entity, props: &[&str]) -> (map: Vec<(EventId, Vec<String>)>)
    ensures
        exists|writers: Seq<Option<Seq<u8>>>|
            writers.len() == props@.len() && is_provenance(map@, slices(props@), writers),
        exists|
            backend: Option<Arc<ankurah::core::property::backend::LWWBackend>>,
            answers: Seq<Option<EventId>>,
        |
            {
                &&& #[trigger] gives_backend(entity, backend)
                &&& answers.len() == props@.len()
                &&& forall|i: int|
                    0 <= i < answers.len() ==> match backend {
                        Some(backend) => names_writer(backend, props@[i], #[trigger] answers[i]),
                        None => answers[i] is None,
                    }
                &&& #[trigger] is_provenance(map@, slices(props@), writer_views(answers))
            },
{
    let writers = read_writers(entity, props);
    let map = provenance(props, &writers);
    proof {
        let backend = choose|backend: Option<Arc<ankurah::core::property::backend::LWWBackend>>|
            call_ensures(lww_backend, (entity,), backend) && forall|i: int|
                0 <= i < writers@.len() ==> match backend {
                    Some(backend) => call_ensures(
                        last_writer,
                        (&backend, props@[i]),
                        #[trigger] writers@[i],
                    ),
                    None => writers@[i] is None,
                };
        let answers = writers@;
        assert(writer_views(answers).len() == props@.len());
        assert(gives_backend(entity, backend) && is_provenance(
            map@,
            slices(props@),
            writer_views(answers),
        ));
        assert forall|i: int| 0 <= i < answers.len() implies match backend {
            Some(backend) => names_writer(backend, props@[i], #[trigger] answers[i]),
            None => answers[i] is None,
        } by {}
    }
    map
}

// ---------------------------------------------------------------------------
// Installation
// ---------------------------------------------------------------------------

/// An installation already exists.
///
/// There is one panel, so the first installation wins and every later one is
/// rejected whole: nothing is replaced or merged.
#[derive(Debug, Clone, Copy, PartialEq, Eq, Structural)]
pub struct InstallError;

impl InstallError {
    /// The error in words.
    pub fn message(&self) -> (text: String)
        ensures
            text@
                == "ankurah_xray: an x-ray installation already exists (process-global singleton; the first call wins)"@,
    {
        "ankurah_xray: an x-ray installation already exists (process-global singleton; the first call wins)".to_owned()
    }
}

/// An application that the panel reads: its host, and the connection state with
/// its endpoint, if it reports one.
pub struct Installed<H, C> {
    pub host: H,
    pub connection: Option<(C, String)>,
}

/// The application's x-ray installation: its host and the optional connection
/// state.
pub struct XRay<H, C> {
    host: H,
    connection: Option<(C, String)>,
}

/// What the panel reads after an application tried to install itself.
pub open spec fn installed_after<H, C>(
    slot: Option<Installed<H, C>>,
    xray: XRay<H, C>,
) -> Option<Installed<H, C>> {
    if slot is None {
        Some(Installed { host: xray.spec_host(), connection: xray.spec_connection() })
    } else {
        slot
    }
}

/// The first installation wins: whatever is installed later, the panel goes on
/// reading the first one.
pub proof fn law_the_first_installation_wins<H, C>(
    slot: Option<Installed<H, C>>,
    first: XRay<H, C>,
    second: XRay<H, C>,
)
    ensures
        installed_after(installed_after(slot, first), second) == installed_after(slot, first),
        installed_after(slot, first) is Some,
{
}

impl<H, C> XRay<H, C> {
    /// The host of this installation.
    pub closed spec fn spec_host(self) -> H {
        self.host
    }

    /// The connection state of this installation, and its endpoint.
    pub closed spec fn spec_connection(self) -> Option<(C, String)> {
        self.connection
    }

    /// An installation without a connection state.
    pub fn new(host: H) -> (xray: XRay<H, C>)
        ensures
            xray.spec_host() == host,
            xray.spec_connection() is None,
    {
        XRay { host, connection: None }
    }

    /// Feed the connection card from a reactive state.
    pub fn connection(self, state: C, endpoint: String) -> (xray: XRay<H, C>)
        ensures
            xray.spec_host() == self.spec_host(),
            xray.spec_connection() == Some((state, endpoint)),
    {
        XRay { host: self.host, connection: Some((state, endpoint)) }
    }

    /// Publish this installation to the panel, or report that one already exists.
    #[must_use]
    pub fn install(self, slot: &mut Option<Installed<H, C>>) -> (result: Result<(), InstallError>)
        ensures
            *final(slot) == installed_after(*old(slot), self),
            result == if *old(slot) is None {
                Ok::<(), InstallError>(())
            } else {
                Err(InstallError)
            },
    {
        if slot.is_some() {
            return Err(InstallError);
        }
        *slot = Some(Installed { host: self.host, connection: self.connection });
        Ok(())
    }
}

/// Whether an application has installed itself yet.
pub fn is_installed<H, C>(slot: &Option<Installed<H, C>>) -> (yes: bool)
    ensures
        yes == (*slot is Some),
{
    slot.is_some()
}

/// The installed connection state and its endpoint, if there is one. Tolerates
/// nothing being installed at all.
pub fn connection<H, C>(slot: &Option<Installed<H, C>>) -> (connection: Option<&(C, String)>)
    ensures
        match *slot {
            Some(installed) => match installed.connection {
                Some(pair) => connection == Some(&pair),
                None => connection is None,
            },
            None => connection is None,
        },
{
    match slot {
        Some(installed) => match &installed.connection {
            Some(pair) => Some(pair),
            None => None,
        },
        None => None,
    }
}

} // verus!
