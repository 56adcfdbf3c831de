//! The walk over one entity's event history: everything stored locally first, then
//! backwards over the missing ancestors, one request each.
//!
//! The walk is a chain of requests that somebody else carries out. Each reply comes
//! back together with whether the walk is still the one the drawer listens to; the
//! answer is the next [`Step`]. A walk that nobody listens to any more stops at its
//! next step and shows nothing.

use std::collections::VecDeque;

use vstd::prelude::*;

use crate::dag::{by_id, is_picture, layout, DagModel, DagNodeInput};
use crate::decode::{badge_views, badges_of, op_badges};
use crate::event::{operation_views, Attested, Event};
use crate::host::Resolved;
use crate::ids::{ascending, has_id, id_views, Clock, EventId};
use crate::text::texts;
use crate::walk_laws::{
    lemma_answered, lemma_counted, lemma_gathered, lemma_planned, lemma_push_has,
};

verus! {

// ---------------------------------------------------------------------------
// Types
// ---------------------------------------------------------------------------

/// Nothing more is fetched once this many events are known. What is stored locally is
/// shown whole, however much it is.
pub const FETCH_CAP: usize = 500;

/// A history, ready to be shown.
#[derive(Clone, Debug, PartialEq)]
pub struct History {
    pub dag: DagModel,
    pub head: Clock,
    pub total: usize,
    pub local: usize,
    pub fetched: usize,
    /// Ids that could not be retrieved (offline, refused, or past the cap).
    pub unresolved: usize,
    /// The entity's current property values.
    pub current_state: Vec<(String, String)>,
}

/// What the drawer shows.
#[derive(Clone, Debug, PartialEq)]
pub enum Phase {
    Loading,
    /// The application declined to show this entity's history, with a reason.
    Refused(String),
    Failed(String),
    Ready(History),
}

/// An event the walk knows, under the id by which it was found.
#[derive(Debug, PartialEq)]
struct Rec {
    key: EventId,
    event: Event,
    attestations: Option<usize>,
    fetched: bool,
}

/// What a walk has gathered.
#[derive(Debug, PartialEq)]
struct Trail {
    wrote_current: Vec<(EventId, Vec<String>)>,
    values: Vec<(String, String)>,
    head: Option<Clock>,
    known: Vec<Rec>,
    local: usize,
    seen: Vec<EventId>,
    frontier: VecDeque<EventId>,
    fetched_ids: Vec<EventId>,
    unresolved: usize,
}

/// A walk under way.
#[derive(Debug, PartialEq)]
pub struct Walk {
    trail: Trail,
}

/// What to do next.
#[derive(Debug, PartialEq)]
pub enum Step {
    /// Open the entity's collection.
    OpenCollection(Walk),
    /// List every event of the entity that is stored locally.
    DumpLocal(Walk),
    /// Read the head that is stored locally.
    ReadHead(Walk),
    /// Fetch one event through the host.
    Fetch(Walk, EventId),
    /// Read the fetched events back, with their attestations.
    ReadBack(Walk, Vec<EventId>),
    /// Show this.
    Done(Phase),
    /// Show nothing: nobody listens to this walk any more.
    Stranded,
}

// ---------------------------------------------------------------------------
// Model
// ---------------------------------------------------------------------------

/// An event the walk knows, as its contracts speak of it.
pub struct RecModel {
    pub key: Seq<u8>,
    pub event: Event,
    /// `None` where the event came without its attestations.
    pub attestations: Option<nat>,
    pub fetched: bool,
}

impl View for Rec {
    type V = RecModel;

    closed spec fn view(&self) -> RecModel {
        RecModel {
            key: self.key@,
            event: self.event,
            attestations: match self.attestations {
                Some(n) => Some(n as nat),
                None => None,
            },
            fetched: self.fetched,
        }
    }
}

spec fn rec_views(list: Seq<Rec>) -> Seq<RecModel> {
    Seq::new(list.len(), |i: int| list[i]@)
}

/// A walk, as its contracts speak of it.
#[verifier::ext_equal]
pub struct WalkModel {
    /// For each event, the properties whose current value it wrote.
    pub wrote_current: Vec<(EventId, Vec<String>)>,
    /// The entity's current property values.
    pub values: Vec<(String, String)>,
    /// The entity's head, if one is known.
    pub head: Option<Seq<Seq<u8>>>,
    /// The events found so far: first those stored locally, then the fetched ones.
    pub known: Seq<RecModel>,
    /// How many of them were stored locally.
    pub local: nat,
    /// Every id the walk has come across.
    pub seen: Seq<Seq<u8>>,
    /// The ids still to be fetched, in order.
    pub frontier: Seq<Seq<u8>>,
    /// The ids fetched.
    pub fetched_ids: Seq<Seq<u8>>,
    /// How many ids could not be fetched.
    pub unresolved: nat,
}

/// A head that may not be known.
pub open spec fn head_view(head: Option<Clock>) -> Option<Seq<Seq<u8>>> {
    match head {
        Some(clock) => Some(clock@),
        None => None,
    }
}

impl View for Trail {
    type V = WalkModel;

    closed spec fn view(&self) -> WalkModel {
        WalkModel {
            wrote_current: self.wrote_current,
            values: self.values,
            head: head_view(self.head),
            known: rec_views(self.known@),
            local: self.local as nat,
            seen: id_views(self.seen@),
            frontier: id_views(self.frontier@),
            fetched_ids: id_views(self.fetched_ids@),
            unresolved: self.unresolved as nat,
        }
    }
}

impl View for Walk {
    type V = WalkModel;

    closed spec fn view(&self) -> WalkModel {
        self.trail@
    }
}

/// The ids under which the events are known.
pub open spec fn keys(known: Seq<RecModel>) -> Seq<Seq<u8>> {
    Seq::new(known.len(), |i: int| known[i].key)
}

/// What every walk keeps.
///
/// No event is known twice; an id the walk has come across is known, or still to
/// be fetched, or could not be fetched, and only one of these; and the events are
/// listed with the stored ones first.
pub open spec fn well_formed(w: WalkModel) -> bool {
    &&& keys(w.known).no_duplicates()
    &&& w.seen.no_duplicates()
    &&& w.frontier.no_duplicates()
    &&& forall|id: Seq<u8>| #[trigger] keys(w.known).contains(id) ==> w.seen.contains(id)
    &&& forall|id: Seq<u8>| #[trigger]
        w.frontier.contains(id) ==> w.seen.contains(id) && !keys(w.known).contains(id)
    &&& w.seen.len() == w.known.len() + w.unresolved + w.frontier.len()
    &&& w.local <= w.known.len()
    &&& forall|i: int|
        0 <= i < w.known.len() ==> (#[trigger] w.known[i]).fetched == (i >= w.local)
    &&& w.fetched_ids == keys(w.known).skip(w.local as int)
}

impl Walk {
    /// What every walk keeps.
    #[verifier::type_invariant]
    pub open spec fn consistent(self) -> bool {
        well_formed(self@)
    }
}

/// The walk as it starts, with what the application says of the entity.
pub open spec fn begun(resolved: Resolved) -> WalkModel {
    WalkModel {
        wrote_current: resolved.wrote_current,
        values: resolved.values,
        head: head_view(resolved.head),
        known: Seq::empty(),
        local: 0,
        seen: Seq::empty(),
        frontier: Seq::empty(),
        fetched_ids: Seq::empty(),
        unresolved: 0,
    }
}

/// The events with `rec` entered under its id, in place of what was known there.
pub open spec fn put(known: Seq<RecModel>, rec: RecModel) -> Seq<RecModel> {
    if keys(known).contains(rec.key) {
        Seq::new(
            known.len(),
            |i: int|
                if known[i].key == rec.key {
                    rec
                } else {
                    known[i]
                },
        )
    } else {
        known.push(rec)
    }
}

/// A stored event, under the id that its content gives it.
pub open spec fn local_rec(attested: Attested) -> RecModel {
    RecModel {
        key: attested.payload.content_id(),
        event: attested.payload,
        attestations: Some(attested.attestations as nat),
        fetched: false,
    }
}

/// The stored events, each once.
pub open spec fn gathered(events: Seq<Attested>) -> Seq<RecModel>
    decreases events.len(),
{
    if events.len() == 0 {
        Seq::empty()
    } else {
        put(gathered(events.drop_last()), local_rec(events.last()))
    }
}

/// The walk once the stored events are listed.
pub open spec fn stocked(w: WalkModel, events: Seq<Attested>) -> WalkModel {
    WalkModel {
        known: gathered(events),
        local: gathered(events).len(),
        seen: keys(gathered(events)),
        frontier: Seq::empty(),
        fetched_ids: Seq::empty(),
        unresolved: 0,
        ..w
    }
}

/// What was seen and what is to be fetched, with `ids` queued unless they were
/// seen before.
pub open spec fn enqueued(queue: (Seq<Seq<u8>>, Seq<Seq<u8>>), ids: Seq<Seq<u8>>) -> (
    Seq<Seq<u8>>,
    Seq<Seq<u8>>,
)
    decreases ids.len(),
{
    if ids.len() == 0 {
        queue
    } else {
        let (seen, frontier) = enqueued(queue, ids.drop_last());
        if seen.contains(ids.last()) {
            (seen, frontier)
        } else {
            (seen.push(ids.last()), frontier.push(ids.last()))
        }
    }
}

/// As [`enqueued`], with the parents of every known event.
pub open spec fn enqueued_parents(
    queue: (Seq<Seq<u8>>, Seq<Seq<u8>>),
    known: Seq<RecModel>,
) -> (Seq<Seq<u8>>, Seq<Seq<u8>>)
    decreases known.len(),
{
    if known.len() == 0 {
        queue
    } else {
        enqueued(enqueued_parents(queue, known.drop_last()), known.last().event.parent@)
    }
}

/// The walk once its first requests are queued: the parents of the stored events,
/// then the head.
pub open spec fn planned(w: WalkModel) -> WalkModel {
    let parents = enqueued_parents((w.seen, w.frontier), w.known);
    let (seen, frontier) = match w.head {
        Some(head) => enqueued(parents, head),
        None => parents,
    };
    WalkModel { seen, frontier, ..w }
}

/// The walk with the head that was read, unless it had one.
pub open spec fn headed(w: WalkModel, head: Option<Seq<Seq<u8>>>) -> WalkModel {
    WalkModel {
        head: match w.head {
            Some(own) => Some(own),
            None => head,
        },
        ..w
    }
}

/// The walk once the request for its first missing event is answered.
pub open spec fn answered(w: WalkModel, reply: Result<Event, String>) -> WalkModel {
    if w.frontier.len() == 0 {
        w
    } else {
        let id = w.frontier.first();
        match reply {
            Ok(event) => {
                let (seen, frontier) = enqueued((w.seen, w.frontier.drop_first()), event.parent@);
                WalkModel {
                    known: w.known.push(
                        RecModel { key: id, event, attestations: None, fetched: true },
                    ),
                    seen,
                    frontier,
                    fetched_ids: w.fetched_ids.push(id),
                    ..w
                }
            },
            Err(_) => WalkModel {
                frontier: w.frontier.drop_first(),
                unresolved: w.unresolved + 1,
                ..w
            },
        }
    }
}

/// The walk once it gives up on what is still to be fetched.
pub open spec fn cut_short(w: WalkModel) -> WalkModel {
    WalkModel {
        frontier: Seq::empty(),
        unresolved: w.unresolved + w.frontier.len(),
        ..w
    }
}

/// The events with the attestations of those that were read back.
pub open spec fn counted(known: Seq<RecModel>, events: Seq<Attested>) -> Seq<RecModel>
    decreases events.len(),
{
    if events.len() == 0 {
        known
    } else {
        let before = counted(known, events.drop_last());
        Seq::new(
            before.len(),
            |i: int|
                if before[i].key == events.last().payload.content_id() {
                    RecModel { attestations: Some(events.last().attestations as nat), ..before[i] }
                } else {
                    before[i]
                },
        )
    }
}

/// The walk once the fetched events were read back, if they could be.
pub open spec fn noted(w: WalkModel, reply: Option<Vec<Attested>>) -> WalkModel {
    match reply {
        Some(events) => WalkModel { known: counted(w.known, events@), ..w },
        None => w,
    }
}

/// How many of the events were fetched.
pub open spec fn fetched_count(known: Seq<RecModel>) -> nat
    decreases known.len(),
{
    if known.len() == 0 {
        0
    } else {
        fetched_count(known.drop_last()) + if known.last().fetched {
            1nat
        } else {
            0nat
        }
    }
}

/// Whether an event names `id` among its parents.
pub open spec fn is_parent(known: Seq<RecModel>, id: Seq<u8>) -> bool {
    exists|i: int| 0 <= i < known.len() && (#[trigger] known[i]).event.parent@.contains(id)
}

/// `head` is the head to show: the known one, or else the events that are no known
/// event's parent.
pub open spec fn is_head(head: Seq<Seq<u8>>, w: WalkModel) -> bool {
    match w.head {
        Some(known) => head == known,
        None => {
            &&& ascending(head)
            &&& forall|id: Seq<u8>| #[trigger]
                head.contains(id) <==> keys(w.known).contains(id) && !is_parent(w.known, id)
        },
    }
}

/// The properties that the map lists for an event.
pub open spec fn listed(map: Seq<(EventId, Vec<String>)>, id: Seq<u8>) -> Seq<Seq<char>>
    decreases map.len(),
{
    if map.len() == 0 {
        Seq::empty()
    } else if map.first().0@ == id {
        texts(map.first().1@)
    } else {
        listed(map.drop_first(), id)
    }
}

/// `input` is what the layout is told of an event.
pub open spec fn is_input(
    input: DagNodeInput,
    rec: RecModel,
    wrote_current: Seq<(EventId, Vec<String>)>,
) -> bool {
    &&& input.id@ == rec.event.content_id()
    &&& input.parent@ == rec.event.parent@
    &&& badge_views(input.badges@) == badges_of(operation_views(rec.event.operations@))
    &&& match rec.attestations {
        Some(n) => input.attestations == Some(n as usize) && n <= usize::MAX,
        None => input.attestations is None,
    }
    &&& input.fetched == rec.fetched
    &&& texts(input.wrote_current@) == listed(wrote_current, rec.event.content_id())
}

/// `inputs` are what the layout is told of the known events, in order.
pub open spec fn are_inputs(inputs: Seq<DagNodeInput>, w: WalkModel) -> bool {
    &&& inputs.len() == w.known.len()
    &&& forall|i: int|
        0 <= i < inputs.len() ==> is_input(
            #[trigger] inputs[i],
            w.known[i],
            w.wrote_current@,
        )
}

/// `history` shows what the walk has gathered.
pub open spec fn is_history(history: History, w: WalkModel) -> bool {
    &&& is_head(history.head@, w)
    &&& history.total == w.known.len()
    &&& history.local == w.local
    &&& history.fetched == fetched_count(w.known)
    &&& history.unresolved == w.unresolved
    &&& history.current_state == w.values
    &&& exists|inputs: Seq<DagNodeInput>| #[trigger]
        are_inputs(inputs, w) && is_picture(history.dag, by_id(inputs), history.head@)
}

/// `step` shows a failure in these words.
pub open spec fn fails(step: Step, words: Seq<char>) -> bool {
    match step {
        Step::Done(Phase::Failed(text)) => text@ == words,
        _ => false,
    }
}

/// `step` shows what the walk has gathered, if anybody still listens.
pub open spec fn ends(step: Step, w: WalkModel, current: bool) -> bool {
    if !current {
        step is Stranded
    } else if w.known.len() == 0 {
        fails(
            step,
            "No events found for this entity (nothing stored locally and no peer had it)."@,
        )
    } else {
        match step {
            Step::Done(Phase::Ready(history)) => is_history(history, w),
            _ => false,
        }
    }
}

/// `step` follows once nothing is left to be fetched: the fetched events are read
/// back, or the walk ends.
pub open spec fn winds_up(step: Step, w: WalkModel, current: bool) -> bool {
    if w.fetched_ids.len() > 0 {
        match step {
            Step::ReadBack(walk, ids) => walk@ == w && id_views(ids@) == w.fetched_ids,
            _ => false,
        }
    } else {
        ends(step, w, current)
    }
}

/// `step` follows while the walk looks for missing events: the first of them is
/// fetched, unless nobody listens any more or the cap is reached.
pub open spec fn goes_on(step: Step, w: WalkModel, current: bool) -> bool {
    if w.frontier.len() == 0 {
        winds_up(step, w, current)
    } else if !current {
        step is Stranded
    } else if w.known.len() >= FETCH_CAP {
        winds_up(step, cut_short(w), current)
    } else {
        match step {
            Step::Fetch(walk, id) => walk@ == w && id@ == w.frontier.first(),
            _ => false,
        }
    }
}

// ---------------------------------------------------------------------------
// Steps
// ---------------------------------------------------------------------------

fn failure(prefix: &str, complaint: &String) -> (step: Step)
    ensures
        fails(step, prefix@ + complaint@),
{
    let mut text = prefix.to_owned();
    text.append(complaint.as_str());
    Step::Done(Phase::Failed(text))
}

/// The application said what the entity currently says. It may refuse to show the
/// history at all.
pub fn on_resolved(reply: Result<Resolved, String>, current: bool) -> (step: Step)
    ensures
        match reply {
            Err(complaint) => fails(step, "Could not load entity: "@ + complaint@),
            Ok(resolved) => if !current {
                step is Stranded
            } else {
                match resolved.refusal {
                    Some(reason) => match step {
                        Step::Done(Phase::Refused(text)) => text == reason,
                        _ => false,
                    },
                    None => match step {
                        Step::OpenCollection(walk) => walk@ == begun(resolved),
                        _ => false,
                    },
                }
            },
        },
{
    match reply {
        Err(complaint) => failure("Could not load entity: ", &complaint),
        Ok(resolved) => {
            let ghost all = resolved;
            if !current {
                return Step::Stranded;
            }
            if let Some(reason) = resolved.refusal {
                return Step::Done(Phase::Refused(reason));
            }
            let trail = Trail {
                wrote_current: resolved.wrote_current,
                values: resolved.values,
                head: resolved.head,
                known: Vec::new(),
                local: 0,
                seen: Vec::new(),
                frontier: VecDeque::new(),
                fetched_ids: Vec::new(),
                unresolved: 0,
            };
            proof {
                assert(trail@ =~= begun(all));
                assert(trail@.fetched_ids =~= keys(trail@.known).skip(0));
            }
            Step::OpenCollection(Walk { trail })
        },
    }
}

/// The collection was opened, or could not be.
pub fn on_opened(walk: Walk, reply: Result<(), String>, current: bool) -> (step: Step)
    ensures
        match reply {
            Err(complaint) => fails(step, "Could not open collection: "@ + complaint@),
            Ok(_) => if !current {
                step is Stranded
            } else {
                match step {
                    Step::DumpLocal(next) => next@ == walk@,
                    _ => false,
                }
            },
        },
{
    match reply {
        Err(complaint) => failure("Could not open collection: ", &complaint),
        Ok(_) => {
            if !current {
                return Step::Stranded;
            }
            Step::DumpLocal(walk)
        },
    }
}

/// The stored events were listed, or could not be. Where no head is known yet, the
/// stored one is read first.
pub fn on_dumped(walk: Walk, reply: Result<Vec<Attested>, String>, current: bool) -> (step: Step)
    ensures
        match reply {
            Err(complaint) => fails(step, "Local event dump failed: "@ + complaint@),
            Ok(events) => if !current {
                step is Stranded
            } else if walk@.head is None {
                match step {
                    Step::ReadHead(next) => next@ == stocked(walk@, events@),
                    _ => false,
                }
            } else {
                goes_on(step, planned(stocked(walk@, events@)), current)
            },
        },
{
    match reply {
        Err(complaint) => failure("Local event dump failed: ", &complaint),
        Ok(events) => {
            if !current {
                return Step::Stranded;
            }
            let ghost before = walk@;
            let ghost list = events@;
            proof {
                use_type_invariant(&walk);
                lemma_stocked(before, list);
            }
            let mut trail = walk.trail;
            stock(&mut trail, events);
            if trail.head.is_none() {
                return Step::ReadHead(Walk { trail });
            }
            plan_requests(&mut trail);
            go_on(trail, current)
        },
    }
}

/// The stored head was read, if there is one.
pub fn on_head(walk: Walk, head: Option<Clock>, current: bool) -> (step: Step)
    ensures
        if !current {
            step is Stranded
        } else {
            goes_on(step, planned(headed(walk@, head_view(head))), current)
        },
{
    if !current {
        return Step::Stranded;
    }
    proof {
        use_type_invariant(&walk);
    }
    let ghost before = walk@;
    let ghost read = head_view(head);
    let mut trail = walk.trail;
    if trail.head.is_none() {
        trail.head = head;
    }
    assert(trail@ =~= headed(before, read));
    plan_requests(&mut trail);
    go_on(trail, current)
}

/// The request for the first missing event was answered.
pub fn on_fetched(walk: Walk, reply: Result<Event, String>, current: bool) -> (step: Step)
    ensures
        goes_on(step, answered(walk@, reply), current),
{
    proof {
        use_type_invariant(&walk);
    }
    let mut trail = walk.trail;
    answer(&mut trail, reply);
    go_on(trail, current)
}

/// The fetched events were read back, or could not be.
pub fn on_read_back(walk: Walk, reply: Option<Vec<Attested>>, current: bool) -> (step: Step)
    ensures
        ends(step, noted(walk@, reply), current),
{
    proof {
        use_type_invariant(&walk);
    }
    let mut trail = walk.trail;
    let ghost before = trail@;
    match &reply {
        Some(events) => {
            count(&mut trail, events);
        },
        None => {},
    }
    proof {
        if let Some(events) = reply {
            lemma_counted(before.known, events@);
        }
    }
    end(trail, current)
}

// ---------------------------------------------------------------------------
// Parts of the steps
// ---------------------------------------------------------------------------

proof fn lemma_stocked(w: WalkModel, events: Seq<Attested>)
    ensures
        well_formed(stocked(w, events)),
{
    lemma_gathered(events);
    let full = stocked(w, events);
    assert(full.fetched_ids =~= keys(full.known).skip(full.local as int));
}

/// Enter the stored events.
fn stock(trail: &mut Trail, events: Vec<Attested>)
    ensures
        final(trail)@ == stocked(old(trail)@, events@),
        head_view(final(trail).head) == head_view(old(trail).head),
        final(trail).head is None <==> old(trail).head is None,
{
    let ghost list = events@;
    let ghost before = trail@;
    let known = gather(events);
    proof {
        lemma_gathered(list);
    }
    let mut seen: Vec<EventId> = Vec::new();
    let mut i: usize = 0;
    while i < known.len()
        invariant
            i <= known.len(),
            seen.len() == i,
            forall|j: int| 0 <= j < i ==> (#[trigger] seen@[j])@ == known@[j].key@,
        decreases known.len() - i,
    {
        seen.push(known[i].key);
        i += 1;
    }
    trail.local = known.len();
    assert(id_views(seen@) =~= keys(rec_views(known@)));
    trail.known = known;
    trail.seen = seen;
    trail.frontier = VecDeque::new();
    trail.fetched_ids = Vec::new();
    trail.unresolved = 0;
    assert(trail@ =~= stocked(before, list));
}

/// The stored events, each once.
fn gather(events: Vec<Attested>) -> (known: Vec<Rec>)
    ensures
        rec_views(known@) == gathered(events@),
{
    let ghost list = events@;
    let mut events = events;
    let mut queue: Vec<Attested> = Vec::new();
    while events.len() > 0
        invariant
            events@.len() + queue@.len() == list.len(),
            events@ =~= list.take(events@.len() as int),
            queue@ =~= list.skip(events@.len() as int).reverse(),
        decreases events.len(),
    {
        let ghost left = events@;
        if let Some(event) = events.pop() {
            assert(event == list[left.len() - 1]);
            queue.push(event);
            assert(events@ =~= list.take(events@.len() as int));
            assert(queue@ =~= list.skip(events@.len() as int).reverse());
        }
    }
    let mut known: Vec<Rec> = Vec::new();
    assert(queue@ =~= list.reverse());
    assert(list.take(0) =~= Seq::<Attested>::empty());
    assert(rec_views(known@) =~= Seq::<RecModel>::empty());
    while queue.len() > 0
        invariant
            queue@.len() <= list.len(),
            queue@ =~= list.skip(list.len() - queue@.len()).reverse(),
            rec_views(known@) == gathered(list.take(list.len() - queue@.len())),
        decreases queue.len(),
    {
        let ghost done = list.len() - queue@.len();
        let ghost left = queue@;
        if let Some(attested) = queue.pop() {
            proof {
                assert(left[left.len() - 1] == list.skip(done).reverse()[left.len() - 1]);
                assert(attested == list[done]);
                assert(list.take(done + 1).drop_last() =~= list.take(done));
                assert(list.take(done + 1).last() == attested);
                lemma_gathered(list.take(done));
            }
            let rec = Rec {
                key: attested.payload.id(),
                attestations: Some(attested.attestations),
                fetched: false,
                event: attested.payload,
            };
            assert(rec@ == local_rec(attested));
            enter(&mut known, rec);
            assert(queue@ =~= list.skip(done + 1).reverse());
        }
    }
    assert(list.take(list.len() as int) =~= list);
    known
}

/// Enter one event under its id.
fn enter(known: &mut Vec<Rec>, rec: Rec)
    requires
        keys(rec_views(old(known)@)).no_duplicates(),
    ensures
        rec_views(final(known)@) == put(rec_views(old(known)@), rec@),
{
    let ghost before = known@;
    let ghost models = rec_views(before);
    let mut i: usize = 0;
    while i < known.len()
        invariant
            i <= known.len(),
            known@ == before,
            before == old(known)@,
            models == rec_views(before),
            keys(models).no_duplicates(),
            forall|j: int| 0 <= j < i ==> (#[trigger] keys(models)[j]) != rec@.key,
        decreases known.len() - i,
    {
        if known[i].key.same(&rec.key) {
            known.set(i, rec);
            proof {
                assert(keys(models)[i as int] == rec@.key);
                assert(keys(models).contains(rec@.key));
                assert forall|j: int| 0 <= j < models.len() && j != i implies (
                #[trigger] models[j]).key != rec@.key by {
                    assert(keys(models)[j] != keys(models)[i as int]);
                }
                assert(rec_views(known@) =~= put(models, rec@));
            }
            return;
        }
        assert(keys(models)[i as int] != rec@.key);
        i += 1;
    }
    assert(!keys(models).contains(rec@.key));
    known.push(rec);
    assert(rec_views(known@) =~= put(models, rec@));
}

/// Queue ids, unless they were seen before.
fn enqueue(seen: &mut Vec<EventId>, frontier: &mut VecDeque<EventId>, ids: &Vec<EventId>)
    ensures
        (id_views(final(seen)@), id_views(final(frontier)@)) == enqueued(
            (id_views(old(seen)@), id_views(old(frontier)@)),
            id_views(ids@),
        ),
{
    let ghost all = id_views(ids@);
    let ghost start = (id_views(seen@), id_views(frontier@));
    let mut i: usize = 0;
    assert(all.take(0) =~= Seq::<Seq<u8>>::empty());
    while i < ids.len()
        invariant
            i <= ids.len(),
            all == id_views(ids@),
            (id_views(seen@), id_views(frontier@)) == enqueued(start, all.take(i as int)),
        decreases ids.len() - i,
    {
        let id = ids[i];
        proof {
            assert(all.take(i + 1).drop_last() =~= all.take(i as int));
            assert(all.take(i + 1).last() == id@);
        }
        if !has_id(seen, &id) {
            let ghost s = seen@;
            let ghost f = frontier@;
            seen.push(id);
            frontier.push_back(id);
            assert(id_views(seen@) =~= id_views(s).push(id@));
            assert(id_views(frontier@) =~= id_views(f).push(id@));
        }
        i += 1;
    }
    assert(all.take(i as int) =~= all);
}

/// Queue the first requests.
fn plan_requests(trail: &mut Trail)
    requires
        well_formed(old(trail)@),
    ensures
        final(trail)@ == planned(old(trail)@),
        well_formed(final(trail)@),
{
    let ghost before = trail@;
    proof {
        lemma_planned(before);
    }
    let mut i: usize = 0;
    assert(before.known.take(0) =~= Seq::<RecModel>::empty());
    while i < trail.known.len()
        invariant
            i <= trail.known.len(),
            before.known == rec_views(trail.known@),
            (id_views(trail.seen@), id_views(trail.frontier@)) == enqueued_parents(
                (before.seen, before.frontier),
                before.known.take(i as int),
            ),
            trail@ == (WalkModel { seen: trail@.seen, frontier: trail@.frontier, ..before }),
        decreases trail.known.len() - i,
    {
        let parents = trail.known[i].event.parent.to_vec();
        proof {
            assert(before.known.take(i + 1).drop_last() =~= before.known.take(i as int));
            assert(before.known.take(i + 1).last() == trail.known@[i as int]@);
        }
        enqueue(&mut trail.seen, &mut trail.frontier, &parents);
        i += 1;
    }
    assert(before.known.take(i as int) =~= before.known);
    match &trail.head {
        Some(head) => {
            let tips = head.to_vec();
            enqueue(&mut trail.seen, &mut trail.frontier, &tips);
        },
        None => {},
    }
    assert(trail@ =~= planned(before));
}

/// Take the answer to the first request in.
fn answer(trail: &mut Trail, reply: Result<Event, String>)
    requires
        well_formed(old(trail)@),
    ensures
        final(trail)@ == answered(old(trail)@, reply),
        well_formed(final(trail)@),
{
    let ghost before = trail@;
    proof {
        lemma_answered(before, reply);
    }
    let first = trail.frontier.pop_front();
    if let Some(id) = first {
        assert(id_views(trail.frontier@) =~= before.frontier.drop_first());
        match reply {
            Ok(event) => {
                let parents = event.parent.to_vec();
                enqueue(&mut trail.seen, &mut trail.frontier, &parents);
                let ghost ids = trail.fetched_ids@;
                let ghost known = trail.known@;
                trail.fetched_ids.push(id);
                assert(id_views(trail.fetched_ids@) =~= id_views(ids).push(id@));
                trail.known.push(Rec { key: id, event, attestations: None, fetched: true });
                assert(rec_views(trail.known@) =~= rec_views(known).push(trail.known@.last()@));
            },
            Err(_) => {
                let all: usize = trail.seen.len();
                assert(trail.unresolved < all);
                trail.unresolved += 1;
            },
        }
    }
    assert(trail@ =~= answered(before, reply));
}

/// Note the attestations of the events that were read back.
fn count(trail: &mut Trail, events: &Vec<Attested>)
    ensures
        final(trail)@ == (WalkModel {
            known: counted(old(trail)@.known, events@),
            ..old(trail)@
        }),
{
    let ghost before = trail@;
    let mut i: usize = 0;
    assert(events@.take(0) =~= Seq::<Attested>::empty());
    while i < events.len()
        invariant
            i <= events.len(),
            trail@ == (WalkModel {
                known: counted(before.known, events@.take(i as int)),
                ..before
            }),
        decreases events.len() - i,
    {
        let id = events[i].payload.id();
        let n = events[i].attestations;
        let ghost models = trail@.known;
        let ghost recs = trail.known@;
        proof {
            assert(events@.take(i + 1).drop_last() =~= events@.take(i as int));
            assert(events@.take(i + 1).last() == events@[i as int]);
        }
        let ghost after = counted(before.known, events@.take(i + 1));
        let mut k: usize = 0;
        while k < trail.known.len()
            invariant
                k <= trail.known.len(),
                i < events.len(),
                trail.known.len() == recs.len(),
                models == rec_views(recs),
                after.len() == models.len(),
                id@ == events@[i as int].payload.content_id(),
                n == events@[i as int].attestations,
                forall|j: int|
                    0 <= j < models.len() ==> #[trigger] after[j] == if models[j].key == id@ {
                        RecModel { attestations: Some(n as nat), ..models[j] }
                    } else {
                        models[j]
                    },
                forall|j: int| 0 <= j < k ==> (#[trigger] trail.known@[j])@ == after[j],
                forall|j: int| k <= j < recs.len() ==> trail.known@[j] == #[trigger] recs[j],
                trail@ == (WalkModel { known: rec_views(trail.known@), ..before }),
            decreases trail.known.len() - k,
        {
            assert(trail.known@[k as int] == recs[k as int]);
            assert(models[k as int] == recs[k as int]@);
            if trail.known[k].key.same(&id) {
                let ghost now = trail.known@;
                trail.known[k].attestations = Some(n);
                assert(trail.known@ =~= now.update(k as int, trail.known@[k as int]));
            }
            assert(trail.known@[k as int]@ == after[k as int]);
            k += 1;
        }
        assert(rec_views(trail.known@) =~= after);
        i += 1;
    }
    assert(events@.take(i as int) =~= events@);
}

/// What follows while events may be missing.
fn go_on(trail: Trail, current: bool) -> (step: Step)
    requires
        well_formed(trail@),
    ensures
        goes_on(step, trail@, current),
{
    if trail.frontier.len() == 0 {
        return wind_up(trail, current);
    }
    if !current {
        return Step::Stranded;
    }
    if trail.known.len() >= FETCH_CAP {
        let ghost before = trail@;
        let mut trail = trail;
        let all: usize = trail.seen.len();
        let left: usize = trail.frontier.len();
        assert(trail.unresolved + left <= all);
        trail.unresolved += left;
        trail.frontier = VecDeque::new();
        assert(trail@ =~= cut_short(before));
        return wind_up(trail, current);
    }
    let id = trail.frontier[0];
    Step::Fetch(Walk { trail }, id)
}

/// What follows once nothing is left to be fetched.
fn wind_up(trail: Trail, current: bool) -> (step: Step)
    requires
        well_formed(trail@),
    ensures
        winds_up(step, trail@, current),
{
    if trail.fetched_ids.len() > 0 {
        let ids = trail.fetched_ids.clone();
        assert(ids@ =~= trail.fetched_ids@);
        return Step::ReadBack(Walk { trail }, ids);
    }
    end(trail, current)
}

/// How the walk ends.
fn end(trail: Trail, current: bool) -> (step: Step)
    requires
        well_formed(trail@),
    ensures
        ends(step, trail@, current),
{
    if !current {
        return Step::Stranded;
    }
    if trail.known.len() == 0 {
        return Step::Done(
            Phase::Failed(
                "No events found for this entity (nothing stored locally and no peer had it).".to_owned(),
            ),
        );
    }
    let ghost w = trail@;
    let inputs = make_inputs(&trail);
    let ghost list = inputs@;
    let total = trail.known.len();
    let fetched = count_fetched(&trail.known);
    let head = final_head(&trail);
    let dag = layout(inputs, &head);
    let history = History {
        dag,
        head,
        total,
        local: trail.local,
        fetched,
        unresolved: trail.unresolved,
        current_state: trail.values,
    };
    assert(are_inputs(list, w));
    assert(is_history(history, w));
    Step::Done(Phase::Ready(history))
}

fn count_fetched(known: &Vec<Rec>) -> (n: usize)
    ensures
        n == fetched_count(rec_views(known@)),
{
    let ghost all = rec_views(known@);
    let mut n: usize = 0;
    let mut i: usize = 0;
    assert(all.take(0) =~= Seq::<RecModel>::empty());
    while i < known.len()
        invariant
            i <= known.len(),
            n <= i,
            all == rec_views(known@),
            n == fetched_count(all.take(i as int)),
        decreases known.len() - i,
    {
        proof {
            assert(all.take(i + 1).drop_last() =~= all.take(i as int));
            assert(all.take(i + 1).last() == known@[i as int]@);
        }
        if known[i].fetched {
            n += 1;
        }
        i += 1;
    }
    assert(all.take(i as int) =~= all);
    n
}

/// Whether an event names `id` among its parents.
fn has_child(known: &Vec<Rec>, id: &EventId) -> (yes: bool)
    ensures
        yes == is_parent(rec_views(known@), id@),
{
    let ghost all = rec_views(known@);
    let mut i: usize = 0;
    while i < known.len()
        invariant
            i <= known.len(),
            all == rec_views(known@),
            forall|j: int| 0 <= j < i ==> !(#[trigger] all[j]).event.parent@.contains(id@),
        decreases known.len() - i,
    {
        assert(all[i as int].event.parent@ == known@[i as int].event.parent@);
        if known[i].event.parent.contains(id) {
            return true;
        }
        i += 1;
    }
    false
}

/// The head to show.
fn final_head(trail: &Trail) -> (head: Clock)
    ensures
        is_head(head@, trail@),
{
    if let Some(head) = &trail.head {
        return head.clone();
    }
    let ghost all = rec_views(trail.known@);
    let mut tips: Vec<EventId> = Vec::new();
    let mut i: usize = 0;
    while i < trail.known.len()
        invariant
            i <= trail.known.len(),
            all == rec_views(trail.known@),
            forall|id: Seq<u8>| #[trigger]
                id_views(tips@).contains(id) <==> keys(all).take(i as int).contains(id)
                    && !is_parent(all, id),
        decreases trail.known.len() - i,
    {
        let id = trail.known[i].key;
        let ghost before = tips@;
        let ghost few = keys(all).take(i as int);
        let ghost more = keys(all).take(i + 1);
        proof {
            assert(more =~= few.push(id@));
            lemma_push_has(few, id@);
        }
        if !has_child(&trail.known, &id) {
            tips.push(id);
            proof {
                assert(id_views(tips@) =~= id_views(before).push(id@));
                lemma_push_has(id_views(before), id@);
            }
        }
        i += 1;
    }
    assert(keys(all).take(i as int) =~= keys(all));
    Clock::new(tips)
}

/// What the layout is told of the known events.
fn make_inputs(trail: &Trail) -> (inputs: Vec<DagNodeInput>)
    ensures
        are_inputs(inputs@, trail@),
{
    let mut inputs: Vec<DagNodeInput> = Vec::new();
    let mut i: usize = 0;
    while i < trail.known.len()
        invariant
            i <= trail.known.len(),
            inputs.len() == i,
            forall|j: int|
                0 <= j < i ==> is_input(
                    #[trigger] inputs@[j],
                    trail.known@[j]@,
                    trail.wrote_current@,
                ),
        decreases trail.known.len() - i,
    {
        let rec = &trail.known[i];
        let id = rec.event.id();
        let input = DagNodeInput {
            badges: op_badges(&rec.event),
            wrote_current: look_up(&trail.wrote_current, &id),
            parent: rec.event.parent.clone(),
            attestations: rec.attestations,
            fetched: rec.fetched,
            id,
        };
        assert(is_input(input, trail.known@[i as int]@, trail.wrote_current@));
        inputs.push(input);
        i += 1;
    }
    assert(trail@.known =~= rec_views(trail.known@));
    inputs
}

/// The properties listed for an event.
fn look_up(map: &Vec<(EventId, Vec<String>)>, id: &EventId) -> (props: Vec<String>)
    ensures
        texts(props@) == listed(map@, id@),
{
    let mut i: usize = 0;
    assert(map@.skip(0) =~= map@);
    while i < map.len()
        invariant
            i <= map.len(),
            listed(map@, id@) == listed(map@.skip(i as int), id@),
        decreases map.len() - i,
    {
        proof {
            assert(map@.skip(i as int).first() == map@[i as int]);
            assert(map@.skip(i as int).drop_first() =~= map@.skip(i + 1));
        }
        if map[i].0.same(id) {
            return copy_texts(&map[i].1);
        }
        i += 1;
    }
    let props: Vec<String> = Vec::new();
    assert(texts(props@) =~= Seq::<Seq<char>>::empty());
    props
}

fn copy_texts(list: &Vec<String>) -> (copy: Vec<String>)
    ensures
        texts(copy@) == texts(list@),
{
    let mut copy: Vec<String> = Vec::new();
    let mut i: usize = 0;
    while i < list.len()
        invariant
            i <= list.len(),
            copy.len() == i,
            forall|j: int| 0 <= j < i ==> (#[trigger] copy@[j])@ == list@[j]@,
        decreases list.len() - i,
    {
        copy.push(list[i].clone());
        i += 1;
    }
    assert(texts(copy@) =~= texts(list@));
    copy
}

} // verus!
