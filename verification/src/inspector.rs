//! The per-entity inspector drawer: which walk may write into it, what it shows,
//! and how one event reads in detail.

use std::collections::VecDeque;

use vstd::prelude::*;

use crate::bus::{row_views, FeedEntry, RowModel};
use crate::dag::{DagModel, DagNodeInput, DagNodeVis};
use crate::decode::OpBadge;
use crate::ids::{base64, event_id_read, id_views, last_six, EntityId, EventId};
use crate::text::{decimal, decimal_text, join, joined, lemma_word64_plus, texts, word64};
use crate::walk::{History, Phase};

verus! {

// ---------------------------------------------------------------------------
// Generations
// ---------------------------------------------------------------------------

/// Which walk the drawer is currently listening to.
///
/// Exactly one walk can ever write into the drawer: the newest one, and only while
/// the drawer is open. Opening, retrying, refreshing and closing each take the next
/// generation, which strands every walk already under way.
#[derive(Debug, PartialEq)]
pub struct Generations {
    current: u64,
}

impl View for Generations {
    type V = nat;

    closed spec fn view(&self) -> nat {
        self.current as nat
    }
}

/// One walk's claim on the drawer.
#[derive(Clone, Debug, PartialEq)]
pub struct Claim {
    mine: u64,
}

impl View for Claim {
    type V = nat;

    closed spec fn view(&self) -> nat {
        self.mine as nat
    }
}

impl Generations {
    /// No walk was started yet.
    pub fn new() -> (generations: Generations)
        ensures
            generations@ == 0,
    {
        Generations { current: 0 }
    }

    /// Strand every walk under way and claim the drawer for a new one.
    pub fn claim(&mut self) -> (claim: Claim)
        ensures
            final(self)@ == word64(old(self)@ + 1),
            claim@ == final(self)@,
    {
        proof {
            lemma_word64_plus(self.current as nat, 1);
        }
        self.current = self.current.wrapping_add(1);
        Claim { mine: self.current }
    }

    /// Strand every walk under way without starting one: the drawer closed.
    pub fn strand_all(&mut self)
        ensures
            final(self)@ == word64(old(self)@ + 1),
    {
        proof {
            lemma_word64_plus(self.current as nat, 1);
        }
        self.current = self.current.wrapping_add(1);
    }
}

impl Claim {
    /// Whether the drawer still listens to this walk.
    pub fn is_current(&self, generations: &Generations) -> (yes: bool)
        ensures
            yes == (self@ == generations@),
    {
        self.mine == generations.current
    }
}

/// The generation after that many of them were taken, for a walk or not.
pub open spec fn generation_after(taken: nat) -> nat {
    word64(taken)
}

/// A claim is current until the next generation is taken, and never again: of all the
/// claims and strandings since the start, a claim made by the one at `mine` is current
/// after `taken` of them exactly if it is the latest. So at most one claim is current,
/// and none right after a stranding. That holds until the generations have gone full
/// circle.
pub proof fn law_a_claim_is_current_until_the_next(mine: nat, taken: nat)
    requires
        0 < mine <= taken < 0x1_0000_0000_0000_0000,
    ensures
        generation_after(0) == 0,
        generation_after((taken + 1) as nat) == word64(generation_after(taken) + 1),
        (generation_after(mine) == generation_after(taken)) == (mine == taken),
{
    lemma_word64_plus(taken, 1);
    lemma_word64_plus(mine, 1);
}

// ---------------------------------------------------------------------------
// The drawer
// ---------------------------------------------------------------------------

/// The drawer, while it is open.
#[derive(Debug, PartialEq)]
pub struct Drawer {
    /// What is shown.
    pub phase: Phase,
    /// The event shown in detail.
    pub selected: Option<EventId>,
    /// The newest feed row about the entity that was looked at.
    pub last_seen: Option<u64>,
    pub generations: Generations,
}

/// The drawer, as its contracts speak of it.
pub struct DrawerModel {
    pub phase: Phase,
    pub selected: Option<Seq<u8>>,
    pub last_seen: Option<nat>,
    pub generation: nat,
}

impl View for Drawer {
    type V = DrawerModel;

    open spec fn view(&self) -> DrawerModel {
        DrawerModel {
            phase: self.phase,
            selected: match self.selected {
                Some(id) => Some(id@),
                None => None,
            },
            last_seen: match self.last_seen {
                Some(seq) => Some(seq as nat),
                None => None,
            },
            generation: self.generations@,
        }
    }
}

/// The event to show in detail once a result is in: what was selected stays
/// selected; else the first tip of the head.
pub open spec fn selection(selected: Option<Seq<u8>>, phase: Phase) -> Option<Seq<u8>> {
    match phase {
        Phase::Ready(history) => if selected is None && history.head@.len() > 0 {
            Some(history.head@[0])
        } else {
            selected
        },
        _ => selected,
    }
}

/// The drawer once a walk is over. Only the walk it listens to changes anything,
/// and only if it has something to show.
pub open spec fn landed(drawer: DrawerModel, claim: nat, result: Option<Phase>) -> DrawerModel {
    match result {
        Some(phase) => if drawer.generation == claim {
            DrawerModel { phase, selected: selection(drawer.selected, phase), ..drawer }
        } else {
            drawer
        },
        None => drawer,
    }
}

/// The drawer after the next generation was taken.
pub open spec fn next_generation(drawer: DrawerModel) -> DrawerModel {
    DrawerModel { generation: word64(drawer.generation + 1), ..drawer }
}

/// Whether a feed row is news, given the newest one looked at before.
pub open spec fn is_news(last_seen: Option<nat>, seq: nat) -> bool {
    match last_seen {
        Some(before) => seq > before,
        None => true,
    }
}

impl Drawer {
    /// Open the drawer and start its first walk.
    pub fn open() -> (opened: (Drawer, Claim))
        ensures
            opened.0@ == (DrawerModel {
                phase: Phase::Loading,
                selected: None,
                last_seen: None,
                generation: 1,
            }),
            opened.1@ == 1,
    {
        let mut generations = Generations::new();
        let claim = generations.claim();
        (Drawer { phase: Phase::Loading, selected: None, last_seen: None, generations }, claim)
    }

    /// Start another walk. What is shown stays until it is over.
    pub fn refresh(&mut self) -> (claim: Claim)
        ensures
            final(self)@ == next_generation(old(self)@),
            claim@ == final(self)@.generation,
    {
        self.generations.claim()
    }

    /// Start over after a failure.
    pub fn retry(&mut self) -> (claim: Claim)
        ensures
            final(self)@ == (DrawerModel { phase: Phase::Loading, ..next_generation(old(self)@) }),
            claim@ == final(self)@.generation,
    {
        self.phase = Phase::Loading;
        self.generations.claim()
    }

    /// Close the drawer: no walk may write into it any more.
    pub fn close(&mut self)
        ensures
            final(self)@ == next_generation(old(self)@),
    {
        self.generations.strand_all();
    }

    /// A walk is over.
    pub fn land(&mut self, claim: &Claim, result: Option<Phase>)
        ensures
            final(self)@ == landed(old(self)@, claim@, result),
    {
        match result {
            Some(phase) => {
                if !claim.is_current(&self.generations) {
                    return;
                }
                if let Phase::Ready(history) = &phase {
                    if self.selected.is_none() && !history.head.is_empty() {
                        self.selected = Some(history.head.id(0));
                    }
                }
                self.phase = phase;
            },
            None => {},
        }
    }

    /// Show one event in detail.
    pub fn select(&mut self, id: EventId)
        ensures
            final(self)@ == (DrawerModel { selected: Some(id@), ..old(self)@ }),
    {
        self.selected = Some(id);
    }

    /// The feed changed, `newest` being its newest row about the entity. The result
    /// says whether to refresh: there is news, and a history is being shown.
    pub fn on_feed(&mut self, newest: Option<u64>) -> (refresh: bool)
        ensures
            match newest {
                Some(seq) => {
                    &&& final(self)@ == (DrawerModel {
                        last_seen: Some(seq as nat),
                        ..old(self)@
                    })
                    &&& refresh == (is_news(old(self)@.last_seen, seq as nat)
                        && old(self)@.phase is Ready)
                },
                None => final(self)@ == old(self)@ && !refresh,
            },
    {
        match newest {
            Some(seq) => {
                let news = match self.last_seen {
                    Some(before) => seq > before,
                    None => true,
                };
                self.last_seen = Some(seq);
                let showing = match &self.phase {
                    Phase::Ready(_) => true,
                    _ => false,
                };
                news && showing
            },
            None => false,
        }
    }
}

/// Where the feed first speaks of the entity.
pub open spec fn first_about(feed: Seq<RowModel>, entity: Seq<u8>) -> Option<nat>
    decreases feed.len(),
{
    if feed.len() == 0 {
        None
    } else if feed.first().entity_id == Some(entity) {
        Some(feed.first().seq)
    } else {
        first_about(feed.drop_first(), entity)
    }
}

/// The number of the newest feed row about an entity.
pub fn newest_about(feed: &VecDeque<FeedEntry>, entity: &EntityId) -> (seq: Option<u64>)
    ensures
        match seq {
            Some(seq) => first_about(row_views(feed@), entity@) == Some(seq as nat),
            None => first_about(row_views(feed@), entity@) is None,
        },
{
    let ghost rows = row_views(feed@);
    let mut i: usize = 0;
    assert(rows.skip(0) =~= rows);
    while i < feed.len()
        invariant
            i <= feed@.len(),
            rows == row_views(feed@),
            first_about(rows, entity@) == first_about(rows.skip(i as int), entity@),
        decreases feed@.len() - i,
    {
        proof {
            assert(rows.skip(i as int).first() == feed@[i as int]@);
            assert(rows.skip(i as int).drop_first() =~= rows.skip(i + 1));
        }
        if let Some(id) = &feed[i].entity_id {
            if id.same(entity) {
                return Some(feed[i].seq);
            }
        }
        i += 1;
    }
    None
}

/// A stranded walk writes nothing: once the drawer was closed, or another walk
/// started, whatever an earlier walk comes to is ignored, for as long as the
/// generations have not gone full circle. The walk started last is heard.
pub proof fn law_only_the_newest_walk_lands(
    drawer: DrawerModel,
    later: nat,
    phase: Phase,
)
    requires
        0 < later < 0x1_0000_0000_0000_0000,
    ensures
        ({
            let claim = next_generation(drawer).generation;
            let moved = DrawerModel { generation: word64(claim + later), ..drawer };
            &&& landed(moved, claim, Some(phase)) == moved
            &&& landed(next_generation(drawer), claim, Some(phase)).phase == phase
        }),
{
}

/// A selection survives a refresh.
pub proof fn law_a_selection_stays(drawer: DrawerModel, claim: nat, result: Option<Phase>)
    ensures
        drawer.selected is Some ==> landed(drawer, claim, result).selected == drawer.selected,
{
}

// ---------------------------------------------------------------------------
// Stored keys
// ---------------------------------------------------------------------------

/// What reading the keys of a store comes to: the ids, or a complaint about the
/// first key that is none. A key that is no text is `None`.
pub open spec fn keys_read(keys: Seq<Option<String>>) -> Result<Seq<Seq<u8>>, Seq<char>>
    decreases keys.len(),
{
    if keys.len() == 0 {
        Ok(Seq::empty())
    } else {
        match keys_read(keys.drop_last()) {
            Err(complaint) => Err(complaint),
            Ok(ids) => match keys.last() {
                None => Err("event key was not a string"@),
                Some(key) => match event_id_read(key@) {
                    Ok(id) => Ok(ids.push(id)),
                    Err(complaint) => Err("bad event id: "@ + complaint),
                },
            },
        }
    }
}

proof fn lemma_keys_stay_bad(keys: Seq<Option<String>>, n: int)
    requires
        0 <= n <= keys.len(),
        keys_read(keys.take(n)) is Err,
    ensures
        keys_read(keys) == keys_read(keys.take(n)),
    decreases keys.len(),
{
    if n < keys.len() {
        assert(keys.drop_last().take(n) =~= keys.take(n));
        lemma_keys_stay_bad(keys.drop_last(), n);
    } else {
        assert(keys.take(n) =~= keys);
    }
}

/// Read the keys under which a store holds an entity's events.
pub fn read_keys(keys: &Vec<Option<String>>) -> (read: Result<Vec<EventId>, String>)
    ensures
        match read {
            Ok(ids) => keys_read(keys@) == Ok::<Seq<Seq<u8>>, Seq<char>>(id_views(ids@)),
            Err(complaint) => keys_read(keys@) == Err::<Seq<Seq<u8>>, Seq<char>>(complaint@),
        },
{
    let mut ids: Vec<EventId> = Vec::new();
    let mut i: usize = 0;
    assert(keys@.take(0) =~= Seq::<Option<String>>::empty());
    assert(id_views(ids@) =~= Seq::<Seq<u8>>::empty());
    while i < keys.len()
        invariant
            i <= keys.len(),
            keys_read(keys@.take(i as int)) == Ok::<Seq<Seq<u8>>, Seq<char>>(id_views(ids@)),
        decreases keys.len() - i,
    {
        proof {
            assert(keys@.take(i + 1).drop_last() =~= keys@.take(i as int));
            assert(keys@.take(i + 1).last() == keys@[i as int]);
        }
        match &keys[i] {
            None => {
                proof {
                    lemma_keys_stay_bad(keys@, i + 1);
                }
                return Err("event key was not a string".to_owned());
            },
            Some(key) => match EventId::from_base64(key.as_str()) {
                Ok(id) => {
                    let ghost before = ids@;
                    ids.push(id);
                    assert(id_views(ids@) =~= id_views(before).push(id@));
                },
                Err(complaint) => {
                    let mut text = "bad event id: ".to_owned();
                    text.append(complaint.as_str());
                    proof {
                        lemma_keys_stay_bad(keys@, i + 1);
                    }
                    return Err(text);
                },
            },
        }
        i += 1;
    }
    assert(keys@.take(i as int) =~= keys@);
    Ok(ids)
}

// ---------------------------------------------------------------------------
// The history in words
// ---------------------------------------------------------------------------

/// Where the events came from, in words.
pub open spec fn provenance_line(total: nat, local: nat, fetched: nat) -> Seq<char> {
    if fetched > 0 {
        decimal(total) + " events · "@ + decimal(local) + " local · "@ + decimal(fetched)
            + " fetched from peer"@
    } else {
        decimal(total) + " events · all local"@
    }
}

/// Say where the events came from.
pub fn provenance_text(history: &History) -> (text: String)
    ensures
        text@ == provenance_line(
            history.total as nat,
            history.local as nat,
            history.fetched as nat,
        ),
{
    let mut text = decimal_text(history.total as u128);
    if history.fetched > 0 {
        text.append(" events · ");
        text.append(decimal_text(history.local as u128).as_str());
        text.append(" local · ");
        text.append(decimal_text(history.fetched as u128).as_str());
        text.append(" fetched from peer");
    } else {
        text.append(" events · all local");
    }
    text
}

/// Say how many ancestors are missing, if any are.
pub fn unresolved_text(history: &History) -> (text: Option<String>)
    ensures
        match text {
            Some(text) => history.unresolved > 0 && text@ == " · "@ + decimal(
                history.unresolved as nat,
            ) + " ancestor(s) unavailable"@,
            None => history.unresolved == 0,
        },
{
    if history.unresolved == 0 {
        return None;
    }
    let mut text = " · ".to_owned();
    text.append(decimal_text(history.unresolved as u128).as_str());
    text.append(" ancestor(s) unavailable");
    Some(text)
}

/// The tips of the head in short.
pub fn tip_texts(history: &History) -> (tips: Vec<String>)
    ensures
        tips.len() == history.head@.len(),
        forall|i: int|
            0 <= i < tips.len() ==> (#[trigger] tips@[i])@ == last_six(
                base64(history.head@[i]),
            ),
{
    let mut tips: Vec<String> = Vec::new();
    let mut i: usize = 0;
    while i < history.head.len()
        invariant
            i <= history.head@.len(),
            tips.len() == i,
            forall|j: int|
                0 <= j < i ==> (#[trigger] tips@[j])@ == last_six(base64(history.head@[j])),
        decreases history.head@.len() - i,
    {
        tips.push(history.head.id(i).to_base64_short());
        i += 1;
    }
    tips
}

/// Whether the head has several tips: concurrent edits that are not yet merged.
pub fn is_concurrent(history: &History) -> (yes: bool)
    ensures
        yes == (history.head@.len() > 1),
{
    history.head.len() > 1
}

// ---------------------------------------------------------------------------
// One event in detail
// ---------------------------------------------------------------------------

/// How one event reads in detail.
#[derive(Debug, PartialEq)]
pub struct Detail {
    /// The event's id.
    pub event: String,
    /// The parents' ids, in full and in short.
    pub parents: Vec<(String, String)>,
    /// Each backend, and what it did.
    pub ops: Vec<(String, String)>,
    pub attested: String,
    pub source: &'static str,
    /// The properties whose current value the event wrote, if there are any.
    pub wrote_current: Option<String>,
}

/// How many attestations an event has, in words. The count is reported as it is:
/// whether zero is routine depends on the application's policy agent.
pub open spec fn attestation_line(attestations: Option<usize>) -> Seq<char> {
    match attestations {
        Some(n) => if n == 0 {
            "0 (no attestations recorded)"@
        } else {
            decimal(n as nat)
        },
        None => "unknown (payload fetched without attestations)"@,
    }
}

/// What a backend did, in words.
pub open spec fn op_line(badge: OpBadge) -> Seq<char> {
    " "@ + badge.summary@ + " · "@ + decimal(badge.op_count as nat) + " op(s) · "@ + decimal(
        badge.bytes as nat,
    ) + " B"@
}

/// `detail` is how `input` reads.
pub open spec fn is_detail(detail: Detail, input: DagNodeInput) -> bool {
    &&& detail.event@ == base64(input.id@)
    &&& detail.parents.len() == input.parent@.len()
    &&& forall|i: int|
        0 <= i < detail.parents.len() ==> {
            let line = #[trigger] detail.parents@[i];
            line.0@ == base64(input.parent@[i]) && line.1@ == last_six(
                base64(input.parent@[i]),
            )
        }
    &&& detail.ops.len() == input.badges.len()
    &&& forall|i: int|
        0 <= i < detail.ops.len() ==> {
            let line = #[trigger] detail.ops@[i];
            line.0@ == input.badges@[i].backend@ && line.1@ == op_line(input.badges@[i])
        }
    &&& detail.attested@ == attestation_line(input.attestations)
    &&& detail.source@ == if input.fetched {
        "fetched via host"@
    } else {
        "local storage"@
    }
    &&& match detail.wrote_current {
        Some(text) => input.wrote_current.len() > 0 && text@ == joined(
            texts(input.wrote_current@),
            ", "@,
        ) + " (LWW values still standing)"@,
        None => input.wrote_current.len() == 0,
    }
}

/// Where the event is among the drawn ones: the first node of that id.
pub open spec fn node_at(nodes: Seq<DagNodeVis>, id: Seq<u8>, at: int) -> bool {
    &&& 0 <= at < nodes.len()
    &&& nodes[at].input.id@ == id
    &&& forall|i: int| 0 <= i < at ==> (#[trigger] nodes[i]).input.id@ != id
}

/// `detail` is how the first node of that id reads.
pub open spec fn describes(detail: Detail, nodes: Seq<DagNodeVis>, id: Seq<u8>) -> bool {
    exists|at: int| #[trigger] node_at(nodes, id, at) && is_detail(detail, nodes[at].input)
}

/// Describe the selected event. `None` if nothing is selected, or if the selected
/// event is not drawn.
pub fn selected_detail(dag: &DagModel, selected: Option<EventId>) -> (detail: Option<Detail>)
    ensures
        match selected {
            Some(id) => match detail {
                Some(detail) => describes(detail, dag.nodes@, id@),
                None => forall|i: int|
                    0 <= i < dag.nodes.len() ==> (#[trigger] dag.nodes@[i]).input.id@ != id@,
            },
            None => detail is None,
        },
{
    match selected {
        Some(id) => {
            let mut i: usize = 0;
            while i < dag.nodes.len()
                invariant
                    i <= dag.nodes.len(),
                    selected == Some(id),
                    forall|j: int| 0 <= j < i ==> (#[trigger] dag.nodes@[j]).input.id@ != id@,
                decreases dag.nodes.len() - i,
            {
                if dag.nodes[i].input.id.same(&id) {
                    let detail = describe(&dag.nodes[i].input);
                    assert(node_at(dag.nodes@, id@, i as int));
                    return Some(detail);
                }
                i += 1;
            }
            None
        },
        None => None,
    }
}

/// Describe one event.
pub fn describe(input: &DagNodeInput) -> (detail: Detail)
    ensures
        is_detail(detail, *input),
{
    let mut parents: Vec<(String, String)> = Vec::new();
    let mut i: usize = 0;
    while i < input.parent.len()
        invariant
            i <= input.parent@.len(),
            parents.len() == i,
            forall|j: int|
                0 <= j < i ==> {
                    let line = #[trigger] parents@[j];
                    line.0@ == base64(input.parent@[j]) && line.1@ == last_six(
                        base64(input.parent@[j]),
                    )
                },
        decreases input.parent@.len() - i,
    {
        let parent = input.parent.id(i);
        parents.push((parent.to_base64(), parent.to_base64_short()));
        i += 1;
    }
    let mut ops: Vec<(String, String)> = Vec::new();
    let mut i: usize = 0;
    while i < input.badges.len()
        invariant
            i <= input.badges.len(),
            ops.len() == i,
            forall|j: int|
                0 <= j < i ==> {
                    let line = #[trigger] ops@[j];
                    line.0@ == input.badges@[j].backend@ && line.1@ == op_line(input.badges@[j])
                },
        decreases input.badges.len() - i,
    {
        let badge = &input.badges[i];
        let mut line = " ".to_owned();
        line.append(badge.summary.as_str());
        line.append(" · ");
        line.append(decimal_text(badge.op_count as u128).as_str());
        line.append(" op(s) · ");
        line.append(decimal_text(badge.bytes as u128).as_str());
        line.append(" B");
        ops.push((badge.backend.clone(), line));
        i += 1;
    }
    let attested = match input.attestations {
        Some(n) => if n == 0 {
            "0 (no attestations recorded)".to_owned()
        } else {
            decimal_text(n as u128)
        },
        None => "unknown (payload fetched without attestations)".to_owned(),
    };
    let wrote_current = if input.wrote_current.len() == 0 {
        None
    } else {
        let mut text = join(&input.wrote_current, ", ");
        text.append(" (LWW values still standing)");
        Some(text)
    };
    Detail {
        event: input.id.to_base64(),
        parents,
        ops,
        attested,
        source: if input.fetched {
            "fetched via host"
        } else {
            "local storage"
        },
        wrote_current,
    }
}

} // verus!
