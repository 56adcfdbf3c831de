//! The live event feed card: how a feed row reads.

use vstd::prelude::*;

use crate::bus::{FeedEntry, FeedEvent, FEED_CAP};
use crate::decode::OpBadge;
use crate::ids::{base64, clock_short, last_six, Clock, CollectionId, EntityId};
use crate::launcher::InspectTarget;
use crate::text::{decimal, decimal_text, join, joined, texts};

verus! {

/// How one event of a feed row reads.
#[derive(Debug, PartialEq)]
pub struct FeedRowEvent {
    pub id: String,
    pub short: String,
    pub parent: String,
    pub ops: String,
}

/// How a feed row reads.
#[derive(Debug, PartialEq)]
pub struct FeedRow {
    /// What a click opens, if anything.
    pub target: Option<InspectTarget>,
    pub title: &'static str,
    pub kind: &'static str,
    pub kind_class: String,
    pub summary: String,
    pub query: String,
    /// The head after the change, if there is one to show.
    pub head: Option<String>,
    pub events: Vec<FeedRowEvent>,
}

/// What a row is about: one entity, or a number of items.
pub open spec fn row_summary(
    collection: Seq<char>,
    entity_id: Option<EntityId>,
    count: nat,
) -> Seq<char> {
    match entity_id {
        Some(id) => collection + "/"@ + last_six(base64(id@)),
        None => collection + " · "@ + decimal(count) + " item(s)"@,
    }
}

/// What one backend did, in words.
pub open spec fn badge_line(badge: OpBadge) -> Seq<char> {
    badge.backend@ + " "@ + badge.summary@ + " · "@ + decimal(badge.bytes as nat) + " B"@
}

/// What the backends did, in words.
pub open spec fn ops_line(badges: Seq<OpBadge>) -> Seq<char> {
    if badges.len() == 0 {
        "no ops"@
    } else {
        joined(Seq::new(badges.len(), |i: int| badge_line(badges[i])), "  "@)
    }
}

/// What an event builds on, in words.
pub open spec fn parent_line(parent: Seq<Seq<u8>>) -> Seq<char> {
    if parent.len() == 0 {
        "creation"@
    } else {
        "← "@ + clock_short(parent)
    }
}

/// `row` is how `event` reads.
pub open spec fn is_row_event(row: FeedRowEvent, event: FeedEvent) -> bool {
    &&& row.id@ == base64(event.id@)
    &&& row.short@ == last_six(base64(event.id@))
    &&& row.parent@ == parent_line(event.parent@)
    &&& row.ops@ == ops_line(event.badges@)
}

/// `row` is how `entry` reads.
pub open spec fn is_feed_row(row: FeedRow, entry: FeedEntry) -> bool {
    &&& match entry.entity_id {
        Some(id) => match row.target {
            Some(target) => target@ == (entry.collection@, id@) && row.title@
                == "Open in inspector"@,
            None => false,
        },
        None => row.target is None && row.title@ == "Initial query load"@,
    }
    &&& row.kind@ == entry.kind@
    &&& row.kind_class@ == "xrayKind xrayKind-"@ + entry.kind@
    &&& row.summary@ == row_summary(entry.collection@, entry.entity_id, entry.count as nat)
    &&& row.query@ == entry.query_label@
    &&& match row.head {
        Some(head) => entry.head_short@.len() > 0 && head@ == entry.head_short@,
        None => entry.head_short@.len() == 0,
    }
    &&& row.events.len() == entry.events.len()
    &&& forall|i: int|
        0 <= i < row.events.len() ==> is_row_event(#[trigger] row.events@[i], entry.events@[i])
}

/// Put a feed row in words. A row about one entity opens that entity.
pub fn feed_row(entry: &FeedEntry) -> (row: FeedRow)
    ensures
        is_feed_row(row, *entry),
{
    let mut events: Vec<FeedRowEvent> = Vec::new();
    let mut i: usize = 0;
    while i < entry.events.len()
        invariant
            i <= entry.events.len(),
            events.len() == i,
            forall|j: int| 0 <= j < i ==> is_row_event(#[trigger] events@[j], entry.events@[j]),
        decreases entry.events.len() - i,
    {
        let event = &entry.events[i];
        events.push(
            FeedRowEvent {
                id: event.id.to_base64(),
                short: event.id.to_base64_short(),
                parent: parent_text(&event.parent),
                ops: ops_text(&event.badges),
            },
        );
        i += 1;
    }
    let mut kind_class = "xrayKind xrayKind-".to_owned();
    kind_class.append(entry.kind);
    let head = if entry.head_short.as_str().unicode_len() > 0 {
        Some(entry.head_short.clone())
    } else {
        None
    };
    let (target, title) = match &entry.entity_id {
        Some(id) => (
            Some(InspectTarget { collection: entry.collection.clone(), entity_id: *id }),
            "Open in inspector",
        ),
        None => (None, "Initial query load"),
    };
    FeedRow {
        target,
        title,
        kind: entry.kind,
        kind_class,
        summary: summary_text(&entry.collection, &entry.entity_id, entry.count),
        query: entry.query_label.clone(),
        head,
        events,
    }
}

fn summary_text(collection: &CollectionId, entity_id: &Option<EntityId>, count: usize) -> (text:
    String)
    ensures
        text@ == row_summary(collection@, *entity_id, count as nat),
{
    let mut text = collection.name.clone();
    match entity_id {
        Some(id) => {
            text.append("/");
            text.append(id.to_base64_short().as_str());
        },
        None => {
            text.append(" · ");
            text.append(decimal_text(count as u128).as_str());
            text.append(" item(s)");
        },
    }
    text
}

fn parent_text(parent: &Clock) -> (text: String)
    ensures
        text@ == parent_line(parent@),
{
    if parent.is_empty() {
        return "creation".to_owned();
    }
    let mut text = "← ".to_owned();
    text.append(parent.to_base64_short().as_str());
    text
}

fn ops_text(badges: &Vec<OpBadge>) -> (text: String)
    ensures
        text@ == ops_line(badges@),
{
    if badges.len() == 0 {
        return "no ops".to_owned();
    }
    let mut lines: Vec<String> = Vec::new();
    let mut i: usize = 0;
    while i < badges.len()
        invariant
            i <= badges.len(),
            lines.len() == i,
            forall|j: int| 0 <= j < i ==> (#[trigger] lines@[j])@ == badge_line(badges@[j]),
        decreases badges.len() - i,
    {
        let badge = &badges[i];
        let mut line = badge.backend.clone();
        line.append(" ");
        line.append(badge.summary.as_str());
        line.append(" · ");
        line.append(decimal_text(badge.bytes as u128).as_str());
        line.append(" B");
        lines.push(line);
        i += 1;
    }
    assert(texts(lines@) =~= Seq::new(badges@.len(), |i: int| badge_line(badges@[i])));
    join(&lines, "  ")
}

/// The card's subtitle.
pub fn feed_subtitle() -> (text: String)
    ensures
        text@ == "Changesets from registered queries · newest first · last "@ + decimal(
            FEED_CAP as nat,
        ),
{
    let mut text = "Changesets from registered queries · newest first · last ".to_owned();
    text.append(decimal_text(FEED_CAP as u128).as_str());
    text
}

} // verus!
