//! The system panel: the inspect-by-id row, and how the cards on this node, the
//! connection and the registered queries read.

use vstd::prelude::*;

use crate::host::NodeStatus;
use crate::ids::{complains, entity_id_read, reads_as, EntityId};
use crate::text::{
    decimal, decimal_text, is_trimmed, law_trimming_is_unambiguous, same_text, trimmed,
};

verus! {

// ---------------------------------------------------------------------------
// Inspect by id
// ---------------------------------------------------------------------------

/// What a submitted id asks for.
#[derive(Debug, PartialEq)]
pub enum Submission {
    /// Nothing was entered.
    Nothing,
    /// Open the inspector for this entity.
    Open(EntityId),
    /// Show what is wrong with the input.
    Invalid(String),
}

/// `submission` is what the trimmed input `id` asks for.
pub open spec fn is_submission(submission: Submission, id: Seq<char>) -> bool {
    match submission {
        Submission::Nothing => id.len() == 0,
        Submission::Open(entity) => id.len() > 0 && reads_as(entity_id_read(id), entity@),
        Submission::Invalid(text) => id.len() > 0 && exists|complaint: Seq<char>| #[trigger]
            complains(entity_id_read(id), complaint) && text@ == "not a valid entity id: "@
                + complaint,
    }
}

/// Read the id that was entered, without the white space around it.
pub fn submit(raw: &str) -> (submission: Submission)
    ensures
        exists|id: Seq<char>| #[trigger] is_trimmed(raw@, id) && is_submission(submission, id),
{
    let id = trimmed(raw);
    let submission = if id.as_str().unicode_len() == 0 {
        Submission::Nothing
    } else {
        match EntityId::from_base64(id.as_str()) {
            Ok(entity) => Submission::Open(entity),
            Err(complaint) => {
                let mut text = "not a valid entity id: ".to_owned();
                text.append(complaint.as_str());
                assert(complains(entity_id_read(id@), complaint@));
                Submission::Invalid(text)
            },
        }
    };
    assert(is_trimmed(raw@, id@) && is_submission(submission, id@));
    submission
}

/// An id that reads back opens its entity, whatever white space was pasted around
/// it.
pub proof fn law_a_pasted_id_opens_its_entity(
    raw: Seq<char>,
    text: Seq<char>,
    entity: Seq<u8>,
    submission: Submission,
)
    requires
        text.len() > 0,
        reads_as(entity_id_read(text), entity),
        is_trimmed(raw, text),
        exists|id: Seq<char>| #[trigger] is_trimmed(raw, id) && is_submission(submission, id),
    ensures
        match submission {
            Submission::Open(id) => id@ == entity,
            _ => false,
        },
{
    let id = choose|id: Seq<char>| #[trigger]
        is_trimmed(raw, id) && is_submission(submission, id);
    law_trimming_is_unambiguous(raw, text, id);
}

/// The collection that is offered first.
pub fn first_collection(collections: &Vec<String>) -> (name: String)
    ensures
        name@ == if collections.len() > 0 {
            collections@[0]@
        } else {
            Seq::empty()
        },
{
    if collections.len() > 0 {
        collections[0].clone()
    } else {
        String::new()
    }
}

/// Whether a key press submits the id.
pub fn is_submit_key(key: &str) -> (yes: bool)
    ensures
        yes == (key@ == "Enter"@),
{
    same_text(key, "Enter")
}

// ---------------------------------------------------------------------------
// Moving the panel
// ---------------------------------------------------------------------------

/// Whether pressing a pointer button on the panel's header starts a drag: the main
/// button does, unless it is pressed on a button of the panel.
pub fn starts_drag(button: i16, on_button: bool) -> (yes: bool)
    ensures
        yes == (button == 0 && !on_button),
{
    button == 0 && !on_button
}

// ---------------------------------------------------------------------------
// This node
// ---------------------------------------------------------------------------

/// A label on the node card.
#[derive(Clone, Copy, Debug, PartialEq)]
pub struct Chip {
    pub text: &'static str,
    /// Whether the label is marked as good.
    pub ok: bool,
}

/// What a fact that may not be known is called, and whether it is good.
pub open spec fn fact(
    known: Option<bool>,
    yes: Seq<char>,
    no: Seq<char>,
    marked: bool,
) -> Seq<(Seq<char>, bool)> {
    match known {
        Some(holds) => seq![
            (
                if holds {
                    yes
                } else {
                    no
                },
                holds && marked,
            ),
        ],
        None => Seq::empty(),
    }
}

/// The labels of the node card: what the application reported, and nothing of what
/// it did not.
pub open spec fn chips_of(status: NodeStatus) -> Seq<(Seq<char>, bool)> {
    fact(status.durable, "durable"@, "ephemeral"@, false) + fact(
        status.policy_ready,
        "policy ready"@,
        "policy syncing…"@,
        true,
    ) + fact(status.system_ready, "system ready"@, "joining system…"@, true)
}

/// What a list of labels says.
pub open spec fn chip_views(chips: Seq<Chip>) -> Seq<(Seq<char>, bool)> {
    Seq::new(chips.len(), |i: int| (chips[i].text@, chips[i].ok))
}

fn push_fact(
    chips: &mut Vec<Chip>,
    known: Option<bool>,
    yes: &'static str,
    no: &'static str,
    marked: bool,
)
    ensures
        chip_views(final(chips)@) == chip_views(old(chips)@) + fact(known, yes@, no@, marked),
{
    let ghost before = chips@;
    if let Some(holds) = known {
        chips.push(
            Chip {
                text: if holds {
                    yes
                } else {
                    no
                },
                ok: holds && marked,
            },
        );
    }
    assert(chip_views(chips@) =~= chip_views(before) + fact(known, yes@, no@, marked));
}

/// The labels of the node card. A host that reported nothing gets none: silence is
/// no answer.
pub fn node_chips(status: &NodeStatus) -> (chips: Vec<Chip>)
    ensures
        chip_views(chips@) == chips_of(*status),
{
    let mut chips: Vec<Chip> = Vec::new();
    assert(chip_views(chips@) =~= Seq::<(Seq<char>, bool)>::empty());
    assert(Seq::<(Seq<char>, bool)>::empty() + fact(
        status.durable,
        "durable"@,
        "ephemeral"@,
        false,
    ) =~= fact(status.durable, "durable"@, "ephemeral"@, false));
    push_fact(&mut chips, status.durable, "durable", "ephemeral", false);
    push_fact(&mut chips, status.policy_ready, "policy ready", "policy syncing…", true);
    push_fact(&mut chips, status.system_ready, "system ready", "joining system…", true);
    chips
}

/// The number of rows in the local cache, in words: still being counted, counted,
/// or not available.
pub fn cache_text(counts: &Option<Result<(u64, u64), String>>) -> (text: String)
    ensures
        text@ == match *counts {
            None => "counting…"@,
            Some(Ok((entities, events))) => decimal(entities as nat) + " entities · "@ + decimal(
                events as nat,
            ) + " events"@,
            Some(Err(_)) => "unavailable"@,
        },
{
    match counts {
        None => "counting…".to_owned(),
        Some(Ok((entities, events))) => {
            let mut text = decimal_text(*entities as u128);
            text.append(" entities · ");
            text.append(decimal_text(*events as u128).as_str());
            text.append(" events");
            text
        },
        Some(Err(_)) => "unavailable".to_owned(),
    }
}

// ---------------------------------------------------------------------------
// Connection
// ---------------------------------------------------------------------------

/// The connection state in words.
pub open spec fn status_line(state: Seq<char>) -> Seq<char> {
    if state.len() == 0 {
        "not reported"@
    } else {
        state
    }
}

/// Say what the connection state is. Without one, the card says so.
pub fn status_text(state: &str) -> (text: String)
    ensures
        text@ == status_line(state@),
{
    if state.unicode_len() == 0 {
        "not reported".to_owned()
    } else {
        state.to_owned()
    }
}

/// How the connection state is marked.
pub fn status_class(state: &str) -> (class: &'static str)
    ensures
        class@ == if state@ == "Connected"@ {
            "xrayConnState xrayConnOk"@
        } else if state@ == "Closed"@ || state@ == "Error"@ {
            "xrayConnState xrayConnBad"@
        } else {
            "xrayConnState"@
        },
{
    if same_text(state, "Connected") {
        "xrayConnState xrayConnOk"
    } else if same_text(state, "Closed") || same_text(state, "Error") {
        "xrayConnState xrayConnBad"
    } else {
        "xrayConnState"
    }
}

// ---------------------------------------------------------------------------
// Queries
// ---------------------------------------------------------------------------

/// A query's selection and its version, in words.
pub fn selection_text(selection: &str, version: u32) -> (text: String)
    ensures
        text@ == selection@ + " · v"@ + decimal(version as nat),
{
    let mut text = selection.to_owned();
    text.append(" · v");
    text.append(decimal_text(version as u128).as_str());
    text
}

/// How many results a query has, in words.
pub fn results_text(n: usize) -> (text: String)
    ensures
        text@ == decimal(n as nat) + " results"@,
{
    let mut text = decimal_text(n as u128);
    text.append(" results");
    text
}

/// How many changesets of a query were seen, in words.
pub fn changesets_text(n: u64) -> (text: String)
    ensures
        text@ == decimal(n as nat) + " changesets"@,
{
    let mut text = decimal_text(n as u128);
    text.append(" changesets");
    text
}

/// Whether a query has its results, in words.
pub fn loaded_text(loaded: bool) -> (text: &'static str)
    ensures
        text@ == if loaded {
            "loaded"@
        } else {
            "loading…"@
        },
{
    if loaded {
        "loaded"
    } else {
        "loading…"
    }
}

/// What went wrong with a query, in words.
pub fn error_text(message: &str) -> (text: String)
    ensures
        text@ == "error: "@ + message@,
{
    let mut text = "error: ".to_owned();
    text.append(message);
    text
}

} // verus!
