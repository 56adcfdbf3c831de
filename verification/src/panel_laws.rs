//! What the panel says and does, in terms of what it is told.

use vstd::prelude::*;

use crate::bus::{Action, BusModel, FeedEntry, RowModel};
use crate::dag::{DagNodeInput, DagNodeVis};
use crate::dag_view::{dangling_note, omitted_note, title_badge, title_of};
use crate::decode::OpBadge;
use crate::env::hms;
use crate::feed::{badge_line, is_feed_row, ops_line, FeedRow};
use crate::host::NodeStatus;
use crate::ids::{base64, clock_short, complains, entity_id_read, event_id_read, last_six};
use crate::inspector::{
    describes, first_about, is_detail, is_news, keys_read, landed, node_at, provenance_line, Detail,
    DrawerModel,
};
use crate::launcher::{asks_for_xray, set_actions, state_set, tap_count, taps_then, StateModel};
use crate::system_panel::{chips_of, is_submission, status_line, Submission};
use crate::text::{decimal, digit, joined, texts, two_digits};
use crate::walk::Phase;

verus! {

// ---------------------------------------------------------------------------
// Numbers and lists
// ---------------------------------------------------------------------------

/// The number that a text of decimal digits stands for.
pub open spec fn number(text: Seq<char>) -> nat
    decreases text.len(),
{
    if text.len() == 0 {
        0
    } else {
        (10 * number(text.drop_last()) + (text.last() as u32 - '0' as u32)) as nat
    }
}

/// Every character is a decimal digit.
pub open spec fn all_digits(text: Seq<char>) -> bool {
    forall|i: int| 0 <= i < text.len() ==> '0' as u32 <= #[trigger] text[i] as u32 <= '9' as u32
}

/// A number in decimal reads back as that number, is made of digits alone, and has no
/// leading zero.
pub proof fn law_a_number_reads_back(n: nat)
    ensures
        number(decimal(n)) == n,
        all_digits(decimal(n)),
        decimal(n).len() > 0,
        n > 0 ==> decimal(n)[0] != '0',
        n < 10 ==> decimal(n).len() == 1,
    decreases n,
{
    if n < 10 {
        let one = seq![digit(n)];
        assert(one.drop_last() =~= Seq::<char>::empty());
        assert(number(one.drop_last()) == 0);
        assert(decimal(n) == one);
        assert(number(one) == n);
    } else {
        law_a_number_reads_back(n / 10);
        let before = decimal(n / 10);
        let all = decimal(n);
        assert(all == before.push(digit(n % 10)));
        assert(all.drop_last() =~= before);
        assert forall|i: int| 0 <= i < all.len() implies '0' as u32 <= #[trigger] all[i] as u32
            <= '9' as u32 by {
            if i < before.len() {
                assert(all[i] == before[i]);
            }
        }
    }
}

/// A time of day has two digits for each of its numbers below a hundred, which read back
/// as the numbers, with colons between them.
pub proof fn law_a_time_reads_back(hours: nat, minutes: nat, seconds: nat)
    requires
        hours < 100,
        minutes < 100,
        seconds < 100,
    ensures
        ({
            let text = hms(hours, minutes, seconds);
            &&& text.len() == 8
            &&& number(text.subrange(0, 2)) == hours
            &&& text[2] == ':'
            &&& number(text.subrange(3, 5)) == minutes
            &&& text[5] == ':'
            &&& number(text.subrange(6, 8)) == seconds
        }),
{
    reveal_strlit(":");
    assert(":"@ =~= seq![':']);
    lemma_two_digits(hours);
    lemma_two_digits(minutes);
    lemma_two_digits(seconds);
    let text = hms(hours, minutes, seconds);
    assert(text.subrange(0, 2) =~= two_digits(hours));
    assert(text.subrange(3, 5) =~= two_digits(minutes));
    assert(text.subrange(6, 8) =~= two_digits(seconds));
}

proof fn lemma_two_digits(n: nat)
    requires
        n < 100,
    ensures
        two_digits(n).len() == 2,
        number(two_digits(n)) == n,
{
    law_a_number_reads_back(n);
    let text = two_digits(n);
    if n < 10 {
        assert(decimal(n) == seq![digit(n)]);
        assert(text =~= seq!['0', digit(n)]);
        assert(text.drop_last() =~= seq!['0']);
        assert(seq!['0'].drop_last() =~= Seq::<char>::empty());
        assert(number(seq!['0'].drop_last()) == 0);
        assert(number(seq!['0']) == 0);
    } else {
        assert(decimal(n) == decimal(n / 10).push(digit(n % 10)));
        assert(decimal(n / 10) == seq![digit(n / 10)]);
    }
}

/// Joining goes piece by piece, with the separator between neighbours and nowhere else.
pub proof fn law_joining_separates_neighbours(
    pieces: Seq<Seq<char>>,
    piece: Seq<char>,
    sep: Seq<char>,
)
    ensures
        joined(Seq::empty(), sep) == Seq::<char>::empty(),
        joined(seq![piece], sep) == piece,
        pieces.len() > 0 ==> joined(pieces.push(piece), sep) == joined(pieces, sep) + sep + piece,
{
    assert(pieces.push(piece).drop_last() =~= pieces);
}

/// A clock in short lists the last six letters of every id in it, with commas between
/// them, in brackets.
pub proof fn law_a_clock_lists_its_ids(ids: Seq<Seq<u8>>)
    ensures
        clock_short(ids).len() >= 2,
        clock_short(ids)[0] == '[',
        clock_short(ids).last() == ']',
        clock_short(ids).subrange(1, clock_short(ids).len() - 1) == joined(
            Seq::new(
                ids.len(),
                |i: int|
                    base64(ids[i]).subrange(base64(ids[i]).len() - 6, base64(ids[i]).len() as int),
            ),
            seq![','],
        ),
{
    let list = Seq::new(ids.len(), |i: int| last_six(base64(ids[i])));
    assert(list =~= Seq::new(
        ids.len(),
        |i: int| base64(ids[i]).subrange(base64(ids[i]).len() - 6, base64(ids[i]).len() as int),
    ));
    assert(clock_short(ids).subrange(1, clock_short(ids).len() - 1) =~= joined(list, seq![',']));
}

// ---------------------------------------------------------------------------
// The drawer
// ---------------------------------------------------------------------------

/// The drawer shows what the walk it listens to came to, and selects the first tip of
/// the head where nothing was selected. A walk that it does not listen to, or that has
/// nothing to show, changes nothing.
pub proof fn law_a_result_is_shown(drawer: DrawerModel, claim: nat, phase: Phase)
    ensures
        claim != drawer.generation ==> landed(drawer, claim, Some(phase)) == drawer,
        landed(drawer, claim, None) == drawer,
        claim == drawer.generation ==> {
            let after = landed(drawer, claim, Some(phase));
            &&& after.phase == phase
            &&& after.generation == drawer.generation
            &&& after.last_seen == drawer.last_seen
            &&& drawer.selected is Some ==> after.selected == drawer.selected
            &&& drawer.selected is None ==> match phase {
                Phase::Ready(history) => if history.head@.len() > 0 {
                    after.selected == Some(history.head@[0])
                } else {
                    after.selected is None
                },
                _ => after.selected is None,
            }
        },
{
}

/// The newest row about an entity is the first one in the feed; there is none exactly
/// where no row is about it. A row is news if its number is higher than that of the last
/// one looked at.
pub proof fn law_the_newest_row_is_the_first(feed: Seq<RowModel>, entity: Seq<u8>)
    ensures
        first_about(feed, entity) is None <==> forall|i: int|
            0 <= i < feed.len() ==> (#[trigger] feed[i]).entity_id != Some(entity),
        first_about(feed, entity) matches Some(seq) ==> exists|i: int|
            0 <= i < feed.len() && (#[trigger] feed[i]).entity_id == Some(entity) && feed[i].seq
                == seq && forall|j: int|
                0 <= j < i ==> (#[trigger] feed[j]).entity_id != Some(entity),
        forall|seq: nat| #[trigger] is_news(None, seq),
        forall|before: nat, seq: nat| #[trigger] is_news(Some(before), seq) <==> seq > before,
    decreases feed.len(),
{
    if feed.len() > 0 {
        let rest = feed.drop_first();
        law_the_newest_row_is_the_first(rest, entity);
        assert forall|i: int| 1 <= i < feed.len() implies #[trigger] feed[i] == rest[i - 1] by {}
        if feed.first().entity_id == Some(entity) {
            assert(feed[0].entity_id == Some(entity));
        } else {
            match first_about(rest, entity) {
                Some(seq) => {
                    let i = choose|i: int|
                        0 <= i < rest.len() && (#[trigger] rest[i]).entity_id == Some(entity)
                            && rest[i].seq == seq && forall|j: int|
                            0 <= j < i ==> (#[trigger] rest[j]).entity_id != Some(entity);
                    assert(feed[i + 1] == rest[i]);
                    assert forall|j: int| 0 <= j < i + 1 implies (#[trigger] feed[j]).entity_id
                        != Some(entity) by {
                        if j > 0 {
                            assert(rest[j - 1].entity_id != Some(entity));
                        }
                    }
                },
                None => {
                    assert forall|i: int| 0 <= i < feed.len() implies (
                    #[trigger] feed[i]).entity_id != Some(entity) by {
                        if i > 0 {
                            assert(rest[i - 1].entity_id != Some(entity));
                        }
                    }
                },
            }
        }
    }
}

/// `key` is a text that reads as the id.
pub open spec fn key_reads(key: Option<String>, id: Seq<u8>) -> bool {
    key matches Some(text) && event_id_read(text@) == Ok::<Seq<u8>, Seq<char>>(id)
}

/// `key` is a text that reads as some id.
pub open spec fn key_is_good(key: Option<String>) -> bool {
    exists|id: Seq<u8>| key_reads(key, id)
}

/// The key at `i` is the first that is no text or no id, and the complaint is about it.
pub open spec fn first_bad_key(
    keys: Seq<Option<String>>,
    i: int,
    complaint: Seq<char>,
) -> bool {
    &&& 0 <= i < keys.len()
    &&& forall|j: int| 0 <= j < i ==> key_is_good(#[trigger] keys[j])
    &&& keys[i] is None ==> complaint == "event key was not a string"@
    &&& keys[i] matches Some(text) ==> (event_id_read(text@) matches Err(why) && complaint
        == "bad event id: "@ + why)
}

/// Stored keys are read one by one: all of them, or a complaint about the first that is
/// no text or no id.
pub proof fn law_every_stored_key_is_read(keys: Seq<Option<String>>)
    ensures
        match keys_read(keys) {
            Ok(ids) => ids.len() == keys.len() && forall|i: int|
                0 <= i < keys.len() ==> key_reads(#[trigger] keys[i], ids[i]),
            Err(complaint) => exists|i: int| #[trigger] first_bad_key(keys, i, complaint),
        },
    decreases keys.len(),
{
    if keys.len() > 0 {
        let fewer = keys.drop_last();
        let last = keys.len() - 1;
        law_every_stored_key_is_read(fewer);
        assert forall|i: int| 0 <= i < fewer.len() implies #[trigger] fewer[i] == keys[i] by {}
        match keys_read(fewer) {
            Ok(ids) => {
                assert forall|i: int| 0 <= i < last implies key_reads(#[trigger] keys[i], ids[i]) by {
                    assert(key_reads(fewer[i], ids[i]));
                }
                match keys_read(keys) {
                    Ok(all) => {
                        assert forall|i: int| 0 <= i < keys.len() implies key_reads(
                            #[trigger] keys[i],
                            all[i],
                        ) by {
                            if i < last {
                                assert(key_reads(keys[i], ids[i]));
                            }
                        }
                    },
                    Err(complaint) => {
                        assert forall|j: int| 0 <= j < last implies key_is_good(
                            #[trigger] keys[j],
                        ) by {
                            assert(key_reads(keys[j], ids[j]));
                        }
                        assert(first_bad_key(keys, last, complaint));
                    },
                }
            },
            Err(complaint) => {
                let i = choose|i: int| #[trigger] first_bad_key(fewer, i, complaint);
                assert forall|j: int| 0 <= j < i implies key_is_good(#[trigger] keys[j]) by {
                    assert(key_is_good(fewer[j]));
                }
                assert(keys[i] == fewer[i]);
                assert(first_bad_key(keys, i, complaint));
            },
        }
    }
}

/// The detail of an event gives its id and those of all of its parents, what every
/// backend did, the attestations if they are known, where the event comes from, and the
/// properties that still stand as it wrote them.
pub proof fn law_a_detail_tells_of_its_event(detail: Detail, input: DagNodeInput)
    requires
        is_detail(detail, input),
    ensures
        detail.event@ == base64(input.id@),
        detail.parents@.len() == input.parent@.len(),
        forall|i: int|
            0 <= i < input.parent@.len() ==> (#[trigger] detail.parents@[i]).0@ == base64(
                input.parent@[i],
            ) && detail.parents@[i].1@ == last_six(base64(input.parent@[i])),
        detail.ops@.len() == input.badges@.len(),
        forall|i: int|
            0 <= i < input.badges@.len() ==> (#[trigger] detail.ops@[i]).0@
                == input.badges@[i].backend@ && detail.ops@[i].1@ == " "@
                + input.badges@[i].summary@ + " · "@ + decimal(input.badges@[i].op_count as nat)
                + " op(s) · "@ + decimal(input.badges@[i].bytes as nat) + " B"@,
        input.attestations is None ==> detail.attested@
            == "unknown (payload fetched without attestations)"@,
        input.attestations == Some(0usize) ==> detail.attested@ == "0 (no attestations recorded)"@,
        input.attestations matches Some(n) && n > 0 ==> detail.attested@ == decimal(
            input.attestations.unwrap() as nat,
        ),
        input.fetched ==> detail.source@ == "fetched via host"@,
        !input.fetched ==> detail.source@ == "local storage"@,
        detail.wrote_current is None <==> input.wrote_current@.len() == 0,
        detail.wrote_current matches Some(text) ==> text@ == joined(
            texts(input.wrote_current@),
            ", "@,
        ) + " (LWW values still standing)"@,
{
}

/// The detail that is shown is that of the selected event: the first node of that id.
pub proof fn law_the_selected_event_is_described(
    detail: Detail,
    nodes: Seq<DagNodeVis>,
    id: Seq<u8>,
)
    requires
        describes(detail, nodes, id),
    ensures
        exists|at: int|
            0 <= at < nodes.len() && (#[trigger] nodes[at]).input.id@ == id && is_detail(
                detail,
                nodes[at].input,
            ) && forall|i: int| 0 <= i < at ==> (#[trigger] nodes[i]).input.id@ != id,
        detail.event@ == base64(id),
{
    let at = choose|at: int| #[trigger]
        node_at(nodes, id, at) && is_detail(detail, nodes[at].input);
    assert(nodes[at].input.id@ == id);
}

/// Where the events of a history come from: how many there are, and how many of them
/// were stored and fetched where any were fetched.
pub proof fn law_a_history_says_where_it_comes_from(total: nat, local: nat, fetched: nat)
    ensures
        fetched == 0 ==> provenance_line(total, local, fetched) == decimal(total)
            + " events · all local"@,
        fetched > 0 ==> provenance_line(total, local, fetched) == decimal(total) + " events · "@
            + decimal(local) + " local · "@ + decimal(fetched) + " fetched from peer"@,
{
}

// ---------------------------------------------------------------------------
// The picture
// ---------------------------------------------------------------------------

/// A node's title gives its id, what it builds on, and what every backend did, one after
/// the other.
pub proof fn law_a_title_tells_of_its_event(input: DagNodeInput)
    ensures
        title_of(input) == base64(input.id@) + "\nparents: "@ + (if input.parent@.len() > 0 {
            clock_short(input.parent@)
        } else {
            "(none — creation event)"@
        }) + "\n"@ + joined(
            Seq::new(
                input.badges@.len(),
                |i: int|
                    input.badges@[i].backend@ + " "@ + input.badges@[i].summary@ + " ("@ + decimal(
                        input.badges@[i].bytes as nat,
                    ) + " B)"@,
            ),
            " · "@,
        ),
{
    assert(Seq::new(input.badges@.len(), |i: int| title_badge(input.badges@[i])) =~= Seq::new(
        input.badges@.len(),
        |i: int|
            input.badges@[i].backend@ + " "@ + input.badges@[i].summary@ + " ("@ + decimal(
                input.badges@[i].bytes as nat,
            ) + " B)"@,
    ));
}

/// What is left out is said, with how much it is, and only where something is.
pub proof fn law_what_is_left_out_is_said(n: nat)
    ensures
        n > 0 ==> omitted_note(n) == decimal(n) + " older events not rendered. "@,
        n > 0 ==> dangling_note(n) == decimal(n)
            + " parent reference(s) not fetched (older history)."@,
        omitted_note(0).len() == 0,
        dangling_note(0).len() == 0,
{
}

// ---------------------------------------------------------------------------
// The feed
// ---------------------------------------------------------------------------

/// A feed row in words: it opens the entity that it is about, if it is about one; it says
/// what kind of change it is, which query it comes from and where the head is; and it
/// lists every event with its id, what it builds on, and what every backend did.
pub proof fn law_a_row_reads_as_it_is(row: FeedRow, entry: FeedEntry)
    requires
        is_feed_row(row, entry),
    ensures
        row.target is Some <==> entry.entity_id is Some,
        entry.entity_id matches Some(id) ==> row.target.unwrap()@ == (entry.collection@, id@)
            && row.summary@ == entry.collection@ + "/"@ + last_six(base64(id@)),
        entry.entity_id is None ==> row.summary@ == entry.collection@ + " · "@ + decimal(
            entry.count as nat,
        ) + " item(s)"@,
        row.kind@ == entry.kind@,
        row.kind_class@ == "xrayKind xrayKind-"@ + entry.kind@,
        row.query@ == entry.query_label@,
        row.head is None <==> entry.head_short@.len() == 0,
        row.head matches Some(head) ==> head@ == entry.head_short@,
        row.events@.len() == entry.events@.len(),
        forall|i: int|
            0 <= i < entry.events@.len() ==> (#[trigger] row.events@[i]).id@ == base64(
                entry.events@[i].id@,
            ) && row.events@[i].short@ == last_six(base64(entry.events@[i].id@))
                && row.events@[i].parent@ == (if entry.events@[i].parent@.len() == 0 {
                "creation"@
            } else {
                "← "@ + clock_short(entry.events@[i].parent@)
            }) && row.events@[i].ops@ == ops_line(entry.events@[i].badges@),
{
}

/// What the backends did is said of every one of them, in order.
pub proof fn law_every_backend_is_named(badges: Seq<OpBadge>)
    ensures
        badges.len() == 0 ==> ops_line(badges) == "no ops"@,
        badges.len() > 0 ==> ops_line(badges) == joined(
            Seq::new(
                badges.len(),
                |i: int|
                    badges[i].backend@ + " "@ + badges[i].summary@ + " · "@ + decimal(
                        badges[i].bytes as nat,
                    ) + " B"@,
            ),
            "  "@,
        ),
{
    assert(Seq::new(badges.len(), |i: int| badge_line(badges[i])) =~= Seq::new(
        badges.len(),
        |i: int|
            badges[i].backend@ + " "@ + badges[i].summary@ + " · "@ + decimal(
                badges[i].bytes as nat,
            ) + " B"@,
    ));
}

// ---------------------------------------------------------------------------
// The cards
// ---------------------------------------------------------------------------

/// The node card says what was reported, one label for each fact in a fixed order, and
/// nothing of what was not.
pub proof fn law_silence_is_no_answer(status: NodeStatus)
    ensures
        ({
            let chips = chips_of(status);
            let durable: nat = if status.durable is Some {
                1
            } else {
                0
            };
            let policy: nat = if status.policy_ready is Some {
                1
            } else {
                0
            };
            let system: nat = if status.system_ready is Some {
                1
            } else {
                0
            };
            &&& chips.len() == durable + policy + system
            &&& status.durable matches Some(yes) ==> chips[0] == (if yes {
                "durable"@
            } else {
                "ephemeral"@
            }, false)
            &&& status.policy_ready matches Some(yes) ==> chips[durable as int] == (if yes {
                "policy ready"@
            } else {
                "policy syncing…"@
            }, yes)
            &&& status.system_ready matches Some(yes) ==> chips[(durable + policy) as int] == (
                if yes {
                    "system ready"@
                } else {
                    "joining system…"@
                },
                yes,
            )
        }),
{
}

/// The connection card says the state as it is, or that there is none.
pub proof fn law_the_connection_is_said_as_it_is(state: Seq<char>)
    ensures
        state.len() > 0 ==> status_line(state) == state,
        state.len() == 0 ==> status_line(state) == "not reported"@,
{
}

/// An entered id asks for its entity, or says what is wrong with it, and only an empty
/// input asks for nothing.
pub proof fn law_an_entered_id_is_answered(submission: Submission, id: Seq<char>)
    requires
        is_submission(submission, id),
    ensures
        submission is Nothing <==> id.len() == 0,
        submission matches Submission::Open(entity) ==> entity_id_read(id) == Ok::<
            Seq<u8>,
            Seq<char>,
        >(entity@),
        submission matches Submission::Invalid(text) ==> (entity_id_read(id) matches Err(why)
            && text@ == "not a valid entity id: "@ + why),
        id.len() > 0 && entity_id_read(id) is Ok ==> submission is Open,
        id.len() > 0 && entity_id_read(id) is Err ==> submission is Invalid,
{
    if let Submission::Invalid(text) = submission {
        let complaint = choose|complaint: Seq<char>| #[trigger]
            complains(entity_id_read(id), complaint) && text@ == "not a valid entity id: "@
                + complaint;
        assert(complains(entity_id_read(id), complaint));
    }
}

// ---------------------------------------------------------------------------
// The switch
// ---------------------------------------------------------------------------

/// What has to be done as x-ray is switched: the taps of all queries, in or out, unless
/// they are that way; then the connection, if it is to be subscribed to or dropped; then
/// the flag.
pub proof fn law_what_the_switch_asks_for(
    bus: BusModel,
    on: bool,
    current: Option<Seq<char>>,
    actions: Seq<Action>,
)
    requires
        taps_then(actions, bus, on, set_actions(bus, on, current)),
    ensures
        ({
            let taps: int = if bus.tapping == on {
                0
            } else {
                bus.entries.len() as int
            };
            let connects: int = if on && current is Some && !bus.conn_live || !on && bus.conn_live {
                1
            } else {
                0
            };
            &&& actions.len() == taps + connects + 1
            &&& forall|i: int|
                0 <= i < taps ==> match #[trigger] actions[i] {
                    Action::InstallTap(id) => on && id@ == bus.entries[i].id,
                    Action::DropTap(id) => !on && id@ == bus.entries[i].id,
                    _ => false,
                }
            &&& connects == 1 ==> actions[taps] == if on {
                Action::SubscribeConnection
            } else {
                Action::DropConnection
            }
            &&& actions.last() == if on {
                Action::StoreFlag
            } else {
                Action::RemoveFlag
            }
        }),
{
    let taps = tap_count(bus, on) as int;
    let rest = set_actions(bus, on, current);
    assert(actions.skip(taps) == rest);
    assert forall|i: int| 0 <= i < rest.len() implies actions[taps + i] == rest[i] by {
        assert(actions.skip(taps)[i] == actions[taps + i]);
    }
    assert(actions.last() == rest.last()) by {
        assert(actions[taps + (rest.len() - 1)] == rest[rest.len() - 1]);
    }
    assert forall|i: int| 0 <= i < taps implies match #[trigger] actions[i] {
        Action::InstallTap(id) => on && id@ == bus.entries[i].id,
        Action::DropTap(id) => !on && id@ == bus.entries[i].id,
        _ => false,
    } by {
        assert(actions.take(taps)[i] == actions[i]);
    }
    if rest.len() == 2 {
        assert(actions[taps + 0] == rest[0]);
    }
}

/// The switch decides what is shown: turning x-ray on keeps the inspector's target, and
/// turning it off drops it. X-ray starts on if it was stored or is asked for, and only
/// then.
pub proof fn law_the_switch_decides(
    state: StateModel,
    stored: Option<Seq<char>>,
    requested: Option<Seq<char>>,
)
    ensures
        state_set(state, true).enabled,
        state_set(state, true).inspect == state.inspect,
        !state_set(state, false).enabled,
        state_set(state, false).inspect is None,
        asks_for_xray(stored, requested) <==> stored == Some(seq!['1']) || requested == Some(
            seq!['1'],
        ),
{
    reveal_strlit("1");
    assert("1"@ =~= seq!['1']);
}

} // verus!
