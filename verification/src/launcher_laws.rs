//! What holds of the master switch.

use vstd::prelude::*;

use crate::bus::{consistent, logging, silent, switched, Action, BusModel};
use crate::bus_laws::{after, law_the_bus_stays_consistent, Happening};
use crate::launcher::{
    bus_set, observing, set_actions, state_set, tap_count, taps_then, unobserving, StateModel,
};

verus! {

/// The switch decides: once it is set, the queries are tapped exactly if it is on,
/// and the bus stays consistent.
pub proof fn law_observation_follows_the_switch(
    bus: BusModel,
    on: bool,
    current: Option<Seq<char>>,
    now: nat,
)
    requires
        consistent(bus),
    ensures
        bus_set(bus, on, current, now).tapping == on,
        forall|i: int|
            0 <= i < bus_set(bus, on, current, now).entries.len() ==> (
            #[trigger] bus_set(bus, on, current, now).entries[i]).tapped == on,
        consistent(bus_set(bus, on, current, now)),
        consistent(observing(bus, current, now)),
        consistent(unobserving(bus)),
{
    let line = match current {
        Some(line) => line,
        None => Seq::empty(),
    };
    law_the_bus_stays_consistent(
        bus,
        Seq::empty(),
        Seq::empty(),
        Seq::empty(),
        0,
        true,
        Seq::empty(),
        line,
        now,
    );
    law_the_bus_stays_consistent(
        bus,
        Seq::empty(),
        Seq::empty(),
        Seq::empty(),
        0,
        false,
        Seq::empty(),
        line,
        now,
    );
    law_the_bus_stays_consistent(
        switched(bus, true),
        Seq::empty(),
        Seq::empty(),
        Seq::empty(),
        0,
        true,
        Seq::empty(),
        line,
        now,
    );
    law_the_bus_stays_consistent(
        switched(bus, false),
        Seq::empty(),
        Seq::empty(),
        Seq::empty(),
        0,
        false,
        Seq::empty(),
        line,
        now,
    );
    law_the_bus_stays_consistent(
        unobserving(bus),
        Seq::empty(),
        Seq::empty(),
        Seq::empty(),
        0,
        false,
        Seq::empty(),
        line,
        now,
    );
}

/// What happens to the bus as the master switch is set.
pub open spec fn set_steps(on: bool, current: Option<Seq<char>>, now: nat) -> Seq<Happening> {
    if on {
        seq![Happening::Switch { on: true }, Happening::StartLog { current, now }]
    } else {
        seq![Happening::Switch { on: false }, Happening::StopLog, Happening::Clear]
    }
}

/// The master switch, the mounting of the panel and its removal do to a bus what its
/// own operations do, one after the other: whatever holds of every bus after any of
/// these holds after them too.
pub proof fn law_the_switch_goes_through_the_bus(
    happenings: Seq<Happening>,
    on: bool,
    current: Option<Seq<char>>,
    now: nat,
)
    ensures
        after(happenings + set_steps(on, current, now)) == bus_set(
            after(happenings),
            on,
            current,
            now,
        ),
        after(happenings + set_steps(true, current, now)) == observing(
            after(happenings),
            current,
            now,
        ),
        after(happenings + set_steps(false, current, now).drop_last()) == unobserving(
            after(happenings),
        ),
{
    let first = happenings.push(Happening::Switch { on: true });
    let second = first.push(Happening::StartLog { current, now });
    assert(second =~= happenings + set_steps(true, current, now));
    assert(second.drop_last() =~= first);
    assert(first.drop_last() =~= happenings);
    assert(after(first) == switched(after(happenings), true));
    assert(after(second) == observing(after(happenings), current, now));
    let off = happenings.push(Happening::Switch { on: false });
    let silenced = off.push(Happening::StopLog);
    let forgotten = silenced.push(Happening::Clear);
    assert(forgotten =~= happenings + set_steps(false, current, now));
    assert(silenced =~= happenings + set_steps(false, current, now).drop_last());
    assert(forgotten.drop_last() =~= silenced);
    assert(silenced.drop_last() =~= off);
    assert(off.drop_last() =~= happenings);
    assert(after(off) == switched(after(happenings), false));
    assert(after(silenced) == unobserving(after(happenings)));
    assert(after(forgotten) == bus_set(after(happenings), false, current, now));
}

/// Turning x-ray off forgets everything it saw and closes the inspector: no feed,
/// no connection log, no subscription, no target. The registered queries stay.
pub proof fn law_turning_off_forgets(
    state: StateModel,
    bus: BusModel,
    current: Option<Seq<char>>,
    now: nat,
)
    ensures
        state_set(state, false) == (StateModel { enabled: false, inspect: None }),
        bus_set(bus, false, current, now).feed.len() == 0,
        bus_set(bus, false, current, now).conn_log.len() == 0,
        !bus_set(bus, false, current, now).conn_live,
        bus_set(bus, false, current, now).entries.len() == bus.entries.len(),
        forall|i: int|
            0 <= i < bus.entries.len() ==> (#[trigger] bus_set(
                bus,
                false,
                current,
                now,
            ).entries[i]).id == bus.entries[i].id,
{
}

/// Turning x-ray on twice is harmless: the second time no tap is put in anew, and the
/// registered queries and the feed stay as they are, whatever connection state is
/// reported meanwhile. Only the flag is stored again; and where the application
/// reported no connection state before and does now, its log starts.
pub proof fn law_turning_on_twice_is_harmless(
    state: StateModel,
    bus: BusModel,
    first: Option<Seq<char>>,
    second: Option<Seq<char>>,
    then: nat,
    now: nat,
    actions: Seq<Action>,
)
    requires
        ({
            let on = bus_set(bus, true, first, then);
            taps_then(actions, on, true, set_actions(on, true, second))
        }),
    ensures
        state_set(state_set(state, true), true) == state_set(state, true),
        ({
            let on = bus_set(bus, true, first, then);
            let again = bus_set(on, true, second, now);
            if on.conn_live || second is None {
                again == on && actions == seq![Action::StoreFlag]
            } else {
                again == logging(on, second, now) && again.entries == on.entries && again.feed
                    == on.feed && actions == seq![Action::SubscribeConnection, Action::StoreFlag]
            }
        }),
        first is Some ==> bus_set(bus, true, first, then).conn_live,
{
    let on = bus_set(bus, true, first, then);
    assert(tap_count(on, true) == 0);
    assert(actions.skip(0) =~= actions);
    if on.conn_live || second is None {
        assert(set_actions(on, true, second) =~= seq![Action::StoreFlag]);
    } else {
        assert(set_actions(on, true, second) =~= seq![
            Action::SubscribeConnection,
            Action::StoreFlag,
        ]);
    }
}

/// Toggling twice leaves the switch as it was, and every query registered, tapped if
/// x-ray is on. What was seen before x-ray went off is not brought back, and neither
/// is the inspector's target: one of the two toggles turned x-ray off.
pub proof fn law_toggling_twice(
    state: StateModel,
    bus: BusModel,
    first: Option<Seq<char>>,
    second: Option<Seq<char>>,
    then: nat,
    now: nat,
)
    requires
        consistent(bus),
    ensures
        state_set(state_set(state, !state.enabled), state.enabled) == (StateModel {
            enabled: state.enabled,
            inspect: None,
        }),
        ({
            let back = bus_set(
                bus_set(bus, !state.enabled, first, then),
                state.enabled,
                second,
                now,
            );
            &&& back.entries == switched(bus, state.enabled).entries
            &&& back.tapping == state.enabled
            &&& back.next_id == bus.next_id
            &&& back.next_seq == bus.next_seq
            &&& back.feed.len() == 0
            &&& state.enabled ==> back.conn_log.len() == if second is Some {
                1nat
            } else {
                0nat
            }
            &&& !state.enabled ==> back.conn_log.len() == 0
        }),
{
    let back = bus_set(bus_set(bus, !state.enabled, first, then), state.enabled, second, now);
    let same = switched(bus, state.enabled).entries;
    assert forall|i: int| 0 <= i < same.len() implies back.entries[i] == same[i] by {
        assert(bus.entries[i].tapped == bus.tapping);
    }
    assert(back.entries =~= same);
}

/// Taking the panel away and mounting it again loses nothing that was seen: the
/// registered queries and the feed are as before, tapped again. The connection log
/// goes on with the state that is then reported, and stays as it was if that is the
/// state it had come to.
pub proof fn law_a_remount_keeps_what_was_seen(
    bus: BusModel,
    current: Option<Seq<char>>,
    now: nat,
)
    requires
        consistent(bus),
        bus.tapping,
    ensures
        observing(unobserving(bus), current, now) == logging(
            silent(bus),
            current,
            now,
        ),
        observing(unobserving(bus), current, now).entries == bus.entries,
        observing(unobserving(bus), current, now).feed == bus.feed,
        current == Some(bus.conn_state) && bus.conn_log.len() > 0 ==> observing(
            unobserving(bus),
            current,
            now,
        ) == (BusModel { conn_live: true, ..bus }),
{
    let back = switched(unobserving(bus), true);
    assert forall|i: int| 0 <= i < bus.entries.len() implies back.entries[i] == bus.entries[i] by {
        assert(bus.entries[i].tapped);
    }
    assert(back.entries =~= bus.entries);
    assert(back =~= silent(bus));
}

} // verus!
