//! The master switch and the inspector's target: what is observed while x-ray is
//! on, and what is torn down and forgotten as it goes off.

use vstd::prelude::*;

use crate::bus::{
    are_tap_actions, cleared, logging, silent, switched, Action, BusHandle, BusModel,
};
use crate::ids::{CollectionId, EntityId};
use crate::text::same_text;

verus! {

// ---------------------------------------------------------------------------
// Types
// ---------------------------------------------------------------------------

/// What the inspector drawer is pointed at.
#[derive(Debug, PartialEq)]
pub struct InspectTarget {
    pub collection: CollectionId,
    pub entity_id: EntityId,
}

impl View for InspectTarget {
    type V = (Seq<char>, Seq<u8>);

    open spec fn view(&self) -> (Seq<char>, Seq<u8>) {
        (self.collection@, self.entity_id@)
    }
}

impl Clone for InspectTarget {
    fn clone(&self) -> (target: InspectTarget)
        ensures
            target@ == self@,
    {
        InspectTarget { collection: self.collection.clone(), entity_id: self.entity_id }
    }
}

/// The x-ray user interface's state.
///
/// X-ray is one mode: on shows everything (panel, chips, inspector affordances),
/// off shows nothing.
#[derive(Debug, PartialEq)]
pub struct XRayState {
    /// Master switch.
    pub enabled: bool,
    /// Current inspector target, if any.
    pub inspect: Option<InspectTarget>,
}

/// The state of the user interface, as its contracts speak of it.
pub struct StateModel {
    pub enabled: bool,
    /// Collection and entity id of the inspector's target.
    pub inspect: Option<(Seq<char>, Seq<u8>)>,
}

impl View for XRayState {
    type V = StateModel;

    open spec fn view(&self) -> StateModel {
        StateModel {
            enabled: self.enabled,
            inspect: match self.inspect {
                Some(target) => Some(target@),
                None => None,
            },
        }
    }
}

// ---------------------------------------------------------------------------
// Model
// ---------------------------------------------------------------------------

/// A connection state that may not be reported, as a text.
pub open spec fn reported(current: Option<&str>) -> Option<Seq<char>> {
    match current {
        Some(line) => Some(line@),
        None => None,
    }
}

/// The bus while x-ray observes.
pub open spec fn observing(bus: BusModel, current: Option<Seq<char>>, now: nat) -> BusModel {
    logging(switched(bus, true), current, now)
}

/// The bus once x-ray no longer observes.
pub open spec fn unobserving(bus: BusModel) -> BusModel {
    silent(switched(bus, false))
}

/// How many taps have to be put in or taken away as the switch is set.
pub open spec fn tap_count(bus: BusModel, on: bool) -> nat {
    if bus.tapping == on {
        0
    } else {
        bus.entries.len()
    }
}

/// `actions` starts with what the tap switch asks for, and goes on with `rest`.
pub open spec fn taps_then(
    actions: Seq<Action>,
    bus: BusModel,
    on: bool,
    rest: Seq<Action>,
) -> bool {
    let taps = tap_count(bus, on) as int;
    &&& actions.len() == taps + rest.len()
    &&& are_tap_actions(actions.take(taps), bus, on)
    &&& actions.skip(taps) == rest
}

/// What has to be done with the connection as observing starts.
pub open spec fn connect_actions(bus: BusModel, current: Option<Seq<char>>) -> Seq<Action> {
    if current is Some && !bus.conn_live {
        seq![Action::SubscribeConnection]
    } else {
        Seq::empty()
    }
}

/// What has to be done with the connection as observing stops.
pub open spec fn disconnect_actions(bus: BusModel) -> Seq<Action> {
    if bus.conn_live {
        seq![Action::DropConnection]
    } else {
        Seq::empty()
    }
}

/// The bus after the master switch was set.
pub open spec fn bus_set(
    bus: BusModel,
    on: bool,
    current: Option<Seq<char>>,
    now: nat,
) -> BusModel {
    if on {
        observing(bus, current, now)
    } else {
        cleared(unobserving(bus))
    }
}

/// The user interface after the master switch was set.
pub open spec fn state_set(state: StateModel, on: bool) -> StateModel {
    StateModel {
        enabled: on,
        inspect: if on {
            state.inspect
        } else {
            None
        },
    }
}

/// What has to be done, after the taps, as the master switch is set: the
/// connection, and the flag that survives a reload.
pub open spec fn set_actions(
    bus: BusModel,
    on: bool,
    current: Option<Seq<char>>,
) -> Seq<Action> {
    if on {
        connect_actions(bus, current).push(Action::StoreFlag)
    } else {
        disconnect_actions(bus).push(Action::RemoveFlag)
    }
}

// ---------------------------------------------------------------------------
// The switch
// ---------------------------------------------------------------------------

/// A new state: off, and the inspector closed.
pub fn state() -> (state: XRayState)
    ensures
        state@ == (StateModel { enabled: false, inspect: None }),
{
    XRayState { enabled: false, inspect: None }
}

impl XRayState {
    /// Flip the master switch. Enabling starts the observation machinery (query
    /// taps and connection log); disabling tears all of it down, closes the
    /// inspector and forgets what was seen. `current` is the connection state that
    /// the application reports, if it reports any. The result lists what has to be
    /// done, in order.
    pub fn set_enabled(
        &mut self,
        bus: &mut BusHandle,
        on: bool,
        current: Option<&str>,
        now: u64,
    ) -> (actions: Vec<Action>)
        ensures
            final(self)@ == state_set(old(self)@, on),
            final(bus)@ == bus_set(old(bus)@, on, reported(current), now as nat),
            taps_then(
                actions@,
                old(bus)@,
                on,
                set_actions(old(bus)@, on, reported(current)),
            ),
    {
        let ghost before = bus@;
        let ghost taps = tap_count(before, on) as int;
        self.enabled = on;
        if on {
            let mut actions = start_observing(bus, current, now);
            let ghost so_far = actions@;
            actions.push(Action::StoreFlag);
            assert(actions@.take(taps) =~= so_far.take(taps));
            assert(actions@.skip(taps) =~= so_far.skip(taps).push(Action::StoreFlag));
            actions
        } else {
            self.inspect = None;
            let mut actions = stop_observing(bus);
            bus.clear_history();
            let ghost so_far = actions@;
            actions.push(Action::RemoveFlag);
            assert(actions@.take(taps) =~= so_far.take(taps));
            assert(actions@.skip(taps) =~= so_far.skip(taps).push(Action::RemoveFlag));
            actions
        }
    }

    /// The toggle switch: a plain binary between on and off.
    pub fn toggle(&mut self, bus: &mut BusHandle, current: Option<&str>, now: u64) -> (actions: Vec<
        Action,
    >)
        ensures
            final(self)@ == state_set(old(self)@, !old(self)@.enabled),
            final(bus)@ == bus_set(old(bus)@, !old(self)@.enabled, reported(current), now as nat),
            taps_then(
                actions@,
                old(bus)@,
                !old(self)@.enabled,
                set_actions(old(bus)@, !old(self)@.enabled, reported(current)),
            ),
    {
        let on = !self.enabled;
        self.set_enabled(bus, on, current, now)
    }

    /// Point the drawer at an entity. This turns x-ray on if it was off.
    pub fn open_inspector(
        &mut self,
        bus: &mut BusHandle,
        collection: CollectionId,
        entity_id: EntityId,
        current: Option<&str>,
        now: u64,
    ) -> (actions: Vec<Action>)
        ensures
            final(self)@ == (StateModel {
                enabled: true,
                inspect: Some((collection@, entity_id@)),
            }),
            old(self)@.enabled ==> final(bus)@ == old(bus)@ && actions@ == Seq::<Action>::empty(),
            !old(self)@.enabled ==> {
                &&& final(bus)@ == bus_set(old(bus)@, true, reported(current), now as nat)
                &&& taps_then(
                    actions@,
                    old(bus)@,
                    true,
                    set_actions(old(bus)@, true, reported(current)),
                )
            },
    {
        let actions = if !self.enabled {
            self.set_enabled(bus, true, current, now)
        } else {
            Vec::new()
        };
        self.inspect = Some(InspectTarget { collection, entity_id });
        actions
    }

    /// Close the drawer.
    pub fn close_inspector(&mut self)
        ensures
            final(self)@ == (StateModel { inspect: None, ..old(self)@ }),
    {
        self.inspect = None;
    }

    /// Restore the persisted or requested state as the launcher is mounted.
    pub fn restore(
        &mut self,
        bus: &mut BusHandle,
        stored: Option<&str>,
        requested: Option<&str>,
        current: Option<&str>,
        now: u64,
    ) -> (actions: Vec<Action>)
        ensures
            ({
                let turns_on = asks_for_xray(reported(stored), reported(requested))
                    && !old(self)@.enabled;
                &&& final(self)@ == if turns_on {
                    state_set(old(self)@, true)
                } else {
                    old(self)@
                }
                &&& final(bus)@ == if turns_on {
                    bus_set(old(bus)@, true, reported(current), now as nat)
                } else {
                    old(bus)@
                }
                &&& if turns_on {
                    taps_then(
                        actions@,
                        old(bus)@,
                        true,
                        set_actions(old(bus)@, true, reported(current)),
                    )
                } else {
                    actions@ == Seq::<Action>::empty()
                }
            }),
    {
        if initially_enabled(stored, requested) && !self.enabled {
            self.set_enabled(bus, true, current, now)
        } else {
            Vec::new()
        }
    }
}

/// Install the changeset taps on every registered query and start recording
/// connection states. Running it again while observation is live changes nothing.
pub fn start_observing(bus: &mut BusHandle, current: Option<&str>, now: u64) -> (actions: Vec<
    Action,
>)
    ensures
        final(bus)@ == observing(old(bus)@, reported(current), now as nat),
        taps_then(actions@, old(bus)@, true, connect_actions(old(bus)@, reported(current))),
{
    let ghost before = bus@;
    let mut actions = bus.set_tapping(true);
    let ghost taps = actions@;
    if bus.start_connection_log(current, now) {
        actions.push(Action::SubscribeConnection);
    }
    assert(actions@.take(taps.len() as int) =~= taps);
    assert(actions@.skip(taps.len() as int) =~= connect_actions(before, reported(current)));
    actions
}

/// Drop every handle that x-ray holds on the running application: the changeset
/// tap of each registered query, and the connection subscription. What was seen
/// stays, and so does the switch: taking the panel away is not turning it off.
pub fn stop_observing(bus: &mut BusHandle) -> (actions: Vec<Action>)
    ensures
        final(bus)@ == unobserving(old(bus)@),
        taps_then(actions@, old(bus)@, false, disconnect_actions(old(bus)@)),
{
    let ghost before = bus@;
    let mut actions = bus.set_tapping(false);
    let ghost taps = actions@;
    if bus.stop_connection_log() {
        actions.push(Action::DropConnection);
    }
    assert(actions@.take(taps.len() as int) =~= taps);
    assert(actions@.skip(taps.len() as int) =~= disconnect_actions(before));
    actions
}

/// Observation follows the switch: the launcher runs this as it mounts and
/// whenever the switch changes.
pub fn observe(bus: &mut BusHandle, enabled: bool, current: Option<&str>, now: u64) -> (actions: Vec<
    Action,
>)
    ensures
        final(bus)@ == if enabled {
            observing(old(bus)@, reported(current), now as nat)
        } else {
            unobserving(old(bus)@)
        },
        taps_then(
            actions@,
            old(bus)@,
            enabled,
            if enabled {
                connect_actions(old(bus)@, reported(current))
            } else {
                disconnect_actions(old(bus)@)
            },
        ),
{
    if enabled {
        start_observing(bus, current, now)
    } else {
        stop_observing(bus)
    }
}

// ---------------------------------------------------------------------------
// Keys and settings
// ---------------------------------------------------------------------------

/// The key under which the switch is stored, and the parameter that asks for it.
pub const STORAGE_KEY: &'static str = "xray";

/// Whether the stored flag or the requested one is set.
pub open spec fn asks_for_xray(stored: Option<Seq<char>>, requested: Option<Seq<char>>) -> bool {
    stored == Some("1"@) || requested == Some("1"@)
}

/// Whether x-ray starts on: the stored flag is "1", or the address asks for it.
pub fn initially_enabled(stored: Option<&str>, requested: Option<&str>) -> (yes: bool)
    ensures
        yes == asks_for_xray(reported(stored), reported(requested)),
{
    let kept = match stored {
        Some(flag) => same_text(flag, "1"),
        None => false,
    };
    let asked = match requested {
        Some(flag) => same_text(flag, "1"),
        None => false,
    };
    kept || asked
}

/// Whether a key press is the toggle: Alt and the physical X key, pressed anew.
pub fn is_toggle_key(alt: bool, repeat: bool, code: &str) -> (yes: bool)
    ensures
        yes == (alt && !repeat && code@ == "KeyX"@),
{
    alt && !repeat && same_text(code, "KeyX")
}

/// Whether a key press closes the drawer: Escape, unless something else took it.
pub fn is_close_key(key: &str, taken: bool) -> (yes: bool)
    ensures
        yes == (key@ == "Escape"@ && !taken),
{
    same_text(key, "Escape") && !taken
}

} // verus!
