//! What holds of how properties are traced to the events that wrote them.

use vstd::prelude::*;

use crate::host::{
    installed_after, is_listed, is_provenance, written_by, Installed, XRay,
};
use crate::ids::EventId;
use crate::text::texts;

verus! {

/// The places of what an event wrote: in rising order, and no others.
proof fn lemma_written_by(
    props: Seq<Seq<char>>,
    writers: Seq<Option<Seq<u8>>>,
    event: Seq<u8>,
) -> (places: Seq<int>)
    requires
        props.len() <= writers.len(),
    ensures
        places.len() == written_by(props, writers, event).len(),
        forall|m: int|
            0 <= m < places.len() ==> 0 <= #[trigger] places[m] < props.len() && writers[places[m]]
                == Some(event) && written_by(props, writers, event)[m] == props[places[m]],
        forall|m: int, n: int| 0 <= m < n < places.len() ==> places[m] < places[n],
        forall|i: int|
            0 <= i < props.len() && #[trigger] writers[i] == Some(event) ==> places.contains(i),
    decreases props.len(),
{
    if props.len() == 0 {
        Seq::empty()
    } else {
        let last = props.len() - 1;
        let before = lemma_written_by(props.drop_last(), writers, event);
        if writers[last] == Some(event) {
            let places = before.push(last);
            assert forall|i: int|
                0 <= i < props.len() && #[trigger] writers[i] == Some(event) implies places.contains(
                i,
            ) by {
                if i < last {
                    let k = choose|k: int| 0 <= k < before.len() && before[k] == i;
                    assert(places[k] == i);
                } else {
                    assert(places[before.len() as int] == i);
                }
            }
            places
        } else {
            before
        }
    }
}

/// Every property with a known writer is listed under that writer, and under no other
/// event.
pub proof fn law_a_property_is_under_its_writer(
    map: Seq<(EventId, Vec<String>)>,
    props: Seq<Seq<char>>,
    writers: Seq<Option<Seq<u8>>>,
    i: int,
)
    requires
        is_provenance(map, props, writers),
        props.len() == writers.len(),
        0 <= i < props.len(),
        writers[i] is Some,
    ensures
        exists|k: int|
            0 <= k < map.len() && Some((#[trigger] map[k]).0@) == writers[i] && texts(
                map[k].1@,
            ).contains(props[i]),
        forall|k: int, n: int|
            0 <= k < map.len() && 0 <= n < map.len() && Some((#[trigger] map[k]).0@) == writers[i]
                && Some((#[trigger] map[n]).0@) == writers[i] ==> k == n,
{
    let event = writers[i].unwrap();
    let places = lemma_written_by(props, writers, event);
    let m = choose|m: int| 0 <= m < places.len() && places[m] == i;
    assert(written_by(props, writers, event)[m] == props[i]);
    assert(is_listed(map, event));
    let k = choose|k: int| 0 <= k < map.len() && (#[trigger] map[k]).0@ == event;
    assert(texts(map[k].1@)[m] == props[i]);
    assert forall|k: int, n: int|
        0 <= k < map.len() && 0 <= n < map.len() && Some((#[trigger] map[k]).0@) == writers[i]
            && Some((#[trigger] map[n]).0@) == writers[i] implies k == n by {
        if k < n {
            assert(map[k].0@ != map[n].0@);
        }
        if n < k {
            assert(map[n].0@ != map[k].0@);
        }
    }
}

/// What is listed under an event was written by it.
pub proof fn law_only_written_properties_are_listed(
    map: Seq<(EventId, Vec<String>)>,
    props: Seq<Seq<char>>,
    writers: Seq<Option<Seq<u8>>>,
    k: int,
    m: int,
)
    requires
        is_provenance(map, props, writers),
        props.len() == writers.len(),
        0 <= k < map.len(),
        0 <= m < map[k].1@.len(),
    ensures
        exists|i: int|
            0 <= i < props.len() && writers[i] == Some(map[k].0@) && #[trigger] props[i]
                == map[k].1@[m]@,
{
    let places = lemma_written_by(props, writers, map[k].0@);
    assert(texts(map[k].1@)[m] == map[k].1@[m]@);
    assert(props[places[m]] == map[k].1@[m]@);
}

/// An event's properties keep the order in which they were asked for, and each is
/// listed as often as it was asked for: none is lost, none is added.
pub proof fn law_properties_keep_their_order(
    map: Seq<(EventId, Vec<String>)>,
    props: Seq<Seq<char>>,
    writers: Seq<Option<Seq<u8>>>,
    k: int,
) -> (places: Seq<int>)
    requires
        is_provenance(map, props, writers),
        props.len() == writers.len(),
        0 <= k < map.len(),
    ensures
        places.len() == map[k].1@.len(),
        places.len() > 0,
        forall|m: int|
            0 <= m < places.len() ==> 0 <= #[trigger] places[m] < props.len() && map[k].1@[m]@
                == props[places[m]] && writers[places[m]] == Some(map[k].0@),
        forall|m: int, n: int| 0 <= m < n < places.len() ==> places[m] < places[n],
        forall|i: int|
            0 <= i < props.len() && #[trigger] writers[i] == Some(map[k].0@) ==> places.contains(i),
{
    let places = lemma_written_by(props, writers, map[k].0@);
    assert(texts(map[k].1@).len() == map[k].1@.len());
    assert forall|m: int| 0 <= m < places.len() implies 0 <= #[trigger] places[m] < props.len()
        && map[k].1@[m]@ == props[places[m]] && writers[places[m]] == Some(map[k].0@) by {
        assert(texts(map[k].1@)[m] == map[k].1@[m]@);
    }
    places
}

/// What the panel reads is the host and the connection state of whoever came first.
pub proof fn law_an_installation_is_read_as_given<H, C>(
    slot: Option<Installed<H, C>>,
    xray: XRay<H, C>,
)
    ensures
        slot is None ==> (installed_after(slot, xray) matches Some(read) && read.host
            == xray.spec_host() && read.connection == xray.spec_connection()),
        slot is Some ==> installed_after(slot, xray) == slot,
{
}

} // verus!
