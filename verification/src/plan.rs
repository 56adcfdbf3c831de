//! Where the events of a history go: which order they are taken in, which
//! layer (column) and which lane (row) each one gets, and which links are
//! drawn. This is the mathematics of the layout; [`crate::dag`] computes it.

use vstd::prelude::*;

verus! {

/// Beyond this many events only the newest layers are drawn.
pub const MAX_RENDER: usize = 200;

/// A history: the id of every event, and the ids each one names as parents.
/// An id may be named without being present.
pub struct Graph {
    pub ids: Seq<Seq<u8>>,
    pub parents: Seq<Seq<Seq<u8>>>,
}

/// The last place of `id`, or -1 where it does not occur.
pub open spec fn index_of(ids: Seq<Seq<u8>>, id: Seq<u8>) -> int
    decreases ids.len(),
{
    if ids.len() == 0 {
        -1
    } else if ids.last() == id {
        ids.len() - 1
    } else {
        index_of(ids.drop_last(), id)
    }
}

pub proof fn lemma_index_of(ids: Seq<Seq<u8>>, id: Seq<u8>)
    ensures
        -1 <= index_of(ids, id) < ids.len(),
        index_of(ids, id) >= 0 ==> ids[index_of(ids, id)] == id,
        forall|q: int| index_of(ids, id) < q < ids.len() ==> #[trigger] ids[q] != id,
    decreases ids.len(),
{
    if ids.len() > 0 && ids.last() != id {
        lemma_index_of(ids.drop_last(), id);
        assert forall|q: int| index_of(ids, id) < q < ids.len() implies #[trigger] ids[q] != id by {
            if q < ids.len() - 1 {
                assert(ids.drop_last()[q] == ids[q]);
            }
        }
    }
}

/// The numbers below `n` that satisfy `pick`, smallest first.
pub open spec fn ascending_where(n: nat, pick: spec_fn(int) -> bool) -> Seq<int>
    decreases n,
{
    if n == 0 {
        Seq::empty()
    } else if pick(n - 1) {
        ascending_where((n - 1) as nat, pick).push(n - 1)
    } else {
        ascending_where((n - 1) as nat, pick)
    }
}

pub proof fn lemma_ascending_where(n: nat, pick: spec_fn(int) -> bool)
    ensures
        forall|c: int|
            #[trigger] ascending_where(n, pick).contains(c) <==> 0 <= c < n && pick(c),
        ascending_where(n, pick).no_duplicates(),
    decreases n,
{
    if n > 0 {
        let shorter = ascending_where((n - 1) as nat, pick);
        lemma_ascending_where((n - 1) as nat, pick);
        let list = ascending_where(n, pick);
        assert forall|c: int| #[trigger] list.contains(c) <==> 0 <= c < n && pick(c) by {
            assert(shorter.contains(c) <==> 0 <= c < n - 1 && pick(c));
            if pick(n - 1) {
                if list.contains(c) {
                    let k = choose|k: int| 0 <= k < list.len() && list[k] == c;
                    if k < shorter.len() {
                        assert(shorter[k] == c);
                    }
                }
                if shorter.contains(c) {
                    let k = choose|k: int| 0 <= k < shorter.len() && shorter[k] == c;
                    assert(list[k] == c);
                }
                assert(list[shorter.len() as int] == n - 1);
            }
        }
        if pick(n - 1) {
            assert(!shorter.contains(n - 1));
            assert forall|i: int, j: int|
                0 <= i < list.len() && 0 <= j < list.len() && i != j implies list[i] != list[j] by {
                if i == shorter.len() {
                    assert(shorter.contains(shorter[j]));
                }
                if j == shorter.len() {
                    assert(shorter.contains(shorter[i]));
                }
            }
        }
    }
}

impl Graph {
    pub open spec fn wf(self) -> bool {
        self.ids.len() == self.parents.len()
    }

    /// How many events there are.
    pub open spec fn size(self) -> nat {
        self.ids.len()
    }

    /// Event `c` names the present event `p` as a parent. Where an id occurs
    /// twice, its last event stands for it.
    pub open spec fn edge(self, p: int, c: int) -> bool {
        &&& 0 <= p < self.size()
        &&& 0 <= c < self.size()
        &&& self.parents[c].contains(self.ids[p])
        &&& index_of(self.ids, self.ids[p]) == p
    }

    /// Every present parent of `c` has been taken.
    pub open spec fn ready(self, taken: Seq<int>, c: int) -> bool {
        forall|p: int| #[trigger] self.edge(p, c) ==> taken.contains(p)
    }

    /// The events that wait for nothing.
    pub open spec fn roots(self) -> Seq<int> {
        ascending_where(self.size(), |c: int| self.ready(Seq::empty(), c))
    }

    /// The children of `i` that wait for nothing more once `i` is taken.
    pub open spec fn released(self, taken: Seq<int>, i: int) -> Seq<int> {
        ascending_where(self.size(), |c: int| self.edge(i, c) && self.ready(taken.push(i), c))
    }

    /// Take the waiting events one by one, the latest first; what each releases
    /// waits next. At most `steps` are taken.
    pub open spec fn run(self, taken: Seq<int>, waiting: Seq<int>, steps: nat) -> Seq<int>
        decreases steps,
    {
        if steps == 0 || waiting.len() == 0 {
            taken
        } else {
            let i = waiting.last();
            self.run(
                taken.push(i),
                waiting.drop_last() + self.released(taken, i),
                (steps - 1) as nat,
            )
        }
    }

    /// The order the events are taken in: every event after its parents. What
    /// hangs on a cycle is never taken.
    pub open spec fn order(self) -> Seq<int> {
        self.run(Seq::empty(), self.roots(), self.size())
    }

    /// `layer` after event `i` pushed each of its children past itself.
    pub open spec fn relaxed(self, layer: Seq<int>, i: int) -> Seq<int> {
        Seq::new(
            self.size(),
            |c: int|
                if self.edge(i, c) && layer[c] < layer[i] + 1 {
                    layer[i] + 1
                } else {
                    layer[c]
                },
        )
    }

    /// The layer of every event once those in `taken` pushed their children.
    pub open spec fn layers(self, taken: Seq<int>) -> Seq<int>
        decreases taken.len(),
    {
        if taken.len() == 0 {
            Seq::new(self.size(), |c: int| 0int)
        } else {
            self.relaxed(self.layers(taken.drop_last()), taken.last())
        }
    }
}

/// How many of the listed events are in layer `t` or a later one.
pub open spec fn count_from(order: Seq<int>, layer: Seq<int>, t: int) -> nat
    decreases order.len(),
{
    if order.len() == 0 {
        0
    } else {
        count_from(order.drop_last(), layer, t) + if layer[order.last()] >= t {
            1nat
        } else {
            0nat
        }
    }
}

/// Layer `t` is the last one that still leaves a full picture.
pub open spec fn is_cut(order: Seq<int>, layer: Seq<int>, t: int) -> bool {
    &&& 0 <= t
    &&& count_from(order, layer, t) >= MAX_RENDER
    &&& count_from(order, layer, t + 1) < MAX_RENDER
}

/// The first layer that is drawn, of `size` events.
pub open spec fn keep_from(size: nat, order: Seq<int>, layer: Seq<int>) -> int {
    if size > MAX_RENDER && order.len() >= MAX_RENDER {
        choose|t: int| is_cut(order, layer, t)
    } else {
        0
    }
}

/// The last layer in use.
pub open spec fn top_layer(order: Seq<int>, layer: Seq<int>) -> int
    decreases order.len(),
{
    if order.len() == 0 {
        0
    } else {
        let rest = top_layer(order.drop_last(), layer);
        if layer[order.last()] > rest {
            layer[order.last()]
        } else {
            rest
        }
    }
}

/// The listed events of layer `t`, in the listed order.
pub open spec fn column(order: Seq<int>, layer: Seq<int>, t: int) -> Seq<int>
    decreases order.len(),
{
    if order.len() == 0 {
        Seq::empty()
    } else if layer[order.last()] == t {
        column(order.drop_last(), layer, t).push(order.last())
    } else {
        column(order.drop_last(), layer, t)
    }
}

/// The listed events of the layers `from..to`, layer by layer.
pub open spec fn columns(order: Seq<int>, layer: Seq<int>, from: int, to: int) -> Seq<int>
    decreases to - from,
{
    if to <= from {
        Seq::empty()
    } else {
        columns(order, layer, from, to - 1) + column(order, layer, to - 1)
    }
}

/// The lane the last drawn event of that id has, if one was drawn.
pub open spec fn lane_of(g: Graph, drawn: Seq<int>, lanes: Seq<int>, id: Seq<u8>) -> Option<int>
    decreases drawn.len(),
{
    if drawn.len() == 0 {
        None
    } else if g.ids[drawn.last()] == id {
        Some(lanes[drawn.len() - 1])
    } else {
        lane_of(g, drawn.drop_last(), lanes, id)
    }
}

/// The smallest lane that a listed parent has.
pub open spec fn lowest(
    g: Graph,
    drawn: Seq<int>,
    lanes: Seq<int>,
    parents: Seq<Seq<u8>>,
) -> Option<int>
    decreases parents.len(),
{
    if parents.len() == 0 {
        None
    } else {
        match (
            lowest(g, drawn, lanes, parents.drop_last()),
            lane_of(g, drawn, lanes, parents.last()),
        ) {
            (Some(a), Some(b)) => if b < a {
                Some(b)
            } else {
                Some(a)
            },
            (Some(a), None) => Some(a),
            (None, b) => b,
        }
    }
}

/// The lane an event asks for: the smallest one of its parents, or the first.
pub open spec fn wanted(g: Graph, drawn: Seq<int>, lanes: Seq<int>, i: int) -> int {
    match lowest(g, drawn, lanes, g.parents[i]) {
        Some(lane) => lane,
        None => 0,
    }
}

/// Some event drawn in layer `t` already has lane `m`.
pub open spec fn occupied(layer: Seq<int>, drawn: Seq<int>, lanes: Seq<int>, t: int, m: int) -> bool {
    exists|k: int| 0 <= k < drawn.len() && layer[#[trigger] drawn[k]] == t && lanes[k] == m
}

/// `m` is the first lane from `from` on that is free in layer `t`.
pub open spec fn is_first_free(
    layer: Seq<int>,
    drawn: Seq<int>,
    lanes: Seq<int>,
    t: int,
    from: int,
    m: int,
) -> bool {
    &&& from <= m
    &&& !occupied(layer, drawn, lanes, t, m)
    &&& forall|x: int| from <= x < m ==> #[trigger] occupied(layer, drawn, lanes, t, x)
}

/// The lane of each drawn event: the first free one from where it asks.
pub open spec fn lanes(g: Graph, layer: Seq<int>, drawn: Seq<int>) -> Seq<int>
    decreases drawn.len(),
{
    if drawn.len() == 0 {
        Seq::empty()
    } else {
        let before = drawn.drop_last();
        let given = lanes(g, layer, before);
        let i = drawn.last();
        given.push(
            choose|m: int|
                is_first_free(layer, before, given, layer[i], wanted(g, before, given, i), m),
        )
    }
}

/// The largest lane given out.
pub open spec fn top_lane(lanes: Seq<int>) -> int
    decreases lanes.len(),
{
    if lanes.len() == 0 {
        0
    } else {
        let rest = top_lane(lanes.drop_last());
        if lanes.last() > rest {
            lanes.last()
        } else {
            rest
        }
    }
}

/// The drawn links into event `c` from the parents listed: (parent, child).
pub open spec fn links_into(
    g: Graph,
    layer: Seq<int>,
    keep: int,
    c: int,
    parents: Seq<Seq<u8>>,
) -> Seq<(int, int)>
    decreases parents.len(),
{
    if parents.len() == 0 {
        Seq::empty()
    } else {
        let rest = links_into(g, layer, keep, c, parents.drop_last());
        let p = index_of(g.ids, parents.last());
        if p >= 0 && layer[p] >= keep {
            rest.push((p, c))
        } else {
            rest
        }
    }
}

/// The drawn links, child by child.
pub open spec fn links(g: Graph, layer: Seq<int>, keep: int, drawn: Seq<int>) -> Seq<(int, int)>
    decreases drawn.len(),
{
    if drawn.len() == 0 {
        Seq::empty()
    } else {
        let c = drawn.last();
        links(g, layer, keep, drawn.drop_last()) + links_into(g, layer, keep, c, g.parents[c])
    }
}

/// How many of the ids are not present.
pub open spec fn absent(g: Graph, parents: Seq<Seq<u8>>) -> nat
    decreases parents.len(),
{
    if parents.len() == 0 {
        0
    } else {
        absent(g, parents.drop_last()) + if index_of(g.ids, parents.last()) < 0 {
            1nat
        } else {
            0nat
        }
    }
}

/// How many parent references of the first `n` events point at nothing present.
pub open spec fn dangling(g: Graph, n: nat) -> nat
    decreases n,
{
    if n == 0 {
        0
    } else {
        dangling(g, (n - 1) as nat) + absent(g, g.parents[n - 1])
    }
}

/// The whole plan of a picture.
pub struct Plan {
    /// The events that can be placed, each after its parents.
    pub order: Seq<int>,
    /// The layer of every event.
    pub layer: Seq<int>,
    /// The first layer drawn.
    pub keep: int,
    /// The last layer in use.
    pub top: int,
    /// The events drawn, layer by layer.
    pub drawn: Seq<int>,
    /// The lane of each drawn event.
    pub lanes: Seq<int>,
}

/// The plan of a history.
pub open spec fn plan(g: Graph) -> Plan {
    let order = g.order();
    let layer = g.layers(order);
    let keep = keep_from(g.size(), order, layer);
    let top = top_layer(order, layer);
    let drawn = columns(order, layer, keep, top + 1);
    Plan { order, layer, keep, top, drawn, lanes: lanes(g, layer, drawn) }
}

} // verus!
