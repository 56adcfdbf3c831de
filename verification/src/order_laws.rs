//! In which order the events of a history are taken and drawn.

use vstd::prelude::*;

use crate::plan::{ascending_where, column, columns, lemma_ascending_where, plan, Graph};
use crate::plan_laws::{lemma_roots_sound, lemma_step_sound, sound};

verus! {

/// Of what waits, the last one was free to be taken last, and of those that were free at
/// the same time it is the one with the largest id.
pub open spec fn waits_in_order(g: Graph, taken: Seq<int>, waiting: Seq<int>) -> bool {
    forall|a: int, b: int|
        0 <= a < b < waiting.len() ==> later(
            g,
            taken,
            #[trigger] waiting[b],
            #[trigger] waiting[a],
        )
}

/// Whenever `d` was free to be taken, `c` was too; and if they were free at the same
/// times, `d` has the larger id.
pub open spec fn later(g: Graph, taken: Seq<int>, d: int, c: int) -> bool {
    &&& forall|n: int|
        0 <= n <= taken.len() ==> (g.ready(#[trigger] taken.take(n), d) ==> g.ready(
            taken.take(n),
            c,
        ))
    &&& (forall|n: int|
        0 <= n <= taken.len() ==> (g.ready(#[trigger] taken.take(n), c) ==> g.ready(
            taken.take(n),
            d,
        ))) ==> c < d
}

proof fn lemma_ascending(n: nat, pick: spec_fn(int) -> bool)
    ensures
        forall|a: int, b: int|
            0 <= a < b < ascending_where(n, pick).len() ==> ascending_where(n, pick)[a]
                < ascending_where(n, pick)[b],
    decreases n,
{
    lemma_ascending_where(n, pick);
    if n > 0 {
        lemma_ascending((n - 1) as nat, pick);
        lemma_ascending_where((n - 1) as nat, pick);
        let shorter = ascending_where((n - 1) as nat, pick);
        let all = ascending_where(n, pick);
        assert forall|a: int, b: int| 0 <= a < b < all.len() implies all[a] < all[b] by {
            if b == shorter.len() {
                assert(shorter.contains(shorter[a]));
            }
        }
    }
}

/// What is free stays free.
proof fn lemma_ready_stays(g: Graph, taken: Seq<int>, n: int, m: int, c: int)
    requires
        0 <= n <= m <= taken.len(),
        g.ready(taken.take(n), c),
    ensures
        g.ready(taken.take(m), c),
{
    assert forall|p: int| #[trigger] g.edge(p, c) implies taken.take(m).contains(p) by {
        let k = choose|k: int| 0 <= k < n && taken.take(n)[k] == p;
        assert(taken.take(m)[k] == p);
    }
}

proof fn lemma_step_in_order(g: Graph, taken: Seq<int>, waiting: Seq<int>)
    requires
        sound(g, taken, waiting),
        waits_in_order(g, taken, waiting),
        waiting.len() > 0,
    ensures
        waits_in_order(
            g,
            taken.push(waiting.last()),
            waiting.drop_last() + g.released(taken, waiting.last()),
        ),
{
    let i = waiting.last();
    let more = taken.push(i);
    let rest = waiting.drop_last();
    let pick = |c: int| g.edge(i, c) && g.ready(taken.push(i), c);
    let released = g.released(taken, i);
    let next = rest + released;
    assert(released == ascending_where(g.size(), pick));
    lemma_ascending(g.size(), pick);
    lemma_ascending_where(g.size(), pick);
    assert(more.take(taken.len() as int) =~= taken);
    assert(more.take(more.len() as int) =~= more);
    assert forall|n: int| 0 <= n <= taken.len() implies #[trigger] more.take(n) == taken.take(
        n,
    ) by {
        assert(more.take(n) =~= taken.take(n));
    }
    assert(waiting.contains(i)) by {
        assert(waiting[waiting.len() - 1] == i);
    }
    assert(!taken.contains(i));
    assert forall|a: int, b: int| 0 <= a < b < next.len() implies later(
        g,
        more,
        #[trigger] next[b],
        #[trigger] next[a],
    ) by {
        let c = next[a];
        let d = next[b];
        // what waited before is free by now
        if a < rest.len() {
            assert(waiting[a] == c);
            assert(waiting.contains(c));
            assert(0 <= waiting[a] < g.size());
            assert(g.ready(taken, c));
            assert(taken.take(taken.len() as int) =~= taken);
            lemma_ready_stays(g, more, taken.len() as int, more.len() as int, c);
        } else {
            assert(released[a - rest.len()] == c);
            assert(released.contains(c));
            assert(pick(c));
        }
        if b < rest.len() {
            assert(waiting[b] == d);
            assert(waiting.contains(d));
            assert(0 <= waiting[b] < g.size());
            assert(later(g, taken, waiting[b], waiting[a]));
            assert(g.ready(taken, d));
            lemma_ready_stays(g, more, taken.len() as int, more.len() as int, d);
            assert forall|n: int| 0 <= n <= more.len() implies (g.ready(#[trigger] more.take(n), d)
                ==> g.ready(more.take(n), c)) by {
                if n <= taken.len() {
                    assert(more.take(n) == taken.take(n));
                }
            }
            if forall|n: int|
                0 <= n <= more.len() ==> (g.ready(#[trigger] more.take(n), c) ==> g.ready(
                    more.take(n),
                    d,
                )) {
                assert forall|n: int| 0 <= n <= taken.len() implies (g.ready(
                    #[trigger] taken.take(n),
                    c,
                ) ==> g.ready(taken.take(n), d)) by {
                    assert(more.take(n) == taken.take(n));
                }
            }
        } else {
            assert(released[b - rest.len()] == d);
            assert(released.contains(d));
            assert(pick(d));
            // nothing just released was free before
            assert forall|x: int, n: int|
                pick(x) && 0 <= n <= taken.len() implies !g.ready(#[trigger] more.take(n), x)
                && #[trigger] pick(x) by {
                assert(more.take(n) == taken.take(n));
                assert(g.edge(i, x));
                if taken.take(n).contains(i) {
                    let k = choose|k: int| 0 <= k < n && taken.take(n)[k] == i;
                    assert(taken[k] == i);
                }
            }
            assert forall|n: int| 0 <= n <= more.len() implies (g.ready(#[trigger] more.take(n), d)
                ==> g.ready(more.take(n), c)) by {
                if n <= taken.len() {
                    assert(!g.ready(more.take(n), d));
                } else {
                    assert(more.take(n) =~= more);
                }
            }
            if a < rest.len() {
                assert(g.ready(more.take(taken.len() as int), c));
                assert(!g.ready(more.take(taken.len() as int), d));
            }
        }
    }
}

/// The order starts with what was taken so far.
proof fn lemma_run_prefix(g: Graph, taken: Seq<int>, waiting: Seq<int>, steps: nat)
    ensures
        taken.len() <= g.run(taken, waiting, steps).len(),
        g.run(taken, waiting, steps).take(taken.len() as int) == taken,
    decreases steps,
{
    if steps == 0 || waiting.len() == 0 {
        assert(taken.take(taken.len() as int) =~= taken);
    } else {
        let i = waiting.last();
        let more = taken.push(i);
        lemma_run_prefix(g, more, waiting.drop_last() + g.released(taken, i), (steps - 1) as nat);
        let all = g.run(taken, waiting, steps);
        assert(all.take(taken.len() as int) =~= all.take(more.len() as int).take(
            taken.len() as int,
        ));
        assert(more.take(taken.len() as int) =~= taken);
    }
}

proof fn lemma_next_taken(
    g: Graph,
    taken: Seq<int>,
    waiting: Seq<int>,
    steps: nat,
    k: int,
    c: int,
)
    requires
        sound(g, taken, waiting),
        waits_in_order(g, taken, waiting),
        taken.len() <= k < g.run(taken, waiting, steps).len(),
        0 <= c < g.size(),
        g.ready(g.run(taken, waiting, steps).take(k), c),
        !g.run(taken, waiting, steps).take(k).contains(c),
    ensures
        ({
            let all = g.run(taken, waiting, steps);
            all[k] == c || later(g, all.take(k), all[k], c)
        }),
    decreases steps,
{
    let all = g.run(taken, waiting, steps);
    if steps == 0 || waiting.len() == 0 {
    } else {
        let i = waiting.last();
        let more = taken.push(i);
        let next = waiting.drop_last() + g.released(taken, i);
        lemma_step_sound(g, taken, waiting);
        lemma_step_in_order(g, taken, waiting);
        lemma_run_prefix(g, more, next, (steps - 1) as nat);
        if k == taken.len() {
            lemma_run_prefix(g, taken, waiting, steps);
            assert(all.take(more.len() as int)[k] == i);
            assert(all[k] == i);
            assert(waiting.contains(c));
            let a = choose|a: int| 0 <= a < waiting.len() && waiting[a] == c;
            if a < waiting.len() - 1 {
                assert(later(g, taken, waiting[waiting.len() - 1], waiting[a]));
            }
        } else {
            lemma_next_taken(g, more, next, (steps - 1) as nat, k, c);
        }
    }
}

/// Of the events that could be taken next, the one is taken that became free last, and
/// of those that became free together the one with the largest id: a branch is followed
/// to its end before another one is taken up.
pub proof fn law_a_branch_is_followed_to_its_end(g: Graph, k: int, c: int)
    requires
        0 <= k < plan(g).order.len(),
        0 <= c < g.size(),
        g.ready(plan(g).order.take(k), c),
        !plan(g).order.take(k).contains(c),
    ensures
        ({
            let order = plan(g).order;
            let d = order[k];
            ||| d == c
            ||| {
                &&& forall|n: int|
                    0 <= n <= k && g.ready(#[trigger] order.take(n), d) ==> g.ready(
                        order.take(n),
                        c,
                    )
                &&& (exists|n: int|
                    0 <= n <= k && g.ready(#[trigger] order.take(n), c) && !g.ready(
                        order.take(n),
                        d,
                    )) || c < d
            }
        }),
{
    lemma_roots_sound(g);
    let roots = g.roots();
    let pick = |c: int| g.ready(Seq::empty(), c);
    assert(roots == ascending_where(g.size(), pick));
    lemma_ascending(g.size(), pick);
    lemma_ascending_where(g.size(), pick);
    assert forall|a: int, b: int| 0 <= a < b < roots.len() implies later(
        g,
        Seq::empty(),
        #[trigger] roots[b],
        #[trigger] roots[a],
    ) by {
        assert(roots.contains(roots[a]) && roots.contains(roots[b]));
        assert(Seq::<int>::empty().take(0) =~= Seq::<int>::empty());
        assert(pick(roots[a]) && pick(roots[b]));
    }
    lemma_next_taken(g, Seq::empty(), roots, g.size(), k, c);
    let order = plan(g).order;
    let d = order[k];
    if d != c {
        let before = order.take(k);
        assert(later(g, before, d, c));
        assert forall|n: int| 0 <= n <= k && g.ready(#[trigger] order.take(n), d) implies g.ready(
            order.take(n),
            c,
        ) by {
            assert(before.take(n) =~= order.take(n));
        }
        if !(exists|n: int|
            0 <= n <= k && g.ready(#[trigger] order.take(n), c) && !g.ready(order.take(n), d)) {
            assert forall|n: int| 0 <= n <= before.len() implies (g.ready(
                #[trigger] before.take(n),
                c,
            ) ==> g.ready(before.take(n), d)) by {
                assert(before.take(n) =~= order.take(n));
            }
        }
    }
}

/// The events of one layer are drawn in the order in which they were taken.
proof fn lemma_column_order(order: Seq<int>, layer: Seq<int>, t: int) -> (places: Seq<int>)
    ensures
        places.len() == column(order, layer, t).len(),
        forall|a: int|
            0 <= a < places.len() ==> 0 <= #[trigger] places[a] < order.len()
                && order[places[a]] == column(order, layer, t)[a] && layer[order[places[a]]] == t,
        forall|a: int, b: int| 0 <= a < b < places.len() ==> places[a] < places[b],
    decreases order.len(),
{
    if order.len() == 0 {
        Seq::empty()
    } else {
        let before = lemma_column_order(order.drop_last(), layer, t);
        if layer[order.last()] == t {
            before.push(order.len() - 1)
        } else {
            before
        }
    }
}

proof fn lemma_columns_order(
    order: Seq<int>,
    layer: Seq<int>,
    from: int,
    to: int,
) -> (places: Seq<int>)
    ensures
        places.len() == columns(order, layer, from, to).len(),
        forall|a: int|
            0 <= a < places.len() ==> 0 <= #[trigger] places[a] < order.len()
                && order[places[a]] == columns(order, layer, from, to)[a]
                && layer[order[places[a]]] < to,
        forall|a: int, b: int|
            0 <= a < b < places.len() ==> layer[order[#[trigger] places[a]]]
                < layer[order[#[trigger] places[b]]] || (layer[order[places[a]]]
                == layer[order[places[b]]] && places[a] < places[b]),
    decreases to - from,
{
    if to <= from {
        Seq::empty()
    } else {
        let before = lemma_columns_order(order, layer, from, to - 1);
        let last = lemma_column_order(order, layer, to - 1);
        before + last
    }
}

/// The events are drawn column by column, and within a column in the order in which
/// they were taken.
pub proof fn law_drawn_column_by_column(g: Graph) -> (places: Seq<int>)
    ensures
        places.len() == plan(g).drawn.len(),
        forall|a: int|
            0 <= a < places.len() ==> 0 <= #[trigger] places[a] < plan(g).order.len() && plan(
                g,
            ).order[places[a]] == plan(g).drawn[a],
        forall|a: int, b: int|
            0 <= a < b < places.len() ==> plan(g).layer[plan(g).order[#[trigger] places[a]]] < plan(
                g,
            ).layer[plan(g).order[#[trigger] places[b]]] || (plan(g).layer[plan(
                g,
            ).order[places[a]]] == plan(g).layer[plan(g).order[places[b]]] && places[a]
                < places[b]),
{
    let p = plan(g);
    lemma_columns_order(p.order, p.layer, p.keep, p.top + 1)
}

} // verus!
