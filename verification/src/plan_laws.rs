//! What every plan of a history satisfies.

use vstd::prelude::*;

use crate::plan::{
    ascending_where, column, columns, count_from, is_cut, is_first_free, keep_from, lane_of, lanes,
    lemma_ascending_where, lowest, occupied, plan, top_layer, wanted, Graph, MAX_RENDER,
};

verus! {

/// Distinct numbers below `n` are at most `n` many.
pub proof fn lemma_distinct_below(s: Seq<int>, n: nat)
    requires
        s.no_duplicates(),
        forall|k: int| 0 <= k < s.len() ==> 0 <= #[trigger] s[k] < n,
    ensures
        s.len() <= n,
{
    s.unique_seq_to_set();
    let all = vstd::set_lib::set_int_range(0, n as int);
    vstd::set_lib::lemma_int_range(0, n as int);
    assert forall|x: int| s.to_set().contains(x) implies all.contains(x) by {
        let k = choose|k: int| 0 <= k < s.len() && s[k] == x;
        assert(0 <= s[k] < n);
    }
    vstd::set_lib::lemma_len_subset(s.to_set(), all);
}

/// What holds while events are taken one by one.
pub open spec fn sound(g: Graph, taken: Seq<int>, waiting: Seq<int>) -> bool {
    &&& forall|k: int| 0 <= k < taken.len() ==> 0 <= #[trigger] taken[k] < g.size()
    &&& forall|k: int| 0 <= k < waiting.len() ==> 0 <= #[trigger] waiting[k] < g.size()
    &&& taken.no_duplicates()
    &&& waiting.no_duplicates()
    &&& forall|c: int| #[trigger] taken.contains(c) ==> !waiting.contains(c)
    &&& forall|c: int|
        0 <= c < g.size() ==> (#[trigger] g.ready(taken, c) <==> taken.contains(c)
            || waiting.contains(c))
    &&& forall|k: int| 0 <= k < taken.len() ==> g.ready(taken.take(k), #[trigger] taken[k])
}

pub proof fn lemma_roots_sound(g: Graph)
    ensures
        sound(g, Seq::empty(), g.roots()),
{
    let pick = |c: int| g.ready(Seq::empty(), c);
    lemma_ascending_where(g.size(), pick);
    let roots = g.roots();
    assert(roots == ascending_where(g.size(), pick));
    assert forall|k: int| 0 <= k < roots.len() implies 0 <= #[trigger] roots[k] < g.size() by {
        assert(roots.contains(roots[k]));
    }
    assert forall|c: int| 0 <= c < g.size() implies (#[trigger] g.ready(Seq::empty(), c)
        <==> Seq::<int>::empty().contains(c) || roots.contains(c)) by {
        assert(roots.contains(c) <==> pick(c));
    }
}

pub proof fn lemma_push_contains(s: Seq<int>, x: int)
    ensures
        forall|c: int| #[trigger] s.push(x).contains(c) <==> s.contains(c) || c == x,
{
    assert forall|c: int| #[trigger] s.push(x).contains(c) <==> s.contains(c) || c == x by {
        if s.contains(c) {
            let k = choose|k: int| 0 <= k < s.len() && s[k] == c;
            assert(s.push(x)[k] == c);
        }
        assert(s.push(x)[s.len() as int] == x);
    }
}

pub proof fn lemma_add_contains<A>(a: Seq<A>, b: Seq<A>)
    ensures
        forall|c: A| #[trigger] (a + b).contains(c) <==> a.contains(c) || b.contains(c),
{
    assert forall|c: A| #[trigger] (a + b).contains(c) <==> a.contains(c) || b.contains(c) by {
        if a.contains(c) {
            let k = choose|k: int| 0 <= k < a.len() && a[k] == c;
            assert((a + b)[k] == c);
        }
        if b.contains(c) {
            let k = choose|k: int| 0 <= k < b.len() && b[k] == c;
            assert((a + b)[a.len() + k] == c);
        }
        if (a + b).contains(c) {
            let k = choose|k: int| 0 <= k < (a + b).len() && (a + b)[k] == c;
            if k < a.len() {
                assert(a[k] == c);
            } else {
                assert(b[k - a.len()] == c);
            }
        }
    }
}

/// Taking the latest waiting event keeps everything sound.
pub proof fn lemma_step_sound(g: Graph, taken: Seq<int>, waiting: Seq<int>)
    requires
        sound(g, taken, waiting),
        waiting.len() > 0,
    ensures
        sound(
            g,
            taken.push(waiting.last()),
            waiting.drop_last() + g.released(taken, waiting.last()),
        ),
{
    let i = waiting.last();
    let more = taken.push(i);
    let rest = waiting.drop_last();
    let released = g.released(taken, i);
    let next = rest + released;
    let pick = |c: int| g.edge(i, c) && g.ready(taken.push(i), c);
    lemma_ascending_where(g.size(), pick);
    assert(released == ascending_where(g.size(), pick));
    lemma_push_contains(taken, i);
    lemma_add_contains(rest, released);
    assert(waiting.contains(i));
    assert(!taken.contains(i));
    assert(waiting =~= rest.push(i));
    lemma_push_contains(rest, i);
    assert(!rest.contains(i)) by {
        if rest.contains(i) {
            let k = choose|k: int| 0 <= k < rest.len() && rest[k] == i;
            assert(waiting[k] == i);
        }
    }
    assert forall|c: int| released.contains(c) implies !taken.contains(c) && !waiting.contains(c) by {
        assert(pick(c));
        assert(g.edge(i, c));
        assert(!g.ready(taken, c));
    }
    assert forall|k: int| 0 <= k < next.len() implies 0 <= #[trigger] next[k] < g.size() by {
        if k >= rest.len() {
            assert(released.contains(released[k - rest.len()]));
        } else {
            assert(next[k] == waiting[k]);
        }
    }
    assert(more.no_duplicates()) by {
        assert forall|a: int, b: int|
            0 <= a < more.len() && 0 <= b < more.len() && a != b implies more[a] != more[b] by {
            if a == taken.len() {
                assert(taken.contains(taken[b]));
            }
            if b == taken.len() {
                assert(taken.contains(taken[a]));
            }
        }
    }
    assert(next.no_duplicates()) by {
        assert forall|a: int, b: int|
            0 <= a < next.len() && 0 <= b < next.len() && a != b implies next[a] != next[b] by {
            if a < rest.len() && b < rest.len() {
                assert(next[a] == waiting[a] && next[b] == waiting[b]);
            } else if a < rest.len() {
                assert(rest.contains(rest[a]));
                assert(released.contains(released[b - rest.len()]));
                assert(next[a] == rest[a]);
                assert(next[b] == released[b - rest.len()]);
            } else if b < rest.len() {
                assert(rest.contains(rest[b]));
                assert(released.contains(released[a - rest.len()]));
                assert(next[b] == rest[b]);
                assert(next[a] == released[a - rest.len()]);
            } else {
                assert(next[a] == released[a - rest.len()]);
                assert(next[b] == released[b - rest.len()]);
            }
        }
    }
    assert forall|c: int| #[trigger] more.contains(c) implies !next.contains(c) by {
        if c == i {
            if released.contains(c) {
                assert(!waiting.contains(c));
            }
        } else {
            assert(taken.contains(c));
            assert(!waiting.contains(c));
            if released.contains(c) {
                assert(!taken.contains(c));
            }
        }
    }
    assert forall|c: int| 0 <= c < g.size() implies (#[trigger] g.ready(more, c)
        <==> more.contains(c) || next.contains(c)) by {
        assert(g.ready(taken, c) <==> taken.contains(c) || waiting.contains(c));
        if g.ready(taken, c) {
            assert(g.ready(more, c));
        } else if g.ready(more, c) {
            assert(g.edge(i, c)) by {
                let p = choose|p: int| #[trigger] g.edge(p, c) && !taken.contains(p);
                assert(more.contains(p));
            }
            assert(pick(c));
            assert(released.contains(c));
        }
        if released.contains(c) {
            assert(pick(c));
        }
    }
    assert forall|k: int| 0 <= k < more.len() implies g.ready(more.take(k), #[trigger] more[k]) by {
        if k < taken.len() {
            assert(more.take(k) =~= taken.take(k));
            assert(more[k] == taken[k]);
        } else {
            assert(more.take(k) =~= taken);
            assert(g.ready(taken, i));
        }
    }
}

/// Enough steps empty the waiting list.
pub proof fn lemma_run_sound(g: Graph, taken: Seq<int>, waiting: Seq<int>, steps: nat)
    requires
        sound(g, taken, waiting),
        steps + taken.len() >= g.size(),
    ensures
        sound(g, g.run(taken, waiting, steps), Seq::empty()),
    decreases steps,
{
    if waiting.len() == 0 {
        assert(waiting =~= Seq::<int>::empty());
    } else {
        lemma_step_sound(g, taken, waiting);
        let i = waiting.last();
        lemma_distinct_below(taken.push(i), g.size());
        lemma_run_sound(
            g,
            taken.push(i),
            waiting.drop_last() + g.released(taken, i),
            (steps - 1) as nat,
        );
    }
}

/// The order lists each placeable event once, after all of its present parents,
/// and leaves out only what still waits for a parent that is never placed.
pub proof fn lemma_order(g: Graph)
    ensures
        sound(g, g.order(), Seq::empty()),
        g.order().len() <= g.size(),
{
    lemma_roots_sound(g);
    lemma_run_sound(g, Seq::empty(), g.roots(), g.size());
    lemma_distinct_below(g.order(), g.size());
}

/// Distinct events, each after all of its present parents.
pub open spec fn topological(g: Graph, taken: Seq<int>) -> bool {
    &&& forall|k: int| 0 <= k < taken.len() ==> 0 <= #[trigger] taken[k] < g.size()
    &&& taken.no_duplicates()
    &&& forall|k: int| 0 <= k < taken.len() ==> g.ready(taken.take(k), #[trigger] taken[k])
}

/// The layer of an event is the length of the longest chain of taken ancestors
/// behind it: past every taken parent, and just past one of them.
pub proof fn lemma_layers(g: Graph, taken: Seq<int>)
    requires
        topological(g, taken),
    ensures
        g.layers(taken).len() == g.size(),
        forall|c: int| 0 <= c < g.size() ==> 0 <= #[trigger] g.layers(taken)[c] <= taken.len(),
        forall|p: int, c: int|
            taken.contains(p) && #[trigger] g.edge(p, c) ==> g.layers(taken)[c] > g.layers(taken)[p],
        forall|c: int|
            0 <= c < g.size() && #[trigger] g.layers(taken)[c] > 0 ==> exists|p: int|
                taken.contains(p) && #[trigger] g.edge(p, c) && g.layers(taken)[c] == g.layers(taken)[p]
                    + 1,
    decreases taken.len(),
{
    if taken.len() > 0 {
        let t = taken.drop_last();
        let i = taken.last();
        assert forall|k: int| 0 <= k < t.len() implies g.ready(t.take(k), #[trigger] t[k]) by {
            assert(t.take(k) =~= taken.take(k));
            assert(t[k] == taken[k]);
        }
        lemma_layers(g, t);
        assert(taken =~= t.push(i));
        lemma_push_contains(t, i);
        assert(!t.contains(i)) by {
            if t.contains(i) {
                let k = choose|k: int| 0 <= k < t.len() && t[k] == i;
                assert(taken[k] == taken[taken.len() - 1]);
            }
        }
        let l = g.layers(t);
        let m = g.layers(taken);
        assert(taken.take(t.len() as int) =~= t);
        assert(g.ready(t, taken[t.len() as int]));
        assert forall|p: int| taken.contains(p) implies m[p] == l[p] by {
            if g.edge(i, p) {
                let k = choose|k: int| 0 <= k < taken.len() && taken[k] == p;
                assert(g.ready(taken.take(k), taken[k]));
                assert(taken.take(k).contains(i));
                let j = choose|j: int| 0 <= j < k && taken.take(k)[j] == i;
                assert(t[j] == i);
            }
        }
        assert forall|p: int, c: int| taken.contains(p) && #[trigger] g.edge(p, c) implies m[c]
            > m[p] by {
            if p != i {
                assert(t.contains(p));
                assert(l[c] > l[p]);
            }
        }
        assert forall|c: int| 0 <= c < g.size() && #[trigger] m[c] > 0 implies exists|p: int|
            taken.contains(p) && #[trigger] g.edge(p, c) && m[c] == m[p] + 1 by {
            if m[c] == l[c] {
                let p = choose|p: int| t.contains(p) && #[trigger] g.edge(p, c) && l[c] == l[p] + 1;
                assert(taken.contains(p));
                assert(m[c] == m[p] + 1);
            } else {
                assert(g.edge(i, c));
                assert(taken.contains(i));
                assert(m[c] == m[i] + 1);
            }
        }
    }
}

// ---------------------------------------------------------------------------
// Which layers are drawn
// ---------------------------------------------------------------------------

/// Fewer events are in later layers.
pub proof fn lemma_count_from(order: Seq<int>, layer: Seq<int>, a: int, b: int)
    requires
        a <= b,
    ensures
        count_from(order, layer, b) <= count_from(order, layer, a) <= order.len(),
    decreases order.len(),
{
    if order.len() > 0 {
        lemma_count_from(order.drop_last(), layer, a, b);
    }
}

/// Where some event is counted, there is one in layer `t` or later.
pub proof fn lemma_count_witness(order: Seq<int>, layer: Seq<int>, t: int)
    requires
        count_from(order, layer, t) > 0,
    ensures
        exists|k: int| 0 <= k < order.len() && layer[#[trigger] order[k]] >= t,
    decreases order.len(),
{
    if layer[order.last()] >= t {
        assert(layer[order[order.len() - 1]] >= t);
    } else {
        lemma_count_witness(order.drop_last(), layer, t);
        let k = choose|k: int|
            0 <= k < order.drop_last().len() && layer[#[trigger] order.drop_last()[k]] >= t;
        assert(layer[order[k]] >= t);
    }
}

/// From the first layer on, every event is counted.
pub proof fn lemma_count_all(order: Seq<int>, layer: Seq<int>, t: int)
    requires
        forall|k: int| 0 <= k < order.len() ==> layer[#[trigger] order[k]] >= t,
    ensures
        count_from(order, layer, t) == order.len(),
    decreases order.len(),
{
    if order.len() > 0 {
        assert(layer[order[order.len() - 1]] >= t);
        assert forall|k: int| 0 <= k < order.drop_last().len() implies layer[#[trigger] order.drop_last()[k]]
            >= t by {
            assert(layer[order[k]] >= t);
        }
        lemma_count_all(order.drop_last(), layer, t);
    }
}

/// At most one layer cuts the picture.
pub proof fn lemma_cut_unique(order: Seq<int>, layer: Seq<int>, a: int, b: int)
    requires
        is_cut(order, layer, a),
        is_cut(order, layer, b),
    ensures
        a == b,
{
    if a < b {
        lemma_count_from(order, layer, a + 1, b);
    }
    if b < a {
        lemma_count_from(order, layer, b + 1, a);
    }
}

pub proof fn lemma_top_layer(order: Seq<int>, layer: Seq<int>)
    ensures
        top_layer(order, layer) >= 0,
        forall|k: int| 0 <= k < order.len() ==> layer[#[trigger] order[k]] <= top_layer(order, layer),
        top_layer(order, layer) > 0 ==> exists|k: int|
            0 <= k < order.len() && layer[#[trigger] order[k]] == top_layer(order, layer),
    decreases order.len(),
{
    if order.len() > 0 {
        let rest = order.drop_last();
        lemma_top_layer(rest, layer);
        assert forall|k: int| 0 <= k < order.len() implies layer[#[trigger] order[k]] <= top_layer(
            order,
            layer,
        ) by {
            if k < rest.len() {
                assert(layer[rest[k]] <= top_layer(rest, layer));
            }
        }
        if top_layer(order, layer) > 0 {
            if layer[order.last()] > top_layer(rest, layer) {
                assert(layer[order[order.len() - 1]] == top_layer(order, layer));
            } else {
                let k = choose|k: int|
                    0 <= k < rest.len() && layer[#[trigger] rest[k]] == top_layer(rest, layer);
                assert(layer[order[k]] == top_layer(order, layer));
            }
        }
    }
}

/// The cut exists wherever it is asked for, and no drawn layer lies past the top.
pub proof fn lemma_keep_from(size: nat, order: Seq<int>, layer: Seq<int>)
    requires
        forall|k: int| 0 <= k < order.len() ==> layer[#[trigger] order[k]] >= 0,
    ensures
        0 <= keep_from(size, order, layer) <= top_layer(order, layer),
        size > MAX_RENDER && order.len() >= MAX_RENDER ==> is_cut(
            order,
            layer,
            keep_from(size, order, layer),
        ),
{
    lemma_top_layer(order, layer);
    if size > MAX_RENDER && order.len() >= MAX_RENDER {
        lemma_count_all(order, layer, 0);
        let top = top_layer(order, layer);
        if count_from(order, layer, top + 1) > 0 {
            lemma_count_witness(order, layer, top + 1);
        }
        lemma_cut_exists(order, layer, 0, top);
        let keep = keep_from(size, order, layer);
        assert(is_cut(order, layer, keep));
        lemma_count_witness(order, layer, keep);
    }
}

proof fn lemma_cut_exists(order: Seq<int>, layer: Seq<int>, from: int, top: int) -> (t: int)
    requires
        0 <= from,
        count_from(order, layer, from) >= MAX_RENDER,
        count_from(order, layer, top + 1) == 0,
    ensures
        is_cut(order, layer, t),
    decreases top - from,
{
    if count_from(order, layer, from + 1) < MAX_RENDER {
        from
    } else {
        if top < from {
            lemma_count_from(order, layer, top + 1, from);
        }
        if top == from {
            assert(count_from(order, layer, from + 1) == 0);
        }
        lemma_cut_exists(order, layer, from + 1, top)
    }
}

/// A column holds the events of its layer, each once.
pub proof fn lemma_column(order: Seq<int>, layer: Seq<int>, t: int)
    ensures
        forall|i: int|
            #[trigger] column(order, layer, t).contains(i) <==> order.contains(i) && layer[i] == t,
        order.no_duplicates() ==> column(order, layer, t).no_duplicates(),
        column(order, layer, t).len() + count_from(order, layer, t + 1) == count_from(
            order,
            layer,
            t,
        ),
    decreases order.len(),
{
    if order.len() > 0 {
        let rest = order.drop_last();
        let x = order.last();
        lemma_column(rest, layer, t);
        assert(order =~= rest.push(x));
        lemma_push_contains(rest, x);
        lemma_push_contains(column(rest, layer, t), x);
        if order.no_duplicates() {
            assert(rest.no_duplicates());
            let col = column(order, layer, t);
            let shorter = column(rest, layer, t);
            assert(!rest.contains(x)) by {
                if rest.contains(x) {
                    let k = choose|k: int| 0 <= k < rest.len() && rest[k] == x;
                    assert(order[k] == order[order.len() - 1]);
                }
            }
            assert forall|a: int, b: int|
                0 <= a < col.len() && 0 <= b < col.len() && a != b implies col[a] != col[b] by {
                if layer[x] == t {
                    if a == shorter.len() {
                        assert(shorter.contains(shorter[b]));
                    }
                    if b == shorter.len() {
                        assert(shorter.contains(shorter[a]));
                    }
                }
            }
        }
    }
}

/// The columns hold the events of their layers, each once, layer by layer.
pub proof fn lemma_columns(order: Seq<int>, layer: Seq<int>, from: int, to: int)
    requires
        order.no_duplicates(),
        from <= to,
    ensures
        forall|i: int|
            #[trigger] columns(order, layer, from, to).contains(i) <==> order.contains(i) && from
                <= layer[i] < to,
        columns(order, layer, from, to).no_duplicates(),
        columns(order, layer, from, to).len() + count_from(order, layer, to) == count_from(
            order,
            layer,
            from,
        ),
        forall|a: int, b: int|
            0 <= a <= b < columns(order, layer, from, to).len() ==> layer[#[trigger] columns(
                order,
                layer,
                from,
                to,
            )[a]] <= layer[#[trigger] columns(order, layer, from, to)[b]],
    decreases to - from,
{
    if from < to {
        let before = columns(order, layer, from, to - 1);
        let col = column(order, layer, to - 1);
        let all = columns(order, layer, from, to);
        lemma_columns(order, layer, from, to - 1);
        lemma_column(order, layer, to - 1);
        lemma_add_contains(before, col);
        assert forall|a: int, b: int|
            0 <= a < all.len() && 0 <= b < all.len() && a != b implies all[a] != all[b] by {
            if a < before.len() {
                assert(before.contains(before[a]));
            } else {
                assert(col.contains(col[a - before.len()]));
            }
            if b < before.len() {
                assert(before.contains(before[b]));
            } else {
                assert(col.contains(col[b - before.len()]));
            }
        }
        assert forall|a: int, b: int| 0 <= a <= b < all.len() implies layer[#[trigger] all[a]]
            <= layer[#[trigger] all[b]] by {
            if a < before.len() {
                assert(before.contains(before[a]));
                if b < before.len() {
                    assert(layer[before[a]] <= layer[before[b]]);
                } else {
                    assert(col.contains(col[b - before.len()]));
                }
            } else {
                assert(col.contains(col[a - before.len()]));
                assert(col.contains(col[b - before.len()]));
            }
        }
    }
}

// ---------------------------------------------------------------------------
// Lanes
// ---------------------------------------------------------------------------

/// Where lanes from `bound` on are free, there is a first free one.
pub proof fn lemma_free_exists(
    layer: Seq<int>,
    drawn: Seq<int>,
    given: Seq<int>,
    t: int,
    from: int,
    bound: int,
) -> (m: int)
    requires
        forall|x: int| bound <= x ==> !#[trigger] occupied(layer, drawn, given, t, x),
    ensures
        is_first_free(layer, drawn, given, t, from, m),
        m <= from || m <= bound,
    decreases bound - from,
{
    if !occupied(layer, drawn, given, t, from) {
        from
    } else {
        let m = lemma_free_exists(layer, drawn, given, t, from + 1, bound);
        assert forall|x: int| from <= x < m implies #[trigger] occupied(layer, drawn, given, t, x) by {
            if x > from {
                assert(from + 1 <= x < m);
            }
        }
        m
    }
}

/// There is only one first free lane.
pub proof fn lemma_free_unique(
    layer: Seq<int>,
    drawn: Seq<int>,
    given: Seq<int>,
    t: int,
    from: int,
    a: int,
    b: int,
)
    requires
        is_first_free(layer, drawn, given, t, from, a),
        is_first_free(layer, drawn, given, t, from, b),
    ensures
        a == b,
{
    if a < b {
        assert(occupied(layer, drawn, given, t, a));
    }
    if b < a {
        assert(occupied(layer, drawn, given, t, b));
    }
}

/// The lane of an id depends only on the lanes of what was drawn.
pub proof fn lemma_lane_of_prefix(
    g: Graph,
    drawn: Seq<int>,
    a: Seq<int>,
    b: Seq<int>,
    id: Seq<u8>,
)
    requires
        drawn.len() <= a.len(),
        drawn.len() <= b.len(),
        forall|k: int| 0 <= k < drawn.len() ==> a[k] == b[k],
    ensures
        lane_of(g, drawn, a, id) == lane_of(g, drawn, b, id),
    decreases drawn.len(),
{
    if drawn.len() > 0 {
        lemma_lane_of_prefix(g, drawn.drop_last(), a, b, id);
    }
}

/// An id has a lane exactly where an event of that id was drawn, and its lane is
/// that of the last such event.
pub proof fn lemma_lane_of(g: Graph, drawn: Seq<int>, given: Seq<int>, id: Seq<u8>)
    requires
        drawn.len() <= given.len(),
    ensures
        lane_of(g, drawn, given, id) is Some <==> exists|k: int|
            0 <= k < drawn.len() && g.ids[#[trigger] drawn[k]] == id,
        match lane_of(g, drawn, given, id) {
            Some(m) => exists|k: int|
                0 <= k < drawn.len() && g.ids[#[trigger] drawn[k]] == id && given[k] == m && (forall|
                    j: int,
                | k < j < drawn.len() ==> g.ids[#[trigger] drawn[j]] != id),
            None => true,
        },
    decreases drawn.len(),
{
    if drawn.len() > 0 {
        let rest = drawn.drop_last();
        lemma_lane_of(g, rest, given, id);
        if g.ids[drawn.last()] == id {
            assert(g.ids[drawn[drawn.len() - 1]] == id);
        } else {
            if exists|k: int| 0 <= k < drawn.len() && g.ids[#[trigger] drawn[k]] == id {
                let k = choose|k: int| 0 <= k < drawn.len() && g.ids[#[trigger] drawn[k]] == id;
                assert(g.ids[rest[k]] == id);
            }
            match lane_of(g, drawn, given, id) {
                Some(m) => {
                    let k = choose|k: int|
                        0 <= k < rest.len() && g.ids[#[trigger] rest[k]] == id && given[k] == m && (
                        forall|j: int| k < j < rest.len() ==> g.ids[#[trigger] rest[j]] != id);
                    assert(g.ids[drawn[k]] == id);
                    assert forall|j: int| k < j < drawn.len() implies g.ids[#[trigger] drawn[j]]
                        != id by {
                        if j < rest.len() {
                            assert(g.ids[rest[j]] != id);
                        }
                    }
                },
                None => {},
            }
        }
    }
}

/// What an event asks for lies within the lanes given out.
pub proof fn lemma_lowest(g: Graph, drawn: Seq<int>, given: Seq<int>, parents: Seq<Seq<u8>>)
    requires
        drawn.len() <= given.len(),
    ensures
        match lowest(g, drawn, given, parents) {
            Some(m) => exists|k: int| 0 <= k < drawn.len() && #[trigger] given[k] == m,
            None => true,
        },
    decreases parents.len(),
{
    if parents.len() > 0 {
        lemma_lowest(g, drawn, given, parents.drop_last());
        lemma_lane_of(g, drawn, given, parents.last());
    }
}

/// Every drawn event gets the first free lane from where it asks, and the lanes
/// given out are no more than the events drawn.
pub proof fn lemma_lanes(g: Graph, layer: Seq<int>, drawn: Seq<int>)
    ensures
        lanes(g, layer, drawn).len() == drawn.len(),
        forall|k: int| 0 <= k < drawn.len() ==> 0 <= #[trigger] lanes(g, layer, drawn)[k] <= k,
        forall|k: int|
            0 <= k <= drawn.len() ==> #[trigger] lanes(g, layer, drawn).take(k) == lanes(
                g,
                layer,
                drawn.take(k),
            ),
        forall|k: int|
            0 <= k < drawn.len() ==> is_first_free(
                layer,
                drawn.take(k),
                lanes(g, layer, drawn).take(k),
                layer[drawn[k]],
                wanted(g, drawn.take(k), lanes(g, layer, drawn).take(k), drawn[k]),
                #[trigger] lanes(g, layer, drawn)[k],
            ),
    decreases drawn.len(),
{
    if drawn.len() == 0 {
        assert(lanes(g, layer, drawn).take(0) =~= lanes(g, layer, drawn.take(0)));
    } else {
        let before = drawn.drop_last();
        let given = lanes(g, layer, before);
        let all = lanes(g, layer, drawn);
        let i = drawn.last();
        let n = before.len() as int;
        lemma_lanes(g, layer, before);
        let from = wanted(g, before, given, i);
        lemma_lowest(g, before, given, g.parents[i]);
        assert forall|x: int| n <= x implies !#[trigger] occupied(layer, before, given, layer[i], x) by {
            if occupied(layer, before, given, layer[i], x) {
                let k = choose|k: int|
                    0 <= k < before.len() && layer[#[trigger] before[k]] == layer[i] && given[k] == x;
                assert(given[k] <= k);
            }
        }
        let m = lemma_free_exists(layer, before, given, layer[i], from, n);
        assert(is_first_free(layer, before, given, layer[i], from, all[n]));
        lemma_free_unique(layer, before, given, layer[i], from, m, all[n]);
        assert(0 <= from <= n) by {
            match lowest(g, before, given, g.parents[i]) {
                Some(low) => {
                    let k = choose|k: int| 0 <= k < before.len() && #[trigger] given[k] == low;
                    assert(0 <= given[k] <= k);
                },
                None => {},
            }
        }
        assert forall|k: int| 0 <= k < drawn.len() implies 0 <= #[trigger] all[k] <= k by {
            if k < n {
                assert(all[k] == given[k]);
            }
        }
        assert forall|k: int| 0 <= k <= drawn.len() implies #[trigger] all.take(k) == lanes(
            g,
            layer,
            drawn.take(k),
        ) by {
            if k <= n {
                assert(drawn.take(k) =~= before.take(k));
                assert(all.take(k) =~= given.take(k));
                assert(given.take(k) == lanes(g, layer, before.take(k)));
            } else {
                assert(drawn.take(k) =~= drawn);
                assert(all.take(k) =~= all);
            }
        }
        assert forall|k: int| 0 <= k < drawn.len() implies is_first_free(
            layer,
            drawn.take(k),
            all.take(k),
            layer[drawn[k]],
            wanted(g, drawn.take(k), all.take(k), drawn[k]),
            #[trigger] all[k],
        ) by {
            if k < n {
                assert(drawn.take(k) =~= before.take(k));
                assert(all.take(k) =~= given.take(k));
                assert(all[k] == given[k]);
            } else {
                assert(drawn.take(k) =~= before);
                assert(all.take(k) =~= given);
            }
        }
    }
}

// ---------------------------------------------------------------------------
// The whole plan
// ---------------------------------------------------------------------------

/// The basic facts of a plan: the order is sound, the layers are those of
/// [`lemma_layers`], and what is drawn is what is placed in a drawn layer.
pub proof fn lemma_plan(g: Graph)
    ensures
        sound(g, plan(g).order, Seq::empty()),
        topological(g, plan(g).order),
        plan(g).order.len() <= g.size(),
        plan(g).layer.len() == g.size(),
        forall|c: int| 0 <= c < g.size() ==> 0 <= #[trigger] plan(g).layer[c] <= g.size(),
        0 <= plan(g).keep <= plan(g).top,
        plan(g).top <= g.size(),
        plan(g).drawn.no_duplicates(),
        plan(g).drawn.len() <= plan(g).order.len(),
        forall|k: int| 0 <= k < plan(g).drawn.len() ==> 0 <= #[trigger] plan(g).drawn[k] < g.size(),
        forall|i: int|
            #[trigger] plan(g).drawn.contains(i) <==> plan(g).order.contains(i) && plan(g).layer[i]
                >= plan(g).keep,
        forall|a: int, b: int|
            0 <= a <= b < plan(g).drawn.len() ==> plan(g).layer[#[trigger] plan(g).drawn[a]] <= plan(
                g,
            ).layer[#[trigger] plan(g).drawn[b]],
        plan(g).lanes.len() == plan(g).drawn.len(),
{
    let p = plan(g);
    lemma_order(g);
    lemma_layers(g, p.order);
    assert forall|k: int| 0 <= k < p.order.len() implies p.layer[#[trigger] p.order[k]] >= 0 by {
        assert(0 <= p.order[k] < g.size());
    }
    lemma_top_layer(p.order, p.layer);
    lemma_keep_from(g.size(), p.order, p.layer);
    lemma_columns(p.order, p.layer, p.keep, p.top + 1);
    lemma_count_from(p.order, p.layer, p.keep, p.top + 1);
    lemma_lanes(g, p.layer, p.drawn);
    assert forall|i: int| p.order.contains(i) implies 0 <= i < g.size() && p.layer[i] <= p.top by {
        let k = choose|k: int| 0 <= k < p.order.len() && p.order[k] == i;
        assert(p.layer[p.order[k]] <= p.top);
    }
    assert forall|i: int|
        #[trigger] p.drawn.contains(i) <==> p.order.contains(i) && p.layer[i] >= p.keep by {}
    assert forall|k: int| 0 <= k < p.drawn.len() implies 0 <= #[trigger] p.drawn[k] < g.size() by {
        assert(p.drawn.contains(p.drawn[k]));
    }
    if p.top > 0 {
        let k = choose|k: int| 0 <= k < p.order.len() && p.layer[#[trigger] p.order[k]] == p.top;
        assert(0 <= p.layer[p.order[k]] <= p.order.len());
    }
}

/// The last layer has a number below the number of events.
pub proof fn lemma_top_below(g: Graph)
    requires
        g.size() > 0,
    ensures
        plan(g).top < g.size(),
{
    lemma_plan(g);
    let p = plan(g);
    lemma_top_layer(p.order, p.layer);
    if p.top > 0 {
        let k = choose|k: int| 0 <= k < p.order.len() && p.layer[#[trigger] p.order[k]] == p.top;
        lemma_layer_below(g, p.order, k);
    }
}

/// An event taken as the `k`th has at most `k` layers before it.
proof fn lemma_layer_below(g: Graph, taken: Seq<int>, k: int)
    requires
        topological(g, taken),
        0 <= k < taken.len(),
    ensures
        g.layers(taken)[taken[k]] <= k,
    decreases k,
{
    lemma_layers(g, taken);
    let c = taken[k];
    if g.layers(taken)[c] > 0 {
        let p = choose|p: int|
            taken.contains(p) && #[trigger] g.edge(p, c) && g.layers(taken)[c] == g.layers(taken)[p]
                + 1;
        assert(g.ready(taken.take(k), taken[k]));
        let j = choose|j: int| 0 <= j < taken.take(k).len() && taken.take(k)[j] == p;
        assert(taken[j] == p);
        lemma_layer_below(g, taken, j);
    }
}

/// Every link into a drawn event leads forward, and where its parent is in a
/// drawn layer, the parent is drawn.
pub proof fn lemma_link(g: Graph, p: int, c: int)
    requires
        plan(g).drawn.contains(c),
        g.edge(p, c),
    ensures
        plan(g).order.contains(p),
        plan(g).layer[p] < plan(g).layer[c],
        plan(g).layer[p] >= plan(g).keep ==> plan(g).drawn.contains(p),
{
    lemma_plan(g);
    let order = plan(g).order;
    assert(order.contains(c));
    assert(g.ready(order, c));
    lemma_layers(g, order);
}

} // verus!
