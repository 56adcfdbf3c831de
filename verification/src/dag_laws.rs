//! What every picture of a history satisfies.

use vstd::prelude::*;

use crate::dag::{by_id, graph_of, is_picture, placed, DagModel, DagNodeInput};
use crate::ids::{
    lemma_precedes_asymmetric, lemma_precedes_total, lemma_precedes_transitive, precedes,
};
use crate::plan::{
    count_from, index_of, is_first_free, lane_of, lanes, lemma_index_of, links, links_into,
    occupied, plan, wanted, Graph, MAX_RENDER,
};
use crate::plan_laws::{
    lemma_add_contains, lemma_columns, lemma_count_all, lemma_count_witness, lemma_keep_from,
    lemma_lane_of, lemma_lanes, lemma_layers, lemma_link, lemma_plan, lemma_push_contains,
    lemma_top_layer,
};

verus! {

// ---------------------------------------------------------------------------
// Base order
// ---------------------------------------------------------------------------

/// All event ids have the same length.
pub open spec fn even_ids(nodes: Seq<DagNodeInput>) -> bool {
    forall|i: int| 0 <= i < nodes.len() ==> #[trigger] nodes[i].id@.len() == 32
}

/// No event comes before an earlier one in byte order of the ids.
pub open spec fn in_base_order(nodes: Seq<DagNodeInput>) -> bool {
    forall|i: int, j: int|
        0 <= i < j < nodes.len() ==> !precedes(#[trigger] nodes[j].id@, #[trigger] nodes[i].id@)
}

/// No two events have the same id.
pub open spec fn distinct_ids(nodes: Seq<DagNodeInput>) -> bool {
    forall|i: int, j: int|
        0 <= i < j < nodes.len() ==> #[trigger] nodes[i].id@ != #[trigger] nodes[j].id@
}

pub(crate) proof fn lemma_even_ids(nodes: Seq<DagNodeInput>)
    ensures
        even_ids(nodes),
{
    assert forall|i: int| 0 <= i < nodes.len() implies #[trigger] nodes[i].id@.len() == 32 by {
        let bytes = nodes[i].id.bytes;
        assert(bytes@.len() == 32);
    }
}

proof fn lemma_placed(nodes: Seq<DagNodeInput>, x: DagNodeInput)
    requires
        in_base_order(nodes),
    ensures
        in_base_order(placed(nodes, x)),
        placed(nodes, x).to_multiset() == nodes.to_multiset().insert(x),
        forall|i: int|
            0 <= i < placed(nodes, x).len() ==> #[trigger] placed(nodes, x)[i] == x || nodes.contains(
                placed(nodes, x)[i],
            ),
    decreases nodes.len(),
{
    broadcast use vstd::seq_lib::group_to_multiset_ensures;

    let out = placed(nodes, x);
    if nodes.len() > 0 && precedes(nodes.first().id@, x.id@) {
        let rest = nodes.drop_first();
        let first = nodes.first();
        let tail = placed(rest, x);
        assert forall|i: int, j: int| 0 <= i < j < rest.len() implies !precedes(
            #[trigger] rest[j].id@,
            #[trigger] rest[i].id@,
        ) by {
            assert(!precedes(nodes[j + 1].id@, nodes[i + 1].id@));
        }
        lemma_placed(rest, x);
        assert(out == seq![first] + tail);
        assert(nodes =~= seq![first] + rest);
        vstd::seq_lib::lemma_multiset_commutative(seq![first], tail);
        vstd::seq_lib::lemma_multiset_commutative(seq![first], rest);
        assert(out.to_multiset() =~= nodes.to_multiset().insert(x));
        assert forall|i: int| 0 <= i < out.len() implies #[trigger] out[i] == x || nodes.contains(
            out[i],
        ) by {
            if i == 0 {
                assert(nodes.contains(nodes[0]));
            } else {
                assert(out[i] == tail[i - 1]);
                if tail[i - 1] != x {
                    let k = choose|k: int| 0 <= k < rest.len() && rest[k] == tail[i - 1];
                    assert(nodes[k + 1] == out[i]);
                }
            }
        }
        assert forall|i: int, j: int| 0 <= i < j < out.len() implies !precedes(
            #[trigger] out[j].id@,
            #[trigger] out[i].id@,
        ) by {
            assert(out[j] == tail[j - 1]);
            if i == 0 {
                if tail[j - 1] == x {
                    lemma_precedes_asymmetric(first.id@, x.id@);
                } else {
                    let k = choose|k: int| 0 <= k < rest.len() && rest[k] == tail[j - 1];
                    assert(!precedes(nodes[k + 1].id@, nodes[0].id@));
                }
            } else {
                assert(out[i] == tail[i - 1]);
            }
        }
    } else {
        assert(out == seq![x] + nodes);
        vstd::seq_lib::lemma_multiset_commutative(seq![x], nodes);
        assert(out.to_multiset() =~= nodes.to_multiset().insert(x));
        assert forall|i: int| 0 <= i < out.len() implies #[trigger] out[i] == x || nodes.contains(
            out[i],
        ) by {
            if i > 0 {
                assert(out[i] == nodes[i - 1]);
            }
        }
        lemma_even_ids(out);
        assert forall|i: int, j: int| 0 <= i < j < out.len() implies !precedes(
            #[trigger] out[j].id@,
            #[trigger] out[i].id@,
        ) by {
            assert(out[j] == nodes[j - 1]);
            if i > 0 {
                assert(out[i] == nodes[i - 1]);
            } else if j > 1 {
                assert(!precedes(nodes[j - 1].id@, nodes[0].id@));
                if precedes(nodes[j - 1].id@, x.id@) {
                    assert(out[1].id@.len() == 32 && out[0].id@.len() == 32);
                    lemma_precedes_total(nodes[0].id@, x.id@);
                    if precedes(x.id@, nodes[0].id@) {
                        lemma_precedes_transitive(nodes[j - 1].id@, x.id@, nodes[0].id@);
                    }
                }
            }
        }
    }
}

/// Base order keeps every event and puts the ids in byte order.
pub proof fn law_base_order(inputs: Seq<DagNodeInput>)
    ensures
        by_id(inputs).to_multiset() == inputs.to_multiset(),
        by_id(inputs).len() == inputs.len(),
        in_base_order(by_id(inputs)),
    decreases inputs.len(),
{
    broadcast use vstd::seq_lib::group_to_multiset_ensures;

    if inputs.len() > 0 {
        let rest = inputs.drop_first();
        let first = inputs.first();
        law_base_order(rest);
        lemma_placed(by_id(rest), first);
        assert(inputs =~= seq![first] + rest);
        vstd::seq_lib::lemma_multiset_commutative(seq![first], rest);
        assert(by_id(inputs).to_multiset() =~= inputs.to_multiset());
    } else {
        assert(by_id(inputs) =~= inputs);
    }
    assert(by_id(inputs).len() == by_id(inputs).to_multiset().len());
    assert(inputs.len() == inputs.to_multiset().len());
}

proof fn lemma_same_base_order(a: Seq<DagNodeInput>, b: Seq<DagNodeInput>)
    requires
        a.to_multiset() == b.to_multiset(),
        in_base_order(a),
        in_base_order(b),
        distinct_ids(a),
        distinct_ids(b),
    ensures
        a == b,
    decreases a.len(),
{
    broadcast use vstd::seq_lib::group_to_multiset_ensures;

    assert(a.len() == a.to_multiset().len());
    assert(b.len() == b.to_multiset().len());
    if a.len() == 0 {
        assert(a =~= b);
    } else {
        let x = a.last();
        let y = b.last();
        lemma_even_ids(a);
        lemma_even_ids(b);
        assert(a.contains(x));
        assert(b.to_multiset().count(x) > 0);
        assert(b.contains(x));
        assert(b.contains(y));
        assert(a.to_multiset().count(y) > 0);
        assert(a.contains(y));
        let i = choose|i: int| 0 <= i < b.len() && b[i] == x;
        let j = choose|j: int| 0 <= j < a.len() && a[j] == y;
        assert(x == y) by {
            if x != y {
                assert(!precedes(b[b.len() - 1].id@, b[i].id@));
                assert(!precedes(a[a.len() - 1].id@, a[j].id@));
                assert(a[a.len() - 1].id@.len() == 32 && b[b.len() - 1].id@.len() == 32);
                lemma_precedes_total(x.id@, y.id@);
                assert(b[i].id@ != b[b.len() - 1].id@);
            }
        }
        let sa = a.drop_last();
        let sb = b.drop_last();
        assert(a =~= sa.push(x));
        assert(b =~= sb.push(y));
        assert(a.to_multiset() =~= sa.to_multiset().insert(x));
        assert(b.to_multiset() =~= sb.to_multiset().insert(y));
        assert(sa.to_multiset() =~= sb.to_multiset()) by {
            assert(a.to_multiset().remove(x) =~= sa.to_multiset());
            assert(b.to_multiset().remove(y) =~= sb.to_multiset());
        }
        lemma_prefix(a);
        lemma_prefix(b);
        lemma_same_base_order(sa, sb);
    }
}

proof fn lemma_prefix(a: Seq<DagNodeInput>)
    requires
        a.len() > 0,
        in_base_order(a),
        distinct_ids(a),
    ensures
        in_base_order(a.drop_last()),
        distinct_ids(a.drop_last()),
{
    let s = a.drop_last();
    assert forall|i: int, j: int| 0 <= i < j < s.len() implies !precedes(
        #[trigger] s[j].id@,
        #[trigger] s[i].id@,
    ) by {
        assert(!precedes(a[j].id@, a[i].id@));
    }
    assert forall|i: int, j: int| 0 <= i < j < s.len() implies #[trigger] s[i].id@
        != #[trigger] s[j].id@ by {
        assert(a[i].id@ != a[j].id@);
    }
}

proof fn lemma_distinct_permuted(a: Seq<DagNodeInput>, b: Seq<DagNodeInput>)
    requires
        a.to_multiset() == b.to_multiset(),
        distinct_ids(a),
    ensures
        distinct_ids(b),
{
    broadcast use vstd::seq_lib::group_to_multiset_ensures;

    assert(a.no_duplicates()) by {
        assert forall|i: int, j: int|
            0 <= i < a.len() && 0 <= j < a.len() && i != j implies a[i] != a[j] by {
            if i < j {
                assert(a[i].id@ != a[j].id@);
            } else {
                assert(a[j].id@ != a[i].id@);
            }
        }
    }
    a.lemma_multiset_has_no_duplicates();
    b.lemma_multiset_has_no_duplicates_conv();
    assert forall|i: int, j: int| 0 <= i < j < b.len() implies #[trigger] b[i].id@
        != #[trigger] b[j].id@ by {
        assert(b.contains(b[i]) && b.contains(b[j]));
        assert(a.to_multiset().count(b[i]) > 0);
        assert(a.to_multiset().count(b[j]) > 0);
        assert(a.contains(b[i]) && a.contains(b[j]));
        let x = choose|x: int| 0 <= x < a.len() && a[x] == b[i];
        let y = choose|y: int| 0 <= y < a.len() && a[y] == b[j];
        assert(b[i] != b[j]);
        if x < y {
            assert(a[x].id@ != a[y].id@);
        } else {
            assert(a[y].id@ != a[x].id@);
        }
    }
}

/// The picture does not depend on the order in which the events are listed:
/// two listings of the same events, no id twice, are laid out from the same
/// base order.
pub proof fn law_listing_order_is_irrelevant(a: Seq<DagNodeInput>, b: Seq<DagNodeInput>)
    requires
        a.to_multiset() == b.to_multiset(),
        distinct_ids(a),
    ensures
        by_id(a) == by_id(b),
{
    law_base_order(a);
    law_base_order(b);
    lemma_distinct_permuted(a, by_id(a));
    lemma_distinct_permuted(a, by_id(b));
    lemma_same_base_order(by_id(a), by_id(b));
}

// ---------------------------------------------------------------------------
// Placement
// ---------------------------------------------------------------------------

/// Layering is longest-path layering: a placed event lies past all of its
/// present parents, which are placed too, and just past one of them; without a
/// present parent it is in the first layer.
pub proof fn law_longest_path(g: Graph, c: int)
    requires
        plan(g).order.contains(c),
    ensures
        forall|p: int|
            #[trigger] g.edge(p, c) ==> plan(g).order.contains(p) && plan(g).layer[p] < plan(
                g,
            ).layer[c],
        (forall|p: int| !#[trigger] g.edge(p, c)) ==> plan(g).layer[c] == 0,
        (exists|p: int| #[trigger] g.edge(p, c)) ==> exists|p: int|
            #[trigger] g.edge(p, c) && plan(g).layer[c] == plan(g).layer[p] + 1,
{
    lemma_plan(g);
    let order = plan(g).order;
    lemma_layers(g, order);
    let k = choose|k: int| 0 <= k < order.len() && order[k] == c;
    assert(0 <= order[k] < g.size());
    assert(g.ready(order, c));
    assert(g.layers(order)[c] >= 0);
    if exists|p: int| #[trigger] g.edge(p, c) {
        let p = choose|p: int| #[trigger] g.edge(p, c);
        assert(order.contains(p));
        assert(g.layers(order)[c] > g.layers(order)[p]);
        assert(g.layers(order)[p] >= 0);
    }
}

/// `rank` grows along every parent link: the history has no cycle.
pub open spec fn acyclic_by(g: Graph, rank: spec_fn(int) -> nat) -> bool {
    forall|p: int, c: int| #[trigger] g.edge(p, c) ==> rank(p) < rank(c)
}

proof fn lemma_acyclic_placed(g: Graph, rank: spec_fn(int) -> nat, c: int)
    requires
        acyclic_by(g, rank),
        0 <= c < g.size(),
    ensures
        plan(g).order.contains(c),
    decreases rank(c),
{
    lemma_plan(g);
    let order = plan(g).order;
    assert forall|p: int| #[trigger] g.edge(p, c) implies order.contains(p) by {
        lemma_acyclic_placed(g, rank, p);
    }
    assert(g.ready(order, c));
    assert(!Seq::<int>::empty().contains(c));
}

/// A history without a cycle is placed whole; up to the render cap it is drawn
/// whole.
pub proof fn law_acyclic_history_is_placed(g: Graph, rank: spec_fn(int) -> nat)
    requires
        acyclic_by(g, rank),
    ensures
        forall|c: int| 0 <= c < g.size() ==> #[trigger] plan(g).order.contains(c),
        plan(g).order.len() == g.size(),
        g.size() <= MAX_RENDER ==> plan(g).drawn.len() == g.size(),
{
    lemma_plan(g);
    let p = plan(g);
    assert forall|c: int| 0 <= c < g.size() implies #[trigger] p.order.contains(c) by {
        lemma_acyclic_placed(g, rank, c);
    }
    lemma_covers(p.order, g.size());
    if g.size() <= MAX_RENDER {
        assert forall|c: int| 0 <= c < g.size() implies #[trigger] p.drawn.contains(c) by {
            assert(p.order.contains(c));
            assert(p.layer[c] >= 0);
        }
        lemma_covers(p.drawn, g.size());
    }
}

/// A list that holds every number below `n` has at least `n` entries.
proof fn lemma_covers(s: Seq<int>, n: nat)
    requires
        forall|c: int| 0 <= c < n ==> #[trigger] s.contains(c),
    ensures
        s.len() >= n,
{
    let all = vstd::set_lib::set_int_range(0, n as int);
    vstd::set_lib::lemma_int_range(0, n as int);
    assert forall|x: int| all.contains(x) implies s.to_set().contains(x) by {
        assert(s.contains(x));
    }
    vstd::set_lib::lemma_len_subset(all, s.to_set());
    s.lemma_cardinality_of_set();
}

/// Past the cap the newest layers are drawn: what is placed but not drawn lies
/// in an earlier layer than anything drawn; a full picture is left; and one
/// layer less would not leave it.
pub proof fn law_newest_layers_are_drawn(g: Graph)
    ensures
        forall|a: int, b: int|
            #[trigger] plan(g).drawn.contains(a) && #[trigger] plan(g).order.contains(b)
                && !plan(g).drawn.contains(b) ==> plan(g).layer[b] < plan(g).layer[a],
        g.size() > MAX_RENDER && plan(g).order.len() >= MAX_RENDER ==> plan(g).drawn.len()
            >= MAX_RENDER && count_from(plan(g).order, plan(g).layer, plan(g).keep + 1) < MAX_RENDER,
        g.size() <= MAX_RENDER || plan(g).order.len() < MAX_RENDER ==> plan(g).drawn.len() == plan(
            g,
        ).order.len(),
{
    lemma_plan(g);
    let p = plan(g);
    assert forall|k: int| 0 <= k < p.order.len() implies p.layer[#[trigger] p.order[k]] >= 0 by {
        assert(0 <= p.order[k] < g.size());
        let c = p.order[k];
        assert(p.layer[c] >= 0);
    }
    lemma_keep_from(g.size(), p.order, p.layer);
    lemma_columns(p.order, p.layer, p.keep, p.top + 1);
    lemma_top_layer(p.order, p.layer);
    if count_from(p.order, p.layer, p.top + 1) > 0 {
        lemma_count_witness(p.order, p.layer, p.top + 1);
    }
    if g.size() <= MAX_RENDER || p.order.len() < MAX_RENDER {
        lemma_count_all(p.order, p.layer, 0);
    }
}

// ---------------------------------------------------------------------------
// Lanes
// ---------------------------------------------------------------------------

/// Every drawn event takes the first lane that is free in its layer, counted
/// from the smallest lane of its drawn parents.
pub proof fn law_greedy_lanes(g: Graph, k: int)
    requires
        0 <= k < plan(g).drawn.len(),
    ensures
        is_first_free(
            plan(g).layer,
            plan(g).drawn.take(k),
            plan(g).lanes.take(k),
            plan(g).layer[plan(g).drawn[k]],
            wanted(g, plan(g).drawn.take(k), plan(g).lanes.take(k), plan(g).drawn[k]),
            plan(g).lanes[k],
        ),
{
    lemma_lanes(g, plan(g).layer, plan(g).drawn);
    assert(plan(g).lanes[k] == lanes(g, plan(g).layer, plan(g).drawn)[k]);
}

/// No two events of one layer share a lane.
pub proof fn law_lanes_do_not_collide(g: Graph, a: int, b: int)
    requires
        0 <= a < b < plan(g).drawn.len(),
        plan(g).layer[plan(g).drawn[a]] == plan(g).layer[plan(g).drawn[b]],
    ensures
        plan(g).lanes[a] != plan(g).lanes[b],
{
    let p = plan(g);
    law_greedy_lanes(g, b);
    lemma_plan(g);
    if p.lanes[a] == p.lanes[b] {
        let d = p.drawn.take(b);
        assert(p.layer[d[a]] == p.layer[p.drawn[b]] && p.lanes.take(b)[a] == p.lanes[b]);
        assert(occupied(p.layer, d, p.lanes.take(b), p.layer[p.drawn[b]], p.lanes[b]));
    }
}

/// Without an id occurring twice, no two nodes of a picture are drawn in the
/// same place.
pub proof fn law_nodes_do_not_overlap(
    model: DagModel,
    nodes: Seq<DagNodeInput>,
    head: Seq<Seq<u8>>,
    a: int,
    b: int,
)
    requires
        is_picture(model, nodes, head),
        distinct_ids(nodes),
        0 <= a < b < model.nodes@.len(),
    ensures
        model.nodes@[a].x != model.nodes@[b].x || model.nodes@[a].y != model.nodes@[b].y,
{
    let g = graph_of(nodes);
    let p = plan(g);
    lemma_plan(g);
    let i = p.drawn[a];
    let j = p.drawn[b];
    assert(0 <= p.drawn[a] < g.size() && 0 <= p.drawn[b] < g.size());
    assert(model.nodes@[a].input == nodes[i]);
    assert(model.nodes@[b].input == nodes[j]);
    lemma_own_lane(g, nodes, a);
    lemma_own_lane(g, nodes, b);
    if p.layer[i] == p.layer[j] {
        law_lanes_do_not_collide(g, a, b);
    }
}

pub(crate) proof fn lemma_own_lane(g: Graph, nodes: Seq<DagNodeInput>, a: int)
    requires
        g == graph_of(nodes),
        distinct_ids(nodes),
        0 <= a < plan(g).drawn.len(),
    ensures
        lane_of(g, plan(g).drawn, plan(g).lanes, nodes[plan(g).drawn[a]].id@) == Some(
            plan(g).lanes[a],
        ),
{
    let p = plan(g);
    let id = nodes[p.drawn[a]].id@;
    lemma_plan(g);
    lemma_lane_of(g, p.drawn, p.lanes, id);
    assert(0 <= p.drawn[a] < g.size());
    assert(g.ids[p.drawn[a]] == id);
    let m = lane_of(g, p.drawn, p.lanes, id).unwrap();
    let k = choose|k: int|
        0 <= k < p.drawn.len() && g.ids[#[trigger] p.drawn[k]] == id && p.lanes[k] == m && (forall|
            j: int,
        | k < j < p.drawn.len() ==> g.ids[#[trigger] p.drawn[j]] != id);
    assert(0 <= p.drawn[k] < g.size());
    if k != a {
        assert(p.drawn[k] != p.drawn[a]);
        if p.drawn[k] < p.drawn[a] {
            assert(nodes[p.drawn[k]].id@ != nodes[p.drawn[a]].id@);
        } else {
            assert(nodes[p.drawn[a]].id@ != nodes[p.drawn[k]].id@);
        }
    }
}

// ---------------------------------------------------------------------------
// Links
// ---------------------------------------------------------------------------

proof fn lemma_links_into(g: Graph, layer: Seq<int>, keep: int, c: int, parents: Seq<Seq<u8>>)
    requires
        0 <= c < g.size(),
        forall|k: int| 0 <= k < parents.len() ==> g.parents[c].contains(#[trigger] parents[k]),
    ensures
        forall|link: (int, int)|
            #[trigger] links_into(g, layer, keep, c, parents).contains(link) <==> link.1 == c
                && g.edge(link.0, c) && layer[link.0] >= keep && parents.contains(g.ids[link.0]),
    decreases parents.len(),
{
    if parents.len() > 0 {
        let rest = parents.drop_last();
        let id = parents.last();
        let q = index_of(g.ids, id);
        assert forall|k: int| 0 <= k < rest.len() implies g.parents[c].contains(
            #[trigger] rest[k],
        ) by {
            assert(g.parents[c].contains(parents[k]));
        }
        lemma_links_into(g, layer, keep, c, rest);
        lemma_index_of(g.ids, id);
        assert(g.parents[c].contains(parents[parents.len() - 1]));
        let all = links_into(g, layer, keep, c, parents);
        let shorter = links_into(g, layer, keep, c, rest);
        assert forall|link: (int, int)| #[trigger] all.contains(link) <==> link.1 == c && g.edge(
            link.0,
            c,
        ) && layer[link.0] >= keep && parents.contains(g.ids[link.0]) by {
            let ok = link.1 == c && g.edge(link.0, c) && layer[link.0] >= keep;
            assert(shorter.contains(link) <==> ok && rest.contains(g.ids[link.0]));
            if rest.contains(g.ids[link.0]) {
                let k = choose|k: int| 0 <= k < rest.len() && rest[k] == g.ids[link.0];
                assert(parents[k] == g.ids[link.0]);
            }
            if all.contains(link) && !shorter.contains(link) {
                let k = choose|k: int| 0 <= k < all.len() && all[k] == link;
                if k < shorter.len() {
                    assert(shorter[k] == link);
                }
                assert(link == (q, c));
                assert(g.ids[q] == id);
                assert(parents[parents.len() - 1] == g.ids[link.0]);
            }
            if ok && parents.contains(g.ids[link.0]) && !rest.contains(g.ids[link.0]) {
                let k = choose|k: int| 0 <= k < parents.len() && parents[k] == g.ids[link.0];
                if k < rest.len() {
                    assert(rest[k] == g.ids[link.0]);
                }
                assert(g.ids[link.0] == id);
                assert(link.0 == q);
                assert(all[shorter.len() as int] == link);
            }
            if shorter.contains(link) {
                let k = choose|k: int| 0 <= k < shorter.len() && shorter[k] == link;
                assert(all[k] == link);
            }
        }
    }
}

proof fn lemma_links(g: Graph, layer: Seq<int>, keep: int, drawn: Seq<int>)
    requires
        forall|k: int| 0 <= k < drawn.len() ==> 0 <= #[trigger] drawn[k] < g.size(),
    ensures
        forall|link: (int, int)|
            #[trigger] links(g, layer, keep, drawn).contains(link) <==> drawn.contains(link.1)
                && g.edge(link.0, link.1) && layer[link.0] >= keep,
    decreases drawn.len(),
{
    if drawn.len() > 0 {
        let rest = drawn.drop_last();
        let c = drawn.last();
        assert(0 <= drawn[drawn.len() - 1] < g.size());
        assert forall|k: int| 0 <= k < rest.len() implies 0 <= #[trigger] rest[k] < g.size() by {
            assert(0 <= drawn[k] < g.size());
        }
        lemma_links(g, layer, keep, rest);
        lemma_links_into(g, layer, keep, c, g.parents[c]);
        lemma_add_contains(
            links(g, layer, keep, rest),
            links_into(g, layer, keep, c, g.parents[c]),
        );
        assert(drawn =~= rest.push(c));
        lemma_push_contains(rest, c);
        let all = links(g, layer, keep, drawn);
        assert forall|link: (int, int)| #[trigger] all.contains(link) <==> drawn.contains(link.1)
            && g.edge(link.0, link.1) && layer[link.0] >= keep by {
            assert(links(g, layer, keep, rest).contains(link) <==> rest.contains(link.1) && g.edge(
                link.0,
                link.1,
            ) && layer[link.0] >= keep);
            assert(links_into(g, layer, keep, c, g.parents[c]).contains(link) <==> link.1 == c
                && g.edge(link.0, c) && layer[link.0] >= keep && g.parents[c].contains(
                g.ids[link.0],
            ));
        }
    }
}

/// The links of a picture are exactly the parent links between two drawn events,
/// and each one leads to a later layer.
pub proof fn law_links_join_drawn_events(g: Graph, p: int, c: int)
    ensures
        links(g, plan(g).layer, plan(g).keep, plan(g).drawn).contains((p, c)) <==> g.edge(p, c)
            && plan(g).drawn.contains(p) && plan(g).drawn.contains(c),
        links(g, plan(g).layer, plan(g).keep, plan(g).drawn).contains((p, c)) ==> plan(g).layer[p]
            < plan(g).layer[c],
{
    lemma_plan(g);
    let pl = plan(g);
    lemma_links(g, pl.layer, pl.keep, pl.drawn);
    let all = links(g, pl.layer, pl.keep, pl.drawn);
    assert(all.contains((p, c)) <==> pl.drawn.contains(c) && g.edge(p, c) && pl.layer[p] >= pl.keep);
    if g.edge(p, c) && pl.drawn.contains(c) {
        lemma_link(g, p, c);
    }
}

/// Every event of a history is either drawn or counted as omitted.
pub proof fn law_every_event_is_accounted_for(
    model: DagModel,
    inputs: Seq<DagNodeInput>,
    head: Seq<Seq<u8>>,
)
    requires
        is_picture(model, by_id(inputs), head),
    ensures
        model.nodes@.len() + model.omitted == inputs.len(),
{
    law_base_order(inputs);
    lemma_plan(graph_of(by_id(inputs)));
}

} // verus!
