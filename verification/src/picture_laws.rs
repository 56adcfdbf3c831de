//! What a picture of a history shows, in terms of the events and of where they are
//! drawn.

use vstd::prelude::*;

use crate::dag::{graph_of, is_picture, DagModel, DagNodeInput, DagNodeVis};
use crate::dag_laws::{
    distinct_ids, law_greedy_lanes, law_links_join_drawn_events, law_longest_path,
    law_newest_layers_are_drawn, lemma_even_ids, lemma_own_lane,
};
use crate::ids::base64;
use crate::plan::{
    absent, count_from, dangling, index_of, is_first_free, lane_of, lanes, lemma_index_of,
    links, links_into, lowest, occupied, plan, top_lane, wanted, Graph,
};
use crate::plan_laws::{lemma_lane_of, lemma_lanes, lemma_link, lemma_plan};
use crate::text::decimal;

verus! {

/// Node `a` of the picture is a parent of node `b`.
pub open spec fn drawn_parent(model: DagModel, a: int, b: int) -> bool {
    &&& 0 <= a < model.nodes@.len()
    &&& 0 <= b < model.nodes@.len()
    &&& model.nodes@[b].input.parent@.contains(model.nodes@[a].input.id@)
}

/// Where the nodes of a picture come from, in terms of the plan.
proof fn lemma_node(model: DagModel, nodes: Seq<DagNodeInput>, head: Seq<Seq<u8>>, k: int)
    requires
        is_picture(model, nodes, head),
        distinct_ids(nodes),
        0 <= k < model.nodes@.len(),
    ensures
        ({
            let p = plan(graph_of(nodes));
            let node = model.nodes@[k];
            &&& 0 <= k < p.drawn.len() == p.lanes.len()
            &&& 0 <= p.drawn[k] < nodes.len()
            &&& node.input == nodes[p.drawn[k]]
            &&& p.keep <= p.layer[p.drawn[k]] <= p.top
            &&& node.x == 40 + 92 * (p.layer[p.drawn[k]] - p.keep)
            &&& 0 <= p.lanes[k] <= k
            &&& node.y == 34 + 48 * p.lanes[k]
            &&& node.short@ == base64(node.input.id@).subrange(37, 43)
            &&& node.is_create == (node.input.parent@.len() == 0)
            &&& node.is_tip == head.contains(node.input.id@)
        }),
{
    let g = graph_of(nodes);
    let p = plan(g);
    lemma_plan(g);
    lemma_own_lane(g, nodes, k);
    lemma_lanes(g, p.layer, p.drawn);
    lemma_even_ids(nodes);
    assert(0 <= p.drawn[k] < g.size());
    assert(p.drawn.contains(p.drawn[k]));
    assert(0 <= p.lanes[k] <= k);
    assert(nodes[p.drawn[k]].id@.len() == 32);
    let i = p.drawn[k];
    assert(p.order.contains(i));
    crate::plan_laws::lemma_top_layer(p.order, p.layer);
    let at = choose|at: int| 0 <= at < p.order.len() && p.order[at] == i;
    assert(p.layer[p.order[at]] <= p.top);
}

/// An id that is listed once stands for the event that has it.
proof fn lemma_edge(nodes: Seq<DagNodeInput>, p: int, c: int)
    requires
        distinct_ids(nodes),
        0 <= p < nodes.len(),
        0 <= c < nodes.len(),
    ensures
        graph_of(nodes).edge(p, c) <==> nodes[c].parent@.contains(nodes[p].id@),
{
    let g = graph_of(nodes);
    lemma_index_of(g.ids, g.ids[p]);
    let q = index_of(g.ids, g.ids[p]);
    assert(g.ids[p] == nodes[p].id@);
    if q < p {
        assert(g.ids[p] != g.ids[p]);
    }
    assert(g.ids[q] == nodes[q].id@);
    if q > p {
        assert(nodes[p].id@ != nodes[q].id@);
    }
}

/// The node of an event in the picture, if it is drawn.
proof fn lemma_drawn(model: DagModel, nodes: Seq<DagNodeInput>, head: Seq<Seq<u8>>, a: int, b: int)
    requires
        is_picture(model, nodes, head),
        distinct_ids(nodes),
        0 <= a < model.nodes@.len(),
        0 <= b < model.nodes@.len(),
    ensures
        ({
            let p = plan(graph_of(nodes));
            drawn_parent(model, a, b) <==> graph_of(nodes).edge(p.drawn[a], p.drawn[b])
        }),
{
    lemma_node(model, nodes, head, a);
    lemma_node(model, nodes, head, b);
    let p = plan(graph_of(nodes));
    lemma_edge(nodes, p.drawn[a], p.drawn[b]);
}

/// A picture shows events of the history, each once and as it was listed, under the last
/// six letters of its id: one without parents is marked as the creation, and one that is
/// in the head as a tip.
pub proof fn law_nodes_show_events(
    model: DagModel,
    nodes: Seq<DagNodeInput>,
    head: Seq<Seq<u8>>,
    a: int,
    b: int,
)
    requires
        is_picture(model, nodes, head),
        distinct_ids(nodes),
        0 <= a < model.nodes@.len(),
        0 <= b < model.nodes@.len(),
    ensures
        nodes.contains(model.nodes@[a].input),
        a != b ==> model.nodes@[a].input.id@ != model.nodes@[b].input.id@,
        model.nodes@[a].short@ == base64(model.nodes@[a].input.id@).subrange(37, 43),
        model.nodes@[a].is_create <==> model.nodes@[a].input.parent@.len() == 0,
        model.nodes@[a].is_tip <==> head.contains(model.nodes@[a].input.id@),
{
    let p = plan(graph_of(nodes));
    lemma_plan(graph_of(nodes));
    lemma_node(model, nodes, head, a);
    lemma_node(model, nodes, head, b);
    assert(nodes[p.drawn[a]] == model.nodes@[a].input);
    if a != b {
        assert(p.drawn[a] != p.drawn[b]);
        if p.drawn[a] < p.drawn[b] {
            assert(nodes[p.drawn[a]].id@ != nodes[p.drawn[b]].id@);
        } else {
            assert(nodes[p.drawn[b]].id@ != nodes[p.drawn[a]].id@);
        }
    }
}

/// From left to right a picture follows the history: an event stands one column behind
/// the last of its drawn parents, and in the first column where none is drawn.
pub proof fn law_columns_follow_the_history(
    model: DagModel,
    nodes: Seq<DagNodeInput>,
    head: Seq<Seq<u8>>,
    b: int,
)
    requires
        is_picture(model, nodes, head),
        distinct_ids(nodes),
        0 <= b < model.nodes@.len(),
    ensures
        forall|a: int| #[trigger]
            drawn_parent(model, a, b) ==> model.nodes@[a].x + 92 <= model.nodes@[b].x,
        model.nodes@[b].x == 40 || exists|a: int| #[trigger]
            drawn_parent(model, a, b) && model.nodes@[a].x + 92 == model.nodes@[b].x,
{
    let g = graph_of(nodes);
    let p = plan(g);
    lemma_plan(g);
    lemma_node(model, nodes, head, b);
    let c = p.drawn[b];
    assert(p.drawn.contains(c));
    law_longest_path(g, c);
    assert forall|a: int| #[trigger] drawn_parent(model, a, b) implies model.nodes@[a].x + 92
        <= model.nodes@[b].x by {
        lemma_node(model, nodes, head, a);
        lemma_drawn(model, nodes, head, a, b);
        assert(g.edge(p.drawn[a], c));
    }
    if model.nodes@[b].x != 40 {
        assert(p.layer[c] > p.keep);
        if forall|q: int| !#[trigger] g.edge(q, c) {
            assert(p.layer[c] == 0);
        }
        let q = choose|q: int| #[trigger] g.edge(q, c) && p.layer[c] == p.layer[q] + 1;
        lemma_link(g, q, c);
        let a = choose|a: int| 0 <= a < p.drawn.len() && p.drawn[a] == q;
        lemma_node(model, nodes, head, a);
        lemma_drawn(model, nodes, head, a, b);
        assert(drawn_parent(model, a, b));
    }
}

/// The drawn parents of an event come before it in the picture.
proof fn lemma_parents_before(
    model: DagModel,
    nodes: Seq<DagNodeInput>,
    head: Seq<Seq<u8>>,
    a: int,
    b: int,
)
    requires
        is_picture(model, nodes, head),
        distinct_ids(nodes),
        drawn_parent(model, a, b),
    ensures
        a < b,
{
    let g = graph_of(nodes);
    let p = plan(g);
    lemma_plan(g);
    lemma_drawn(model, nodes, head, a, b);
    lemma_node(model, nodes, head, a);
    lemma_node(model, nodes, head, b);
    assert(p.drawn.contains(p.drawn[b]));
    lemma_link(g, p.drawn[a], p.drawn[b]);
    if b <= a {
        assert(p.layer[p.drawn[b]] <= p.layer[p.drawn[a]]);
    }
}

/// What the smallest lane of listed parents is.
proof fn lemma_lowest_is_least(
    g: Graph,
    drawn: Seq<int>,
    given: Seq<int>,
    parents: Seq<Seq<u8>>,
)
    ensures
        match lowest(g, drawn, given, parents) {
            Some(m) => (exists|id: Seq<u8>| #[trigger]
                parents.contains(id) && lane_of(g, drawn, given, id) == Some(m)) && forall|
                id: Seq<u8>,
            | #[trigger]
                parents.contains(id) ==> (lane_of(g, drawn, given, id) matches Some(x) ==> m <= x),
            None => forall|id: Seq<u8>| #[trigger]
                parents.contains(id) ==> lane_of(g, drawn, given, id) is None,
        },
    decreases parents.len(),
{
    if parents.len() > 0 {
        let fewer = parents.drop_last();
        let last = parents.last();
        lemma_lowest_is_least(g, drawn, given, fewer);
        assert(parents[parents.len() - 1] == last);
        assert(parents.contains(last));
        assert forall|id: Seq<u8>| #[trigger] parents.contains(id) implies fewer.contains(id) || id
            == last by {
            let k = choose|k: int| 0 <= k < parents.len() && parents[k] == id;
            if k < fewer.len() {
                assert(fewer[k] == id);
            }
        }
        assert forall|id: Seq<u8>| #[trigger] fewer.contains(id) implies parents.contains(id) by {
            let k = choose|k: int| 0 <= k < fewer.len() && fewer[k] == id;
            assert(parents[k] == id);
        }
        match lowest(g, drawn, given, fewer) {
            Some(m) => {
                let id = choose|id: Seq<u8>| #[trigger]
                    fewer.contains(id) && lane_of(g, drawn, given, id) == Some(m);
                assert(parents.contains(id));
            },
            None => {},
        }
    }
}

/// The lane of an event that is drawn before the `b`th node.
proof fn lemma_earlier_lane(nodes: Seq<DagNodeInput>, a: int, b: int)
    requires
        distinct_ids(nodes),
        0 <= a < b < plan(graph_of(nodes)).drawn.len(),
    ensures
        ({
            let g = graph_of(nodes);
            let p = plan(g);
            lane_of(g, p.drawn.take(b), p.lanes.take(b), g.ids[p.drawn[a]]) == Some(p.lanes[a])
        }),
{
    let g = graph_of(nodes);
    let p = plan(g);
    lemma_plan(g);
    let d = p.drawn.take(b);
    let l = p.lanes.take(b);
    let id = g.ids[p.drawn[a]];
    lemma_lane_of(g, d, l, id);
    assert(d[a] == p.drawn[a]);
    assert(g.ids[d[a]] == id);
    let m = lane_of(g, d, l, id).unwrap();
    let k = choose|k: int|
        0 <= k < d.len() && g.ids[#[trigger] d[k]] == id && l[k] == m && (forall|j: int|
            k < j < d.len() ==> g.ids[#[trigger] d[j]] != id);
    assert(0 <= p.drawn[k] < g.size() && 0 <= p.drawn[a] < g.size());
    if k != a {
        assert(p.drawn[k] != p.drawn[a]);
        assert(d[k] == p.drawn[k]);
        if p.drawn[k] < p.drawn[a] {
            assert(nodes[p.drawn[k]].id@ != nodes[p.drawn[a]].id@);
        } else {
            assert(nodes[p.drawn[a]].id@ != nodes[p.drawn[k]].id@);
        }
    }
}

/// Some node of the picture before the `b`th one stands at that place.
pub open spec fn taken_before(model: DagModel, b: int, x: int, y: int) -> bool {
    exists|c: int|
        0 <= c < b && (#[trigger] model.nodes@[c]).x == x && model.nodes@[c].y == y
}

/// A branch keeps its lane: an event stands in the lane of one of its drawn parents, the
/// one drawn topmost, or below it, and below it only as far as the places from there on
/// are taken in its column. It never stands above it. An event with no drawn parent
/// stands in the topmost place that is not taken. No two stand in the same place.
pub proof fn law_a_branch_keeps_its_lane(
    model: DagModel,
    nodes: Seq<DagNodeInput>,
    head: Seq<Seq<u8>>,
    b: int,
)
    requires
        is_picture(model, nodes, head),
        distinct_ids(nodes),
        0 <= b < model.nodes@.len(),
    ensures
        (exists|a: int| #[trigger] drawn_parent(model, a, b)) ==> exists|a: int| #[trigger]
            drawn_parent(model, a, b) && model.nodes@[a].y <= model.nodes@[b].y && (forall|o: int|
                #[trigger] drawn_parent(model, o, b) ==> model.nodes@[a].y <= model.nodes@[o].y) && (
            forall|lane: int|
                model.nodes@[a].y <= 34 + 48 * lane < model.nodes@[b].y ==> #[trigger] taken_before(
                    model,
                    b,
                    model.nodes@[b].x as int,
                    34 + 48 * lane,
                )),
        (forall|a: int| !#[trigger] drawn_parent(model, a, b)) ==> forall|lane: int|
            0 <= lane && 34 + 48 * lane < model.nodes@[b].y ==> #[trigger] taken_before(
                model,
                b,
                model.nodes@[b].x as int,
                34 + 48 * lane,
            ),
        !taken_before(model, b, model.nodes@[b].x as int, model.nodes@[b].y as int),
{
    let g = graph_of(nodes);
    let p = plan(g);
    lemma_plan(g);
    lemma_node(model, nodes, head, b);
    law_greedy_lanes(g, b);
    let i = p.drawn[b];
    let d = p.drawn.take(b);
    let l = p.lanes.take(b);
    let want = wanted(g, d, l, i);
    lemma_lowest_is_least(g, d, l, g.parents[i]);
    assert(g.parents[i] == nodes[i].parent@);
    // the places of the column that are taken
    assert forall|lane: int| occupied(p.layer, d, l, p.layer[i], lane) <==> taken_before(
        model,
        b,
        model.nodes@[b].x as int,
        34 + 48 * lane,
    ) by {
        if occupied(p.layer, d, l, p.layer[i], lane) {
            let k = choose|k: int|
                0 <= k < d.len() && p.layer[#[trigger] d[k]] == p.layer[i] && l[k] == lane;
            lemma_node(model, nodes, head, k);
            assert(d[k] == p.drawn[k] && l[k] == p.lanes[k]);
            assert(model.nodes@[k].x == model.nodes@[b].x);
        }
        if taken_before(model, b, model.nodes@[b].x as int, 34 + 48 * lane) {
            let k = choose|k: int|
                0 <= k < b && (#[trigger] model.nodes@[k]).x == model.nodes@[b].x
                    && model.nodes@[k].y == 34 + 48 * lane;
            lemma_node(model, nodes, head, k);
            assert(p.layer[d[k]] == p.layer[i] && l[k] == lane);
        }
    }
    assert(is_first_free(p.layer, d, l, p.layer[i], want, p.lanes[b]));
    assert(!occupied(p.layer, d, l, p.layer[i], p.lanes[b]));
    // the drawn parents
    assert forall|a: int| #[trigger] drawn_parent(model, a, b) implies a < b
        && g.parents[i].contains(g.ids[p.drawn[a]]) && lane_of(g, d, l, g.ids[p.drawn[a]]) == Some(
        p.lanes[a],
    ) && model.nodes@[a].y == 34 + 48 * p.lanes[a] by {
        lemma_parents_before(model, nodes, head, a, b);
        lemma_node(model, nodes, head, a);
        lemma_earlier_lane(nodes, a, b);
    }
    if exists|a: int| #[trigger] drawn_parent(model, a, b) {
        let some = choose|a: int| #[trigger] drawn_parent(model, a, b);
        assert(lane_of(g, d, l, g.ids[p.drawn[some]]) is Some);
        let m = lowest(g, d, l, g.parents[i]).unwrap();
        let id = choose|id: Seq<u8>| #[trigger]
            g.parents[i].contains(id) && lane_of(g, d, l, id) == Some(m);
        lemma_lane_of(g, d, l, id);
        let a = choose|k: int|
            0 <= k < d.len() && g.ids[#[trigger] d[k]] == id && l[k] == m && (forall|j: int|
                k < j < d.len() ==> g.ids[#[trigger] d[j]] != id);
        lemma_node(model, nodes, head, a);
        assert(d[a] == p.drawn[a]);
        assert(nodes[p.drawn[a]].id@ == id);
        assert(drawn_parent(model, a, b));
        assert forall|lane: int|
            model.nodes@[a].y <= 34 + 48 * lane < model.nodes@[b].y implies #[trigger] taken_before(
            model,
            b,
            model.nodes@[b].x as int,
            34 + 48 * lane,
        ) by {
            assert(want <= lane < p.lanes[b]);
            assert(occupied(p.layer, d, l, p.layer[i], lane));
        }
    } else {
        if let Some(m) = lowest(g, d, l, g.parents[i]) {
            let id = choose|id: Seq<u8>| #[trigger]
                g.parents[i].contains(id) && lane_of(g, d, l, id) == Some(m);
            lemma_lane_of(g, d, l, id);
            let a = choose|k: int|
                0 <= k < d.len() && g.ids[#[trigger] d[k]] == id && l[k] == m && (forall|j: int|
                    k < j < d.len() ==> g.ids[#[trigger] d[j]] != id);
            lemma_node(model, nodes, head, a);
            assert(d[a] == p.drawn[a]);
            assert(drawn_parent(model, a, b));
        }
        assert(want == 0);
        assert forall|lane: int| 0 <= lane && 34 + 48 * lane < model.nodes@[b].y implies
            #[trigger] taken_before(model, b, model.nodes@[b].x as int, 34 + 48 * lane) by {
            assert(occupied(p.layer, d, l, p.layer[i], lane));
        }
    }
}

// ---------------------------------------------------------------------------
// Links
// ---------------------------------------------------------------------------

/// The drawn links into one event are those of its parents, one each, in order.
proof fn lemma_links_into_distinct(
    g: Graph,
    layer: Seq<int>,
    keep: int,
    c: int,
    parents: Seq<Seq<u8>>,
)
    requires
        parents.no_duplicates(),
    ensures
        links_into(g, layer, keep, c, parents).no_duplicates(),
        forall|e: int|
            0 <= e < links_into(g, layer, keep, c, parents).len() ==> (#[trigger] links_into(
                g,
                layer,
                keep,
                c,
                parents,
            )[e]).1 == c && parents.contains(g.ids[links_into(g, layer, keep, c, parents)[e].0]),
    decreases parents.len(),
{
    if parents.len() > 0 {
        let fewer = parents.drop_last();
        let last = parents.last();
        lemma_links_into_distinct(g, layer, keep, c, fewer);
        lemma_index_of(g.ids, last);
        let before = links_into(g, layer, keep, c, fewer);
        let all = links_into(g, layer, keep, c, parents);
        assert(parents[parents.len() - 1] == last);
        assert forall|e: int| 0 <= e < all.len() implies (#[trigger] all[e]).1 == c
            && parents.contains(g.ids[all[e].0]) by {
            if e < before.len() {
                assert(all[e] == before[e]);
                let k = choose|k: int| 0 <= k < fewer.len() && fewer[k] == g.ids[before[e].0];
                assert(parents[k] == g.ids[all[e].0]);
            }
        }
        assert forall|e: int, f: int|
            0 <= e < all.len() && 0 <= f < all.len() && e != f implies all[e] != all[f] by {
            let (low, high) = if e < f {
                (e, f)
            } else {
                (f, e)
            };
            assert(all[low] == before[low]);
            if high < before.len() {
                assert(all[high] == before[high]);
            } else {
                assert(g.ids[all[high].0] == last);
                let k = choose|k: int| 0 <= k < fewer.len() && fewer[k] == g.ids[before[low].0];
                assert(parents[k] != parents[parents.len() - 1]);
            }
        }
    }
}

/// No link is drawn twice.
proof fn lemma_links_distinct(g: Graph, layer: Seq<int>, keep: int, drawn: Seq<int>)
    requires
        drawn.no_duplicates(),
        forall|k: int| 0 <= k < drawn.len() ==> g.parents[#[trigger] drawn[k]].no_duplicates(),
    ensures
        links(g, layer, keep, drawn).no_duplicates(),
        forall|e: int|
            0 <= e < links(g, layer, keep, drawn).len() ==> drawn.contains(
                (#[trigger] links(g, layer, keep, drawn)[e]).1,
            ),
    decreases drawn.len(),
{
    if drawn.len() > 0 {
        let fewer = drawn.drop_last();
        let c = drawn.last();
        assert forall|k: int| 0 <= k < fewer.len() implies g.parents[#[trigger]
            fewer[k]].no_duplicates() by {
            assert(g.parents[drawn[k]].no_duplicates());
        }
        assert(drawn[drawn.len() - 1] == c);
        lemma_links_distinct(g, layer, keep, fewer);
        lemma_links_into_distinct(g, layer, keep, c, g.parents[c]);
        let before = links(g, layer, keep, fewer);
        let into = links_into(g, layer, keep, c, g.parents[c]);
        let all = links(g, layer, keep, drawn);
        assert(all =~= before + into);
        assert forall|e: int| 0 <= e < all.len() implies drawn.contains((#[trigger] all[e]).1) by {
            if e < before.len() {
                assert(all[e] == before[e]);
                let k = choose|k: int| 0 <= k < fewer.len() && fewer[k] == before[e].1;
                assert(drawn[k] == all[e].1);
            } else {
                assert(all[e] == into[e - before.len()]);
            }
        }
        assert forall|e: int, f: int|
            0 <= e < all.len() && 0 <= f < all.len() && e != f implies all[e] != all[f] by {
            let (low, high) = if e < f {
                (e, f)
            } else {
                (f, e)
            };
            if high < before.len() {
                assert(all[low] == before[low] && all[high] == before[high]);
            } else if low >= before.len() {
                assert(all[low] == into[low - before.len()]);
                assert(all[high] == into[high - before.len()]);
            } else {
                assert(all[low] == before[low]);
                assert(all[high] == into[high - before.len()]);
                assert(all[high].1 == c);
                let k = choose|k: int| 0 <= k < fewer.len() && fewer[k] == before[low].1;
                assert(drawn[k] != drawn[drawn.len() - 1]);
            }
        }
    }
}

/// A number with one decimal, as a path has it.
pub open spec fn pixels(n: int) -> Seq<char> {
    decimal(n as nat) + seq!['.', '0']
}

/// `path` is a curve from one place to another, that leaves level, half a column out,
/// and arrives level.
pub open spec fn joins(path: Seq<char>, x1: int, y1: int, x2: int, y2: int) -> bool {
    path == seq!['M', ' '] + pixels(x1) + seq![' '] + pixels(y1) + seq![' ', 'C', ' '] + pixels(
        x1 + 46,
    ) + seq![' '] + pixels(y1) + seq![',', ' '] + pixels(x2 - 46) + seq![' '] + pixels(y2) + seq![
        ',',
        ' ',
    ] + pixels(x2) + seq![' '] + pixels(y2)
}

/// Edge `e` of the picture leads from node `a` to node `b`.
pub open spec fn leads(model: DagModel, e: int, a: int, b: int) -> bool {
    &&& 0 <= e < model.edges@.len()
    &&& 0 <= a < model.nodes@.len()
    &&& 0 <= b < model.nodes@.len()
    &&& model.edges@[e].from@ == model.nodes@[a].input.id@
    &&& model.edges@[e].to@ == model.nodes@[b].input.id@
    &&& joins(
        model.edges@[e].path@,
        model.nodes@[a].x as int,
        model.nodes@[a].y as int,
        model.nodes@[b].x as int,
        model.nodes@[b].y as int,
    )
}

/// Edge `e` of the picture leads from a drawn event's parent to the event.
pub open spec fn has_ends(model: DagModel, e: int) -> bool {
    exists|a: int, b: int| #[trigger] leads(model, e, a, b) && drawn_parent(model, a, b)
}

/// Every event names each of its parents once.
pub open spec fn parents_once(nodes: Seq<DagNodeInput>) -> bool {
    forall|i: int| 0 <= i < nodes.len() ==> (#[trigger] nodes[i]).parent@.no_duplicates()
}

/// The edges of a picture join every drawn event with its drawn parents, one edge for
/// each, from where the parent is drawn to where the event is drawn, and there are no
/// others.
pub proof fn law_edges_join_events_with_their_parents(
    model: DagModel,
    nodes: Seq<DagNodeInput>,
    head: Seq<Seq<u8>>,
)
    requires
        is_picture(model, nodes, head),
        distinct_ids(nodes),
        parents_once(nodes),
    ensures
        forall|a: int, b: int| #[trigger]
            drawn_parent(model, a, b) ==> exists|e: int| #[trigger] leads(model, e, a, b),
        forall|e: int| 0 <= e < model.edges@.len() ==> #[trigger] has_ends(model, e),
        forall|e: int, f: int|
            0 <= e < f < model.edges@.len() ==> (#[trigger] model.edges@[e]).from@ != (
            #[trigger] model.edges@[f]).from@ || model.edges@[e].to@ != model.edges@[f].to@,
{
    let g = graph_of(nodes);
    let p = plan(g);
    let all = links(g, p.layer, p.keep, p.drawn);
    lemma_plan(g);
    assert forall|k: int| 0 <= k < p.drawn.len() implies g.parents[#[trigger]
        p.drawn[k]].no_duplicates() by {
        assert(0 <= p.drawn[k] < g.size());
        assert(nodes[p.drawn[k]].parent@.no_duplicates());
    }
    lemma_links_distinct(g, p.layer, p.keep, p.drawn);
    assert forall|a: int, b: int, e: int|
        0 <= a < model.nodes@.len() && 0 <= b < model.nodes@.len() && 0 <= e < all.len() && all[e]
            == (p.drawn[a], p.drawn[b]) implies #[trigger] leads(model, e, a, b) by {
        lemma_leads(model, nodes, head, e, a, b);
    }
    assert forall|a: int, b: int| #[trigger] drawn_parent(model, a, b) implies exists|e: int|
        #[trigger] leads(model, e, a, b) by {
        lemma_drawn(model, nodes, head, a, b);
        assert(p.drawn.contains(p.drawn[a]) && p.drawn.contains(p.drawn[b]));
        law_links_join_drawn_events(g, p.drawn[a], p.drawn[b]);
        let e = choose|e: int| 0 <= e < all.len() && all[e] == (p.drawn[a], p.drawn[b]);
        assert(leads(model, e, a, b));
    }
    assert forall|e: int| 0 <= e < model.edges@.len() implies #[trigger] has_ends(model, e) by {
        let link = all[e];
        assert(all.contains(link));
        law_links_join_drawn_events(g, link.0, link.1);
        let a = choose|a: int| 0 <= a < p.drawn.len() && p.drawn[a] == link.0;
        let b = choose|b: int| 0 <= b < p.drawn.len() && p.drawn[b] == link.1;
        lemma_drawn(model, nodes, head, a, b);
        assert(leads(model, e, a, b));
        assert(drawn_parent(model, a, b));
    }
    assert forall|e: int, f: int| 0 <= e < f < model.edges@.len() implies (
    #[trigger] model.edges@[e]).from@ != (#[trigger] model.edges@[f]).from@ || model.edges@[e].to@
        != model.edges@[f].to@ by {
        assert(all[e] != all[f]);
        assert(all.contains(all[e]) && all.contains(all[f]));
        law_links_join_drawn_events(g, all[e].0, all[e].1);
        law_links_join_drawn_events(g, all[f].0, all[f].1);
        lemma_same_id(nodes, all[e].0, all[f].0);
        lemma_same_id(nodes, all[e].1, all[f].1);
    }
}

proof fn lemma_same_id(nodes: Seq<DagNodeInput>, i: int, j: int)
    requires
        distinct_ids(nodes),
        0 <= i < nodes.len(),
        0 <= j < nodes.len(),
    ensures
        graph_of(nodes).ids[i] == graph_of(nodes).ids[j] ==> i == j,
{
    assert(graph_of(nodes).ids[i] == nodes[i].id@);
    assert(graph_of(nodes).ids[j] == nodes[j].id@);
    if i < j {
        assert(nodes[i].id@ != nodes[j].id@);
    }
    if j < i {
        assert(nodes[j].id@ != nodes[i].id@);
    }
}

proof fn lemma_leads(
    model: DagModel,
    nodes: Seq<DagNodeInput>,
    head: Seq<Seq<u8>>,
    e: int,
    a: int,
    b: int,
)
    requires
        is_picture(model, nodes, head),
        distinct_ids(nodes),
        0 <= a < model.nodes@.len(),
        0 <= b < model.nodes@.len(),
        ({
            let g = graph_of(nodes);
            let p = plan(g);
            let all = links(g, p.layer, p.keep, p.drawn);
            0 <= e < all.len() && all[e] == (p.drawn[a], p.drawn[b])
        }),
    ensures
        leads(model, e, a, b),
{
    let g = graph_of(nodes);
    let p = plan(g);
    lemma_node(model, nodes, head, a);
    lemma_node(model, nodes, head, b);
    lemma_own_lane(g, nodes, a);
    lemma_own_lane(g, nodes, b);
    reveal_strlit("M ");
    reveal_strlit(" ");
    reveal_strlit(" C ");
    reveal_strlit(", ");
    reveal_strlit(".0");
    assert("M "@ =~= seq!['M', ' ']);
    assert(" "@ =~= seq![' ']);
    assert(" C "@ =~= seq![' ', 'C', ' ']);
    assert(", "@ =~= seq![',', ' ']);
    assert(".0"@ =~= seq!['.', '0']);
    assert(model.edges@[e].path@ == model.edges@[e].path@);
}

// ---------------------------------------------------------------------------
// Size and counts
// ---------------------------------------------------------------------------

/// A picture is as large as what is drawn: every node keeps its distance from the
/// edges, and one node is as far right and one as far down as the picture allows.
pub proof fn law_the_picture_fits(model: DagModel, nodes: Seq<DagNodeInput>, head: Seq<Seq<u8>>)
    requires
        is_picture(model, nodes, head),
        distinct_ids(nodes),
    ensures
        forall|a: int|
            0 <= a < model.nodes@.len() ==> 40 <= (#[trigger] model.nodes@[a]).x
                && model.nodes@[a].x + 40 <= model.width && 34 <= model.nodes@[a].y
                && model.nodes@[a].y + 48 <= model.height,
        model.nodes@.len() > 0 ==> exists|a: int|
            0 <= a < model.nodes@.len() && (#[trigger] model.nodes@[a]).x + 40 == model.width,
        model.nodes@.len() > 0 ==> exists|a: int|
            0 <= a < model.nodes@.len() && (#[trigger] model.nodes@[a]).y + 48 == model.height,
        model.nodes@.len() == 0 ==> model.width == 80 && model.height == 82,
{
    let g = graph_of(nodes);
    let p = plan(g);
    lemma_plan(g);
    lemma_lanes(g, p.layer, p.drawn);
    assert forall|k: int| 0 <= k < p.lanes.len() implies 0 <= #[trigger] p.lanes[k] by {
        assert(0 <= lanes(g, p.layer, p.drawn)[k]);
    }
    lemma_top_lane(p.lanes);
    crate::plan_laws::lemma_top_layer(p.order, p.layer);
    assert forall|a: int| 0 <= a < model.nodes@.len() implies 40 <= (#[trigger] model.nodes@[a]).x
        && model.nodes@[a].x + 40 <= model.width && 34 <= model.nodes@[a].y && model.nodes@[a].y
        + 48 <= model.height by {
        lemma_node(model, nodes, head, a);
        assert(p.lanes[a] <= top_lane(p.lanes));
    }
    if model.nodes@.len() > 0 {
        let m = lemma_top_lane(p.lanes);
        lemma_node(model, nodes, head, m);
        assert(model.nodes@[m].y + 48 == model.height);
        lemma_node(model, nodes, head, 0);
        assert(p.drawn.contains(p.drawn[0]));
        let top = if p.top > 0 {
            let k = choose|k: int|
                0 <= k < p.order.len() && p.layer[#[trigger] p.order[k]] == p.top;
            p.order[k]
        } else {
            p.drawn[0]
        };
        assert(p.order.contains(top) && p.layer[top] == p.top);
        assert(p.drawn.contains(top));
        let a = choose|a: int| 0 <= a < p.drawn.len() && p.drawn[a] == top;
        lemma_node(model, nodes, head, a);
        assert(model.nodes@[a].x + 40 == model.width);
    } else {
        if p.order.len() > 0 {
            lemma_something_is_drawn(g);
        }
    }
}

/// Where something is placed, something is drawn.
proof fn lemma_something_is_drawn(g: Graph)
    requires
        plan(g).order.len() > 0,
    ensures
        plan(g).drawn.len() > 0,
{
    law_newest_layers_are_drawn(g);
}

proof fn lemma_top_lane(lanes: Seq<int>) -> (at: int)
    requires
        forall|k: int| 0 <= k < lanes.len() ==> 0 <= #[trigger] lanes[k],
    ensures
        forall|k: int| 0 <= k < lanes.len() ==> #[trigger] lanes[k] <= top_lane(lanes),
        lanes.len() > 0 ==> 0 <= at < lanes.len() && lanes[at] == top_lane(lanes),
        lanes.len() == 0 ==> top_lane(lanes) == 0,
    decreases lanes.len(),
{
    if lanes.len() == 0 {
        0
    } else {
        let fewer = lanes.drop_last();
        let before = lemma_top_lane(fewer);
        assert forall|k: int| 0 <= k < lanes.len() implies #[trigger] lanes[k] <= top_lane(
            lanes,
        ) by {
            if k < fewer.len() {
                assert(fewer[k] == lanes[k]);
            }
        }
        assert(0 <= lanes[lanes.len() - 1]);
        if lanes.last() > top_lane(fewer) || fewer.len() == 0 {
            lanes.len() - 1
        } else {
            before
        }
    }
}

/// A missing parent is counted for every event that names it: the count of a history
/// is that of its events, one by one.
pub proof fn law_missing_parents_are_counted(g: Graph, n: nat)
    ensures
        dangling(g, 0) == 0,
        dangling(g, n + 1) == dangling(g, n) + g.parents[n as int].filter(
            |id: Seq<u8>| !g.ids.contains(id),
        ).len(),
{
    lemma_absent(g, g.parents[n as int]);
}

proof fn lemma_absent(g: Graph, parents: Seq<Seq<u8>>)
    ensures
        absent(g, parents) == parents.filter(|id: Seq<u8>| !g.ids.contains(id)).len(),
    decreases parents.len(),
{
    let gone = |id: Seq<u8>| !g.ids.contains(id);
    reveal(Seq::filter);
    if parents.len() > 0 {
        lemma_absent(g, parents.drop_last());
        let id = parents.last();
        lemma_index_of(g.ids, id);
        if g.ids.contains(id) {
            let q = choose|q: int| 0 <= q < g.ids.len() && g.ids[q] == id;
            assert(index_of(g.ids, id) >= q);
        } else if index_of(g.ids, id) >= 0 {
            assert(g.ids[index_of(g.ids, id)] == id);
        }
    }
}

/// The counts of a picture: what is not drawn is counted as omitted, and every parent
/// that is missing is counted.
pub proof fn law_the_picture_counts_what_it_leaves_out(
    model: DagModel,
    nodes: Seq<DagNodeInput>,
    head: Seq<Seq<u8>>,
)
    requires
        is_picture(model, nodes, head),
    ensures
        model.nodes@.len() + model.omitted == nodes.len(),
        dangling(graph_of(nodes), nodes.len()) <= usize::MAX ==> model.dangling == dangling(
            graph_of(nodes),
            nodes.len(),
        ),
{
    lemma_plan(graph_of(nodes));
    crate::text::lemma_word_step(dangling(graph_of(nodes), nodes.len()));
}

/// Past two hundred events the newest columns are drawn: as long as so many can be
/// placed, so many are drawn; without the first column there would be fewer; and what
/// builds on something drawn is drawn.
pub proof fn law_the_newest_are_drawn(model: DagModel, nodes: Seq<DagNodeInput>, head: Seq<Seq<u8>>)
    requires
        is_picture(model, nodes, head),
        distinct_ids(nodes),
    ensures
        nodes.len() <= 200 || plan(graph_of(nodes)).order.len() < 200 ==> model.nodes@.len()
            == plan(graph_of(nodes)).order.len(),
        nodes.len() > 200 && plan(graph_of(nodes)).order.len() >= 200 ==> model.nodes@.len() >= 200
            && model.nodes@.filter(|node: DagNodeVis| node.x > 40).len() < 200,
        forall|a: int, i: int|
            #![trigger model.nodes@[a], nodes[i]]
            0 <= a < model.nodes@.len() && 0 <= i < nodes.len() && plan(
                graph_of(nodes),
            ).order.contains(i) && nodes[i].parent@.contains(model.nodes@[a].input.id@)
                ==> exists|b: int|
                0 <= b < model.nodes@.len() && (#[trigger] model.nodes@[b]).input == nodes[i],
{
    let g = graph_of(nodes);
    let p = plan(g);
    lemma_plan(g);
    law_newest_layers_are_drawn(g);
    if nodes.len() > 200 && p.order.len() >= 200 {
        lemma_columns_behind(model, nodes, head, model.nodes@.len() as int);
        assert(model.nodes@.take(model.nodes@.len() as int) =~= model.nodes@);
        assert(p.drawn.take(p.drawn.len() as int) =~= p.drawn);
        lemma_count_behind(g);
    }
    assert forall|a: int, i: int|
        #![trigger model.nodes@[a], nodes[i]]
        0 <= a < model.nodes@.len() && 0 <= i < nodes.len() && p.order.contains(i)
            && nodes[i].parent@.contains(model.nodes@[a].input.id@) implies exists|b: int|
        0 <= b < model.nodes@.len() && (#[trigger] model.nodes@[b]).input == nodes[i] by {
        lemma_node(model, nodes, head, a);
        lemma_edge(nodes, p.drawn[a], i);
        law_longest_path(g, i);
        assert(g.edge(p.drawn[a], i));
        assert(p.drawn.contains(i));
        let b = choose|b: int| 0 <= b < p.drawn.len() && p.drawn[b] == i;
        lemma_node(model, nodes, head, b);
        assert(model.nodes@[b].input == nodes[i]);
    }
}

/// The nodes behind the first column are the drawn events of the later layers.
proof fn lemma_columns_behind(
    model: DagModel,
    nodes: Seq<DagNodeInput>,
    head: Seq<Seq<u8>>,
    n: int,
)
    requires
        is_picture(model, nodes, head),
        distinct_ids(nodes),
        0 <= n <= model.nodes@.len(),
    ensures
        model.nodes@.take(n).filter(|node: DagNodeVis| node.x > 40).len() == count_from(
            plan(graph_of(nodes)).drawn.take(n),
            plan(graph_of(nodes)).layer,
            plan(graph_of(nodes)).keep + 1,
        ),
    decreases n,
{
    reveal(Seq::filter);
    let p = plan(graph_of(nodes));
    if n > 0 {
        lemma_columns_behind(model, nodes, head, n - 1);
        lemma_node(model, nodes, head, n - 1);
        assert(model.nodes@.take(n).drop_last() =~= model.nodes@.take(n - 1));
        assert(p.drawn.take(n).drop_last() =~= p.drawn.take(n - 1));
        assert(model.nodes@.take(n).last() == model.nodes@[n - 1]);
        assert(p.drawn.take(n).last() == p.drawn[n - 1]);
    }
}

/// Among the drawn events there are no more of the later layers than among all.
proof fn lemma_count_behind(g: Graph)
    ensures
        count_from(plan(g).drawn, plan(g).layer, plan(g).keep + 1) <= count_from(
            plan(g).order,
            plan(g).layer,
            plan(g).keep + 1,
        ),
{
    let p = plan(g);
    lemma_plan(g);
    let t = p.keep + 1;
    let later = |i: int| p.layer[i] >= t;
    lemma_count_filter(p.drawn, p.layer, t);
    lemma_count_filter(p.order, p.layer, t);
    let few = p.drawn.filter(later);
    let many = p.order.filter(later);
    lemma_filter_distinct(p.drawn, later);
    assert(p.order.no_duplicates());
    lemma_filter_distinct(p.order, later);
    few.unique_seq_to_set();
    many.unique_seq_to_set();
    assert forall|i: int| few.to_set().contains(i) implies many.to_set().contains(i) by {
        assert(few.contains(i));
        assert(p.drawn.contains(i));
        assert(p.order.contains(i));
        let k = choose|k: int| 0 <= k < few.len() && few[k] == i;
        p.drawn.lemma_filter_pred(later, k);
        let m = choose|m: int| 0 <= m < p.order.len() && p.order[m] == i;
        p.order.lemma_filter_contains(later, m);
    }
    vstd::set_lib::lemma_len_subset(few.to_set(), many.to_set());
}

proof fn lemma_filter_distinct(list: Seq<int>, pick: spec_fn(int) -> bool)
    requires
        list.no_duplicates(),
    ensures
        list.filter(pick).no_duplicates(),
        forall|i: int| #[trigger] list.filter(pick).contains(i) ==> list.contains(i),
    decreases list.len(),
{
    reveal(Seq::filter);
    if list.len() > 0 {
        let fewer = list.drop_last();
        let last = list.last();
        lemma_filter_distinct(fewer, pick);
        let before = fewer.filter(pick);
        let all = list.filter(pick);
        assert(!fewer.contains(last)) by {
            if fewer.contains(last) {
                let k = choose|k: int| 0 <= k < fewer.len() && fewer[k] == last;
                assert(list[k] == list[list.len() - 1]);
            }
        }
        assert forall|i: int| #[trigger] all.contains(i) implies list.contains(i) by {
            let k = choose|k: int| 0 <= k < all.len() && all[k] == i;
            if k < before.len() {
                assert(before[k] == i);
                assert(before.contains(i));
                let m = choose|m: int| 0 <= m < fewer.len() && fewer[m] == i;
                assert(list[m] == i);
            } else {
                assert(list[list.len() - 1] == i);
            }
        }
        assert forall|i: int, j: int|
            0 <= i < all.len() && 0 <= j < all.len() && i != j implies all[i] != all[j] by {
            if i < before.len() {
                assert(before.contains(before[i]));
            }
            if j < before.len() {
                assert(before.contains(before[j]));
            }
        }
    }
}

proof fn lemma_count_filter(order: Seq<int>, layer: Seq<int>, t: int)
    ensures
        count_from(order, layer, t) == order.filter(|i: int| layer[i] >= t).len(),
    decreases order.len(),
{
    reveal(Seq::filter);
    if order.len() > 0 {
        lemma_count_filter(order.drop_last(), layer, t);
    }
}

} // verus!
