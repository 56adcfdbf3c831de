//! Event-DAG layout for the entity inspector: a topological order with
//! longest-path layering (x axis) and greedy lane assignment (y axis).
//!
//! Events are content-addressed and acyclic by construction; should corrupt
//! data hold a cycle, what resolves is drawn and the rest is counted.

use vstd::prelude::*;

use crate::decode::OpBadge;
use crate::ids::{base64, last_six, precedes, Clock, EventId};
use crate::plan::{
    absent, ascending_where, column, columns, count_from, dangling, index_of, is_cut, is_first_free,
    keep_from, lane_of, lanes, lemma_index_of, links, links_into, lowest,
    occupied, plan, top_lane, top_layer, wanted, Graph, Plan, MAX_RENDER,
};
use crate::plan_laws::{
    lemma_count_all, lemma_count_witness, lemma_cut_unique, lemma_distinct_below, lemma_free_unique,
    lemma_lane_of, lemma_lane_of_prefix, lemma_lanes, lemma_link, lemma_lowest,
    lemma_plan, lemma_push_contains, lemma_roots_sound, lemma_step_sound, lemma_top_below, sound,
};
use crate::text::{decimal, decimal_text, lemma_word_step, word};

verus! {

/// Everything the inspector knows about one event, before layout.
#[derive(Clone, Debug, PartialEq)]
pub struct DagNodeInput {
    pub id: EventId,
    pub parent: Clock,
    pub badges: Vec<OpBadge>,
    /// `None` when the event body arrived without its attestations.
    pub attestations: Option<usize>,
    /// True if fetched from a durable peer rather than found locally.
    pub fetched: bool,
    /// LWW properties whose current value this event wrote.
    pub wrote_current: Vec<String>,
}

/// One event, placed.
#[derive(Clone, Debug, PartialEq)]
pub struct DagNodeVis {
    pub input: DagNodeInput,
    pub x: u128,
    pub y: u128,
    pub short: String,
    pub is_create: bool,
    pub is_tip: bool,
}

/// One parent link, drawn.
#[derive(Clone, Debug, PartialEq)]
pub struct DagEdgeVis {
    /// The parent.
    pub from: EventId,
    /// The child.
    pub to: EventId,
    /// The cubic Bézier path.
    pub path: String,
}

/// A history, laid out. Coordinates are whole pixels.
#[derive(Clone, Debug, PartialEq)]
pub struct DagModel {
    pub nodes: Vec<DagNodeVis>,
    pub edges: Vec<DagEdgeVis>,
    pub width: u128,
    pub height: u128,
    /// Events not drawn because of the render cap (or a cycle).
    pub omitted: usize,
    /// Parent ids referenced but not present (unfetched history).
    pub dangling: usize,
}

impl Default for DagModel {
    /// The picture of no history.
    fn default() -> (model: DagModel)
        ensures
            model.nodes.len() == 0,
            model.edges.len() == 0,
            model.width == 0,
            model.height == 0,
            model.omitted == 0,
            model.dangling == 0,
    {
        DagModel {
            nodes: Vec::new(),
            edges: Vec::new(),
            width: 0,
            height: 0,
            omitted: 0,
            dangling: 0,
        }
    }
}

/// The numbers a list of machine words stands for.
pub open spec fn ints(words: Seq<usize>) -> Seq<int> {
    Seq::new(words.len(), |i: int| words[i] as int)
}

/// The history that a list of events describes.
pub open spec fn graph_of(nodes: Seq<DagNodeInput>) -> Graph {
    Graph {
        ids: Seq::new(nodes.len(), |i: int| nodes[i].id@),
        parents: Seq::new(nodes.len(), |i: int| nodes[i].parent@),
    }
}

// ---------------------------------------------------------------------------
// Base order
// ---------------------------------------------------------------------------

/// `x` put in front of the first event whose id is not smaller.
pub open spec fn placed(nodes: Seq<DagNodeInput>, x: DagNodeInput) -> Seq<DagNodeInput>
    decreases nodes.len(),
{
    if nodes.len() > 0 && precedes(nodes.first().id@, x.id@) {
        seq![nodes.first()] + placed(nodes.drop_first(), x)
    } else {
        seq![x] + nodes
    }
}

/// The events in byte order of their ids; events of the same id keep their order.
pub open spec fn by_id(nodes: Seq<DagNodeInput>) -> Seq<DagNodeInput>
    decreases nodes.len(),
{
    if nodes.len() == 0 {
        Seq::empty()
    } else {
        placed(by_id(nodes.drop_first()), nodes.first())
    }
}

proof fn lemma_placed_at(nodes: Seq<DagNodeInput>, x: DagNodeInput, at: int)
    requires
        0 <= at <= nodes.len(),
        forall|j: int| 0 <= j < at ==> precedes(#[trigger] nodes[j].id@, x.id@),
        at < nodes.len() ==> !precedes(nodes[at].id@, x.id@),
    ensures
        placed(nodes, x) == nodes.insert(at, x),
    decreases nodes.len(),
{
    if at == 0 {
        assert(seq![x] + nodes =~= nodes.insert(0, x));
    } else {
        assert forall|j: int| 0 <= j < at - 1 implies precedes(
            #[trigger] nodes.drop_first()[j].id@,
            x.id@,
        ) by {
            assert(nodes.drop_first()[j] == nodes[j + 1]);
        }
        assert(precedes(nodes[0].id@, x.id@));
        lemma_placed_at(nodes.drop_first(), x, at - 1);
        assert(seq![nodes.first()] + nodes.drop_first().insert(at - 1, x) =~= nodes.insert(at, x));
    }
}

/// Sort events by id.
fn sort_by_id(inputs: Vec<DagNodeInput>) -> (sorted: Vec<DagNodeInput>)
    ensures
        sorted@ == by_id(inputs@),
{
    let mut inputs = inputs;
    let ghost all = inputs@;
    let mut sorted: Vec<DagNodeInput> = Vec::new();
    assert(all.skip(inputs.len() as int) =~= Seq::<DagNodeInput>::empty());
    while inputs.len() > 0
        invariant
            inputs.len() <= all.len(),
            inputs@ == all.take(inputs.len() as int),
            sorted@ == by_id(all.skip(inputs.len() as int)),
        decreases inputs.len(),
    {
        let ghost m = inputs.len() as int;
        let ghost had = sorted@;
        if let Some(x) = inputs.pop() {
            let mut at: usize = 0;
            while at < sorted.len() && sorted[at].id.comes_before(&x.id)
                invariant
                    at <= sorted.len(),
                    sorted@ == had,
                    forall|j: int| 0 <= j < at ==> precedes(#[trigger] had[j].id@, x.id@),
                ensures
                    at < sorted.len() ==> !precedes(had[at as int].id@, x.id@),
                decreases sorted.len() - at,
            {
                at += 1;
            }
            proof {
                lemma_placed_at(had, x, at as int);
                assert(all.skip(m - 1).drop_first() =~= all.skip(m));
                assert(all.skip(m - 1).first() == all[m - 1]);
                assert(x == all.take(m).last());
                assert(inputs@ =~= all.take(m - 1));
            }
            sorted.insert(at, x);
        }
    }
    assert(all.skip(0) =~= all);
    sorted
}

// ---------------------------------------------------------------------------
// Parent references
// ---------------------------------------------------------------------------

/// The place of an id among the events, the last one where it occurs twice.
fn place_of(nodes: &Vec<DagNodeInput>, id: &EventId) -> (place: Option<usize>)
    ensures
        match place {
            Some(p) => p < nodes.len() && index_of(graph_of(nodes@).ids, id@) == p,
            None => index_of(graph_of(nodes@).ids, id@) == -1,
        },
{
    let ghost ids = graph_of(nodes@).ids;
    let mut i: usize = nodes.len();
    assert(ids.take(i as int) =~= ids);
    while i > 0
        invariant
            i <= nodes.len(),
            ids == graph_of(nodes@).ids,
            index_of(ids, id@) == index_of(ids.take(i as int), id@),
        decreases i,
    {
        assert(ids.take(i as int).drop_last() =~= ids.take(i - 1));
        i -= 1;
        if nodes[i].id.same(id) {
            return Some(i);
        }
    }
    None
}

/// Where the parents of one event are, one entry per parent.
spec fn refs_ok(g: Graph, parents: Seq<Seq<u8>>, refs: Seq<Option<usize>>) -> bool {
    &&& refs.len() == parents.len()
    &&& forall|k: int|
        0 <= k < refs.len() ==> match #[trigger] refs[k] {
            Some(p) => p < g.size() && index_of(g.ids, parents[k]) == p,
            None => index_of(g.ids, parents[k]) == -1,
        }
}

/// Where the parents of every event are.
spec fn table_ok(g: Graph, table: Seq<Vec<Option<usize>>>) -> bool {
    &&& table.len() == g.size()
    &&& g.wf()
    &&& forall|c: int| 0 <= c < table.len() ==> refs_ok(g, g.parents[c], (#[trigger] table[c])@)
}

proof fn lemma_refs_edge(g: Graph, refs: Seq<Option<usize>>, p: int, c: int)
    requires
        g.wf(),
        0 <= c < g.size(),
        refs_ok(g, g.parents[c], refs),
    ensures
        g.edge(p, c) <==> exists|k: int| 0 <= k < refs.len() && #[trigger] refs[k] == Some(p as usize)
            && 0 <= p <= usize::MAX,
{
    if g.edge(p, c) {
        let k = choose|k: int| 0 <= k < g.parents[c].len() && g.parents[c][k] == g.ids[p];
        assert(refs[k] == Some(p as usize));
    }
    if exists|k: int|
        0 <= k < refs.len() && #[trigger] refs[k] == Some(p as usize) && 0 <= p <= usize::MAX {
        let k = choose|k: int|
            0 <= k < refs.len() && #[trigger] refs[k] == Some(p as usize) && 0 <= p <= usize::MAX;
        lemma_index_of(g.ids, g.parents[c][k]);
        assert(g.parents[c].contains(g.ids[p]));
    }
}

/// Look every parent of every event up.
fn parent_table(nodes: &Vec<DagNodeInput>) -> (table: Vec<Vec<Option<usize>>>)
    ensures
        table_ok(graph_of(nodes@), table@),
{
    let ghost g = graph_of(nodes@);
    let mut table: Vec<Vec<Option<usize>>> = Vec::new();
    let mut c: usize = 0;
    while c < nodes.len()
        invariant
            c <= nodes.len(),
            g == graph_of(nodes@),
            table.len() == c,
            forall|j: int| 0 <= j < c ==> refs_ok(g, g.parents[j], (#[trigger] table@[j])@),
        decreases nodes.len() - c,
    {
        let mut refs: Vec<Option<usize>> = Vec::new();
        let mut k: usize = 0;
        while k < nodes[c].parent.len()
            invariant
                c < nodes.len(),
                k <= nodes@[c as int].parent@.len(),
                g == graph_of(nodes@),
                refs.len() == k,
                forall|j: int|
                    0 <= j < k ==> match #[trigger] refs@[j] {
                        Some(p) => p < g.size() && index_of(g.ids, g.parents[c as int][j]) == p,
                        None => index_of(g.ids, g.parents[c as int][j]) == -1,
                    },
            decreases nodes@[c as int].parent@.len() - k,
        {
            let id = nodes[c].parent.id(k);
            refs.push(place_of(nodes, &id));
            k += 1;
        }
        table.push(refs);
        c += 1;
    }
    table
}

/// Whether place `p` is among the parents.
fn has_ref(refs: &Vec<Option<usize>>, p: usize) -> (yes: bool)
    ensures
        yes == exists|k: int| 0 <= k < refs.len() && #[trigger] refs@[k] == Some(p),
{
    let mut k: usize = 0;
    while k < refs.len()
        invariant
            k <= refs.len(),
            forall|j: int| 0 <= j < k ==> #[trigger] refs@[j] != Some(p),
        decreases refs.len() - k,
    {
        if let Some(q) = refs[k] {
            if q == p {
                assert(refs@[k as int] == Some(p));
                return true;
            }
        }
        k += 1;
    }
    false
}

/// Whether every present parent has been taken.
fn all_taken(refs: &Vec<Option<usize>>, done: &Vec<bool>) -> (yes: bool)
    requires
        forall|k: int|
            0 <= k < refs.len() ==> match #[trigger] refs@[k] {
                Some(p) => p < done.len(),
                None => true,
            },
    ensures
        yes == forall|k: int|
            0 <= k < refs.len() ==> match #[trigger] refs@[k] {
                Some(p) => done@[p as int],
                None => true,
            },
{
    let mut k: usize = 0;
    while k < refs.len()
        invariant
            k <= refs.len(),
            forall|k: int|
                0 <= k < refs.len() ==> match #[trigger] refs@[k] {
                    Some(p) => p < done.len(),
                    None => true,
                },
            forall|j: int|
                0 <= j < k ==> match #[trigger] refs@[j] {
                    Some(p) => done@[p as int],
                    None => true,
                },
        decreases refs.len() - k,
    {
        if let Some(p) = refs[k] {
            if !done[p] {
                assert(refs@[k as int] == Some(p));
                return false;
            }
        }
        k += 1;
    }
    true
}

/// How many parent references point at nothing present.
fn count_dangling(g: Ghost<Graph>, table: &Vec<Vec<Option<usize>>>) -> (n: usize)
    requires
        table_ok(g@, table@),
    ensures
        n == word(dangling(g@, g@.size())),
{
    let mut n: usize = 0;
    let mut c: usize = 0;
    proof {
        lemma_word_step(0);
    }
    while c < table.len()
        invariant
            c <= table.len(),
            table_ok(g@, table@),
            n == word(dangling(g@, c as nat)),
        decreases table.len() - c,
    {
        let mut k: usize = 0;
        let ghost before = dangling(g@, c as nat);
        let ghost parents = g@.parents[c as int];
        assert(refs_ok(g@, parents, table@[c as int]@));
        assert(parents.take(0) =~= Seq::<Seq<u8>>::empty());
        while k < table[c].len()
            invariant
                c < table.len(),
                k <= table@[c as int].len(),
                refs_ok(g@, parents, table@[c as int]@),
                n == word(before + absent(g@, parents.take(k as int))),
            decreases table@[c as int].len() - k,
        {
            proof {
                assert(parents.take(k + 1).drop_last() =~= parents.take(k as int));
                assert(parents.take(k + 1).last() == parents[k as int]);
                lemma_word_step(before + absent(g@, parents.take(k as int)));
            }
            if table[c][k].is_none() {
                n = n.wrapping_add(1);
            }
            k += 1;
        }
        assert(parents.take(k as int) =~= parents);
        c += 1;
    }
    n
}

// ---------------------------------------------------------------------------
// Order and layers
// ---------------------------------------------------------------------------

/// Take the events one by one, each after its parents, and give each a layer.
fn take_all(nodes: &Vec<DagNodeInput>, table: &Vec<Vec<Option<usize>>>) -> (taken: (
    Vec<usize>,
    Vec<usize>,
))
    requires
        table_ok(graph_of(nodes@), table@),
    ensures
        ints(taken.0@) == graph_of(nodes@).order(),
        ints(taken.1@) == graph_of(nodes@).layers(graph_of(nodes@).order()),
{
    let ghost g = graph_of(nodes@);
    let n = nodes.len();
    let mut layer: Vec<usize> = Vec::new();
    let mut done: Vec<bool> = Vec::new();
    let mut waiting: Vec<usize> = Vec::new();
    let mut c: usize = 0;
    let ghost pick = |c: int| g.ready(Seq::empty(), c);
    while c < n
        invariant
            n == nodes.len(),
            c <= n,
            g == graph_of(nodes@),
            table_ok(g, table@),
            pick == |c: int| g.ready(Seq::empty(), c),
            layer.len() == c,
            done.len() == c,
            forall|j: int| 0 <= j < c ==> layer@[j] == 0 && !done@[j],
            ints(waiting@) =~= ascending_where(c as nat, pick),
        decreases n - c,
    {
        let free = no_refs(&table[c]);
        proof {
            assert(refs_ok(g, g.parents[c as int], table@[c as int]@));
            assert forall|p: int| #[trigger] g.edge(p, c as int) implies !free by {
                lemma_refs_edge(g, table@[c as int]@, p, c as int);
            }
            if !free {
                let k = choose|k: int|
                    0 <= k < table@[c as int].len() && (#[trigger] table@[c as int]@[k]).is_some();
                let p = table@[c as int]@[k].unwrap();
                assert(table@[c as int]@[k] == Some((p as int) as usize));
                lemma_refs_edge(g, table@[c as int]@, p as int, c as int);
                assert(g.edge(p as int, c as int));
                assert(!Seq::<int>::empty().contains(p as int));
            }
            assert(free == pick(c as int));
        }
        layer.push(0);
        done.push(false);
        if free {
            waiting.push(c);
        }
        c += 1;
    }
    let mut taken: Vec<usize> = Vec::new();
    proof {
        assert(ints(waiting@) == g.roots());
        assert(ints(taken@) =~= Seq::<int>::empty());
        lemma_roots_sound(g);
        assert(ints(layer@) =~= g.layers(ints(taken@)));
    }
    while waiting.len() > 0
        invariant
            n == nodes.len(),
            g == graph_of(nodes@),
            table_ok(g, table@),
            layer.len() == n,
            done.len() == n,
            taken.len() <= n,
            sound(g, ints(taken@), ints(waiting@)),
            g.run(ints(taken@), ints(waiting@), (n - taken.len()) as nat) == g.order(),
            forall|j: int| 0 <= j < n ==> #[trigger] done@[j] == ints(taken@).contains(j),
            ints(layer@) == g.layers(ints(taken@)),
            forall|j: int| 0 <= j < n ==> #[trigger] layer@[j] <= taken.len(),
        decreases n - taken.len(),
    {
        let ghost had = ints(taken@);
        let ghost queue = ints(waiting@);
        let ghost old_layer = layer@;
        if let Some(i) = waiting.pop() {
            proof {
                assert(queue.last() == i as int);
                lemma_step_sound(g, had, queue);
                lemma_distinct_below(had.push(i as int), g.size());
                assert(ints(waiting@) =~= queue.drop_last());
                assert(0 <= queue[queue.len() - 1] < g.size());
                assert(queue.contains(i as int));
            }
            let ghost rest = ints(waiting@);
            let at = layer[i];
            done.set(i, true);
            taken.push(i);
            let ghost now = had.push(i as int);
            let ghost pick = |c: int| g.edge(i as int, c) && g.ready(had.push(i as int), c);
            proof {
                assert(ints(taken@) =~= now);
                lemma_push_contains(had, i as int);
                assert(!g.edge(i as int, i as int)) by {
                    if g.edge(i as int, i as int) {
                        assert(g.ready(had, i as int));
                        assert(had.contains(i as int));
                    }
                }
            }
            let mut c: usize = 0;
            while c < n
                invariant
                    n == nodes.len(),
                    c <= n,
                    i < n,
                    g == graph_of(nodes@),
                    table_ok(g, table@),
                    layer.len() == n,
                    done.len() == n,
                    old_layer.len() == n,
                    taken.len() == had.len() + 1,
                    taken.len() <= n,
                    now == had.push(i as int),
                    at == old_layer[i as int],
                    at < taken.len(),
                    pick == |c: int| g.edge(i as int, c) && g.ready(had.push(i as int), c),
                    forall|j: int| 0 <= j < n ==> #[trigger] done@[j] == now.contains(j),
                    forall|j: int| c <= j < n ==> #[trigger] layer@[j] == old_layer[j],
                    forall|j: int|
                        0 <= j < c ==> #[trigger] layer@[j] == if g.edge(i as int, j) && old_layer[j]
                            < at + 1 {
                            at + 1
                        } else {
                            old_layer[j] as int
                        },
                    forall|j: int| 0 <= j < n ==> #[trigger] old_layer[j] < taken.len(),
                    ints(waiting@) =~= rest + ascending_where(c as nat, pick),
                decreases n - c,
            {
                let linked = has_ref(&table[c], i);
                let ghost released = ascending_where(c as nat, pick);
                let ghost listed = ints(waiting@);
                proof {
                    assert(refs_ok(g, g.parents[c as int], table@[c as int]@));
                    lemma_refs_edge(g, table@[c as int]@, i as int, c as int);
                    assert(linked == g.edge(i as int, c as int));
                }
                if linked {
                    if layer[c] < at + 1 {
                        layer.set(c, at + 1);
                    }
                    let free = all_taken(&table[c], &done);
                    proof {
                        let refs = table@[c as int]@;
                        assert forall|p: int| free && #[trigger] g.edge(p, c as int) implies now.contains(
                            p,
                        ) by {
                            lemma_refs_edge(g, refs, p, c as int);
                            let k = choose|k: int|
                                0 <= k < refs.len() && #[trigger] refs[k] == Some(p as usize);
                            assert(done@[p]);
                        }
                        if !free {
                            let k = choose|k: int|
                                0 <= k < refs.len() && !(match #[trigger] refs[k] {
                                    Some(p) => done@[p as int],
                                    None => true,
                                });
                            let p = refs[k].unwrap();
                            assert(refs[k] == Some((p as int) as usize));
                            lemma_refs_edge(g, refs, p as int, c as int);
                            assert(g.edge(p as int, c as int));
                            assert(!now.contains(p as int));
                        }
                        assert(free == g.ready(now, c as int));
                    }
                    if free {
                        waiting.push(c);
                        assert(pick(c as int));
                        assert(ints(waiting@) =~= listed.push(c as int));
                        assert(rest + released.push(c as int) =~= (rest + released).push(c as int));
                    } else {
                        assert(!pick(c as int));
                    }
                } else {
                    assert(!pick(c as int));
                }
                c += 1;
            }
            proof {
                assert(ints(waiting@) =~= queue.drop_last() + g.released(had, i as int));
                assert(now.drop_last() =~= had);
                assert(ints(layer@) =~= g.layers(now));
            }
        }
    }
    assert(ints(waiting@) =~= Seq::<int>::empty());
    (taken, layer)
}

/// Whether no parent is present.
fn no_refs(refs: &Vec<Option<usize>>) -> (yes: bool)
    ensures
        yes == forall|k: int| 0 <= k < refs.len() ==> (#[trigger] refs@[k]).is_none(),
{
    let mut k: usize = 0;
    while k < refs.len()
        invariant
            k <= refs.len(),
            forall|j: int| 0 <= j < k ==> (#[trigger] refs@[j]).is_none(),
        decreases refs.len() - k,
    {
        if refs[k].is_some() {
            assert(refs@[k as int].is_some());
            return false;
        }
        k += 1;
    }
    true
}

// ---------------------------------------------------------------------------
// What is drawn
// ---------------------------------------------------------------------------

/// How many events are in layer `t` or later.
fn count_layers_from(order: &Vec<usize>, layer: &Vec<usize>, t: usize) -> (n: usize)
    requires
        forall|k: int| 0 <= k < order.len() ==> #[trigger] order@[k] < layer.len(),
    ensures
        n == count_from(ints(order@), ints(layer@), t as int),
{
    let ghost ord = ints(order@);
    let mut n: usize = 0;
    let mut k: usize = 0;
    assert(ord.take(0) =~= Seq::<int>::empty());
    while k < order.len()
        invariant
            k <= order.len(),
            n <= k,
            ord == ints(order@),
            forall|k: int| 0 <= k < order.len() ==> #[trigger] order@[k] < layer.len(),
            n == count_from(ord.take(k as int), ints(layer@), t as int),
        decreases order.len() - k,
    {
        assert(ord.take(k + 1).drop_last() =~= ord.take(k as int));
        if layer[order[k]] >= t {
            n += 1;
        }
        k += 1;
    }
    assert(ord.take(k as int) =~= ord);
    n
}

/// The first layer to draw.
fn first_drawn_layer(order: &Vec<usize>, layer: &Vec<usize>) -> (keep: usize)
    requires
        forall|k: int| 0 <= k < order.len() ==> #[trigger] order@[k] < layer.len(),
        forall|k: int| 0 <= k < layer.len() ==> #[trigger] layer@[k] <= layer.len(),
    ensures
        keep == keep_from(layer.len() as nat, ints(order@), ints(layer@)),
{
    let ghost ord = ints(order@);
    let ghost lay = ints(layer@);
    if layer.len() > MAX_RENDER && order.len() >= MAX_RENDER {
        let mut t: usize = 0;
        proof {
            lemma_count_all(ord, lay, 0);
        }
        while t < layer.len() && count_layers_from(order, layer, t + 1) >= MAX_RENDER
            invariant
                t <= layer.len(),
                ord == ints(order@),
                lay == ints(layer@),
                forall|k: int| 0 <= k < order.len() ==> #[trigger] order@[k] < layer.len(),
                count_from(ord, lay, t as int) >= MAX_RENDER,
            ensures
                t == layer.len() || count_from(ord, lay, t + 1) < MAX_RENDER,
            decreases layer.len() - t,
        {
            t += 1;
        }
        proof {
            if count_from(ord, lay, t + 1) >= MAX_RENDER {
                lemma_count_witness(ord, lay, t + 1);
                let k = choose|k: int| 0 <= k < ord.len() && lay[#[trigger] ord[k]] >= t + 1;
                assert(layer@[order@[k] as int] <= layer.len());
            }
            assert(is_cut(ord, lay, t as int));
            lemma_cut_unique(ord, lay, t as int, keep_from(layer.len() as nat, ord, lay));
        }
        t
    } else {
        0
    }
}

/// The last layer in use.
fn last_layer(order: &Vec<usize>, layer: &Vec<usize>) -> (top: usize)
    requires
        forall|k: int| 0 <= k < order.len() ==> #[trigger] order@[k] < layer.len(),
    ensures
        top == top_layer(ints(order@), ints(layer@)),
{
    let ghost ord = ints(order@);
    let mut top: usize = 0;
    let mut k: usize = 0;
    assert(ord.take(0) =~= Seq::<int>::empty());
    while k < order.len()
        invariant
            k <= order.len(),
            ord == ints(order@),
            forall|k: int| 0 <= k < order.len() ==> #[trigger] order@[k] < layer.len(),
            top == top_layer(ord.take(k as int), ints(layer@)),
        decreases order.len() - k,
    {
        assert(ord.take(k + 1).drop_last() =~= ord.take(k as int));
        if layer[order[k]] > top {
            top = layer[order[k]];
        }
        k += 1;
    }
    assert(ord.take(k as int) =~= ord);
    top
}

/// The events of the layers `keep..=top`, layer by layer.
fn draw_order(order: &Vec<usize>, layer: &Vec<usize>, keep: usize, top: usize) -> (drawn: Vec<usize>)
    requires
        forall|k: int| 0 <= k < order.len() ==> #[trigger] order@[k] < layer.len(),
        keep <= top < usize::MAX,
    ensures
        ints(drawn@) == columns(ints(order@), ints(layer@), keep as int, top + 1),
{
    let ghost ord = ints(order@);
    let ghost lay = ints(layer@);
    let mut drawn: Vec<usize> = Vec::new();
    let mut t: usize = keep;
    assert(ints(drawn@) =~= columns(ord, lay, keep as int, t as int));
    while t <= top
        invariant
            keep <= t <= top + 1,
            top < usize::MAX,
            ord == ints(order@),
            lay == ints(layer@),
            forall|k: int| 0 <= k < order.len() ==> #[trigger] order@[k] < layer.len(),
            ints(drawn@) == columns(ord, lay, keep as int, t as int),
        decreases top + 1 - t,
    {
        let ghost before = ints(drawn@);
        let mut k: usize = 0;
        assert(ord.take(0) =~= Seq::<int>::empty());
        assert(ints(drawn@) =~= before + column(ord.take(0), lay, t as int));
        while k < order.len()
            invariant
                k <= order.len(),
                ord == ints(order@),
                lay == ints(layer@),
                forall|k: int| 0 <= k < order.len() ==> #[trigger] order@[k] < layer.len(),
                ints(drawn@) == before + column(ord.take(k as int), lay, t as int),
            decreases order.len() - k,
        {
            assert(ord.take(k + 1).drop_last() =~= ord.take(k as int));
            let ghost col = column(ord.take(k as int), lay, t as int);
            let ghost listed = ints(drawn@);
            if layer[order[k]] == t {
                drawn.push(order[k]);
                assert(ints(drawn@) =~= listed.push(ord[k as int]));
                assert(ints(drawn@) =~= before + col.push(ord[k as int]));
            }
            k += 1;
        }
        assert(ord.take(k as int) =~= ord);
        t += 1;
    }
    drawn
}

// ---------------------------------------------------------------------------
// Lanes
// ---------------------------------------------------------------------------

spec fn same_lane(a: Option<usize>, b: Option<int>) -> bool {
    match a {
        Some(m) => b == Some(m as int),
        None => b is None,
    }
}

/// `by_place` knows the lane of every id, at the place that stands for the id.
spec fn lanes_known(
    g: Graph,
    drawn: Seq<int>,
    given: Seq<int>,
    by_place: Seq<Option<usize>>,
) -> bool {
    &&& by_place.len() == g.size()
    &&& forall|p: int|
        0 <= p < g.size() && index_of(g.ids, g.ids[p]) == p ==> same_lane(
            #[trigger] by_place[p],
            lane_of(g, drawn, given, g.ids[p]),
        )
}

/// The smallest lane of the parents that are drawn.
fn lowest_lane(
    g: Ghost<Graph>,
    drawn: Ghost<Seq<int>>,
    given: Ghost<Seq<int>>,
    parents: Ghost<Seq<Seq<u8>>>,
    refs: &Vec<Option<usize>>,
    by_place: &Vec<Option<usize>>,
) -> (low: Option<usize>)
    requires
        refs_ok(g@, parents@, refs@),
        lanes_known(g@, drawn@, given@, by_place@),
        drawn@.len() <= given@.len(),
        forall|k: int| 0 <= k < drawn@.len() ==> 0 <= #[trigger] drawn@[k] < g@.size(),
    ensures
        same_lane(low, lowest(g@, drawn@, given@, parents@)),
{
    let mut low: Option<usize> = None;
    let mut k: usize = 0;
    assert(parents@.take(0) =~= Seq::<Seq<u8>>::empty());
    while k < refs.len()
        invariant
            k <= refs.len(),
            refs_ok(g@, parents@, refs@),
            lanes_known(g@, drawn@, given@, by_place@),
            drawn@.len() <= given@.len(),
            forall|k: int| 0 <= k < drawn@.len() ==> 0 <= #[trigger] drawn@[k] < g@.size(),
            same_lane(low, lowest(g@, drawn@, given@, parents@.take(k as int))),
        decreases refs.len() - k,
    {
        proof {
            let id = parents@[k as int];
            assert(parents@.take(k + 1).drop_last() =~= parents@.take(k as int));
            assert(parents@.take(k + 1).last() == id);
            lemma_index_of(g@.ids, id);
            if refs@[k as int].is_none() {
                lemma_lane_of(g@, drawn@, given@, id);
                if lane_of(g@, drawn@, given@, id) is Some {
                    let j = choose|j: int|
                        0 <= j < drawn@.len() && g@.ids[#[trigger] drawn@[j]] == id;
                    assert(g@.ids[drawn@[j]] != id);
                }
            }
        }
        if let Some(p) = refs[k] {
            if let Some(m) = by_place[p] {
                match low {
                    Some(a) => {
                        if m < a {
                            low = Some(m);
                        }
                    },
                    None => {
                        low = Some(m);
                    },
                }
            }
        }
        k += 1;
    }
    assert(parents@.take(k as int) =~= parents@);
    low
}

/// Whether `m` occurs from place `from` on.
fn occurs_from(list: &Vec<usize>, from: usize, m: usize) -> (yes: bool)
    requires
        from <= list.len(),
    ensures
        yes == exists|j: int| from <= j < list.len() && #[trigger] list@[j] == m,
{
    let mut j: usize = from;
    while j < list.len()
        invariant
            from <= j <= list.len(),
            forall|i: int| from <= i < j ==> #[trigger] list@[i] != m,
        decreases list.len() - j,
    {
        if list[j] == m {
            assert(list@[j as int] == m);
            return true;
        }
        j += 1;
    }
    false
}

/// Give every drawn event a lane. Returns the lanes in drawing order, and the
/// lane of each id at the place that stands for it.
#[verifier::spinoff_prover]
#[verifier::rlimit(60)]
fn give_lanes(
    nodes: &Vec<DagNodeInput>,
    table: &Vec<Vec<Option<usize>>>,
    layer: &Vec<usize>,
    drawn: &Vec<usize>,
) -> (out: (Vec<usize>, Vec<Option<usize>>))
    requires
        table_ok(graph_of(nodes@), table@),
        layer.len() == nodes.len(),
        forall|k: int| 0 <= k < drawn.len() ==> #[trigger] drawn@[k] < nodes.len(),
        forall|a: int, b: int|
            0 <= a <= b < drawn.len() ==> layer@[#[trigger] drawn@[a] as int]
                <= layer@[#[trigger] drawn@[b] as int],
    ensures
        ints(out.0@) == lanes(graph_of(nodes@), ints(layer@), ints(drawn@)),
        lanes_known(graph_of(nodes@), ints(drawn@), ints(out.0@), out.1@),
{
    let ghost g = graph_of(nodes@);
    let ghost lay = ints(layer@);
    let ghost all = ints(drawn@);
    let mut by_place: Vec<Option<usize>> = Vec::new();
    while by_place.len() < nodes.len()
        invariant
            by_place.len() <= nodes.len(),
            forall|p: int| 0 <= p < by_place.len() ==> #[trigger] by_place@[p] == None::<usize>,
        decreases nodes.len() - by_place.len(),
    {
        by_place.push(None);
    }
    let mut given: Vec<usize> = Vec::new();
    let mut start: usize = 0;
    let mut k: usize = 0;
    proof {
        assert(all.take(0) =~= Seq::<int>::empty());
        assert(ints(given@) =~= lanes(g, lay, all.take(0)));
    }
    while k < drawn.len()
        invariant
            k <= drawn.len(),
            g == graph_of(nodes@),
            lay == ints(layer@),
            all == ints(drawn@),
            table_ok(g, table@),
            layer.len() == nodes.len(),
            forall|k: int| 0 <= k < drawn.len() ==> #[trigger] drawn@[k] < nodes.len(),
            forall|a: int, b: int|
                0 <= a <= b < drawn.len() ==> layer@[#[trigger] drawn@[a] as int]
                    <= layer@[#[trigger] drawn@[b] as int],
            given.len() == k,
            start <= k,
            k > 0 ==> start < k,
            forall|j: int|
                start <= j < k ==> layer@[#[trigger] drawn@[j] as int] == layer@[drawn@[k
                    - 1] as int],
            forall|j: int|
                0 <= j < start ==> layer@[#[trigger] drawn@[j] as int] < layer@[drawn@[k - 1] as int],
            ints(given@) == lanes(g, lay, all.take(k as int)),
            lanes_known(g, all.take(k as int), ints(given@), by_place@),
        decreases drawn.len() - k,
    {
        let i = drawn[k];
        let t = layer[i];
        let ghost d = all.take(k as int);
        let ghost had = ints(given@);
        if k > 0 && layer[drawn[k - 1]] != t {
            proof {
                assert(layer@[drawn@[k - 1] as int] <= layer@[drawn@[k as int] as int]);
                assert forall|j: int| 0 <= j < k implies layer@[#[trigger] drawn@[j] as int] < t by {
                    assert(layer@[drawn@[j] as int] <= layer@[drawn@[k - 1] as int]);
                }
            }
            start = k;
        }
        let refs = &table[i];
        assert(refs_ok(g, g.parents[i as int], table@[i as int]@));
        assert forall|j: int| 0 <= j < d.len() implies 0 <= #[trigger] d[j] < g.size() by {
            assert(drawn@[j] < nodes.len());
        }
        let low = lowest_lane(
            Ghost(g),
            Ghost(d),
            Ghost(had),
            Ghost(g.parents[i as int]),
            refs,
            &by_place,
        );
        let want: usize = match low {
            Some(m) => m,
            None => 0,
        };
        proof {
            lemma_lanes(g, lay, d);
            lemma_lowest(g, d, had, g.parents[i as int]);
            assert(want == wanted(g, d, had, i as int));
            assert(want <= k) by {
                match lowest(g, d, had, g.parents[i as int]) {
                    Some(m) => {
                        let j = choose|j: int| 0 <= j < d.len() && #[trigger] had[j] == m;
                        assert(had[j] <= j);
                    },
                    None => {},
                }
            }
            assert forall|m: int|
                #[trigger] occupied(lay, d, had, t as int, m) <==> exists|j: int|
                    start <= j < k && #[trigger] given@[j] == m by {
                if occupied(lay, d, had, t as int, m) {
                    let j = choose|j: int|
                        0 <= j < d.len() && lay[#[trigger] d[j]] == t && had[j] == m;
                    assert(layer@[drawn@[j] as int] == t);
                    assert(start <= j);
                    assert(given@[j] == m);
                }
                if exists|j: int| start <= j < k && #[trigger] given@[j] == m {
                    let j = choose|j: int| start <= j < k && #[trigger] given@[j] == m;
                    assert(layer@[drawn@[j] as int] == t);
                    assert(lay[d[j]] == t && had[j] == m);
                }
            }
        }
        let mut m: usize = want;
        while occurs_from(&given, start, m)
            invariant
                want <= m <= k,
                k < drawn.len(),
                given.len() == k,
                start <= k,
                had == ints(given@),
                d.len() == k,
                forall|j: int| 0 <= j < k ==> 0 <= #[trigger] had[j] <= j,
                forall|m: int|
                    #[trigger] occupied(lay, d, had, t as int, m) <==> exists|j: int|
                        start <= j < k && #[trigger] given@[j] == m,
                forall|x: int| want <= x < m ==> #[trigger] occupied(lay, d, had, t as int, x),
            decreases k - m,
        {
            proof {
                let j = choose|j: int| start <= j < k && #[trigger] given@[j] == m;
                assert(had[j] <= j);
                assert(occupied(lay, d, had, t as int, m as int));
            }
            m += 1;
        }
        assert(is_first_free(lay, d, had, t as int, want as int, m as int));
        proof {
            let longer = all.take(k + 1);
            assert(longer.drop_last() =~= d);
            assert(longer.last() == i as int);
            let chosen = choose|m: int| is_first_free(lay, d, had, lay[i as int], want as int, m);
            assert(is_first_free(lay, d, had, lay[i as int], want as int, chosen));
            lemma_free_unique(lay, d, had, t as int, want as int, m as int, chosen);
        }
        given.push(m);
        let stands = place_of(nodes, &nodes[i].id);
        let ghost was = by_place@;
        proof {
            lemma_index_of(g.ids, g.ids[i as int]);
            assert(ints(given@) =~= had.push(m as int));
        }
        if let Some(s) = stands {
            by_place.set(s, Some(m));
            proof {
                let longer = all.take(k + 1);
                let now = ints(given@);
                lemma_index_of(g.ids, g.ids[i as int]);
                assert forall|p: int|
                    0 <= p < g.size() && index_of(g.ids, g.ids[p]) == p implies same_lane(
                    #[trigger] by_place@[p],
                    lane_of(g, longer, now, g.ids[p]),
                ) by {
                    if g.ids[p] == g.ids[i as int] {
                        assert(p == s);
                    } else {
                        assert(p != s);
                        assert(by_place@[p] == was[p]);
                        lemma_lane_of_prefix(g, d, had, now, g.ids[p]);
                    }
                }
            }
        }
        k += 1;
    }
    assert(all.take(k as int) =~= all);
    (given, by_place)
}

// ---------------------------------------------------------------------------
// The picture
// ---------------------------------------------------------------------------

/// Horizontal distance between layers.
pub const DX: u128 = 92;

/// Vertical distance between lanes.
pub const DY: u128 = 48;

/// Space left and right of the picture.
pub const PAD_X: u128 = 40;

/// Space above and below the picture.
pub const PAD_Y: u128 = 34;

/// Where layer `layer` is, counted from the first one drawn.
pub open spec fn x_at(p: Plan, layer: int) -> int {
    PAD_X + DX * (layer - p.keep)
}

/// Where a lane is.
pub open spec fn y_at(lane: int) -> int {
    PAD_Y + DY * lane
}

/// The lane an id is drawn in.
pub open spec fn lane_in(g: Graph, p: Plan, id: Seq<u8>) -> int {
    match lane_of(g, p.drawn, p.lanes, id) {
        Some(m) => m,
        None => 0,
    }
}

/// A coordinate with one decimal.
pub open spec fn coordinate(n: int) -> Seq<char> {
    decimal(n as nat) + ".0"@
}

/// The curve from (`px`, `py`) to (`x`, `y`), leaving and arriving level.
pub open spec fn curve(px: int, py: int, x: int, y: int) -> Seq<char> {
    "M "@ + coordinate(px) + " "@ + coordinate(py) + " C "@ + coordinate(px + DX / 2) + " "@
        + coordinate(py) + ", "@ + coordinate(x - DX / 2) + " "@ + coordinate(y) + ", "@ + coordinate(
        x,
    ) + " "@ + coordinate(y)
}

/// `vis` is event `i` of the plan, drawn.
pub open spec fn is_drawn_node(
    vis: DagNodeVis,
    nodes: Seq<DagNodeInput>,
    p: Plan,
    head: Seq<Seq<u8>>,
    i: int,
) -> bool {
    &&& vis.input == nodes[i]
    &&& vis.x == x_at(p, p.layer[i])
    &&& vis.y == y_at(lane_in(graph_of(nodes), p, nodes[i].id@))
    &&& vis.short@ == last_six(base64(nodes[i].id@))
    &&& vis.is_create == (nodes[i].parent@.len() == 0)
    &&& vis.is_tip == head.contains(nodes[i].id@)
}

/// `vis` is the link from `link.0` to `link.1`, drawn.
pub open spec fn is_drawn_edge(vis: DagEdgeVis, g: Graph, p: Plan, link: (int, int)) -> bool {
    &&& vis.from@ == g.ids[link.0]
    &&& vis.to@ == g.ids[link.1]
    &&& vis.path@ == curve(
        x_at(p, p.layer[link.0]),
        y_at(lane_in(g, p, g.ids[link.0])),
        x_at(p, p.layer[link.1]),
        y_at(lane_in(g, p, g.ids[link.1])),
    )
}

/// `model` is the picture of the events `nodes`, which are in base order.
pub open spec fn is_picture(model: DagModel, nodes: Seq<DagNodeInput>, head: Seq<Seq<u8>>) -> bool {
    let g = graph_of(nodes);
    let p = plan(g);
    let drawn_links = links(g, p.layer, p.keep, p.drawn);
    &&& model.nodes.len() == p.drawn.len()
    &&& forall|k: int|
        0 <= k < p.drawn.len() ==> is_drawn_node(
            #[trigger] model.nodes@[k],
            nodes,
            p,
            head,
            p.drawn[k],
        )
    &&& model.edges.len() == drawn_links.len()
    &&& forall|e: int|
        0 <= e < drawn_links.len() ==> is_drawn_edge(
            #[trigger] model.edges@[e],
            g,
            p,
            drawn_links[e],
        )
    &&& model.width == 2 * PAD_X + DX * (p.top - p.keep)
    &&& model.height == 2 * PAD_Y + DY * top_lane(p.lanes) + 14
    &&& model.omitted == nodes.len() - p.drawn.len()
    &&& model.dangling == word(dangling(g, g.size()))
}

fn coordinate_text(n: u128) -> (text: String)
    ensures
        text@ == coordinate(n as int),
{
    let mut text = decimal_text(n);
    text.append(".0");
    text
}

fn curve_text(px: u128, py: u128, x: u128, y: u128) -> (text: String)
    requires
        px <= u128::MAX - 46,
        x >= 46,
    ensures
        text@ == curve(px as int, py as int, x as int, y as int),
{
    let mut text = "M ".to_owned();
    text.append(coordinate_text(px).as_str());
    text.append(" ");
    text.append(coordinate_text(py).as_str());
    text.append(" C ");
    text.append(coordinate_text(px + 46).as_str());
    text.append(" ");
    text.append(coordinate_text(py).as_str());
    text.append(", ");
    text.append(coordinate_text(x - 46).as_str());
    text.append(" ");
    text.append(coordinate_text(y).as_str());
    text.append(", ");
    text.append(coordinate_text(x).as_str());
    text.append(" ");
    text.append(coordinate_text(y).as_str());
    text
}

fn x_of(layer: usize, keep: usize) -> (x: u128)
    requires
        keep <= layer,
    ensures
        x == PAD_X + DX * (layer - keep),
        x <= 0x80_0000_0000_0000_0000,
{
    PAD_X + DX * ((layer - keep) as u128)
}

fn y_of(lane: usize) -> (y: u128)
    ensures
        y == y_at(lane as int),
{
    PAD_Y + DY * (lane as u128)
}

/// The lane event `i` is drawn in.
fn drawn_lane(
    nodes: &Vec<DagNodeInput>,
    given: Ghost<Seq<int>>,
    drawn: Ghost<Seq<int>>,
    by_place: &Vec<Option<usize>>,
    i: usize,
) -> (lane: usize)
    requires
        i < nodes.len(),
        lanes_known(graph_of(nodes@), drawn@, given@, by_place@),
    ensures
        lane == (match lane_of(graph_of(nodes@), drawn@, given@, nodes@[i as int].id@) {
            Some(m) => m,
            None => 0,
        }),
{
    let ghost g = graph_of(nodes@);
    proof {
        lemma_index_of(g.ids, g.ids[i as int]);
        assert(g.ids[i as int] == nodes@[i as int].id@);
    }
    match place_of(nodes, &nodes[i].id) {
        Some(s) => {
            assert(g.ids[s as int] == g.ids[i as int]);
            match by_place[s] {
                Some(m) => m,
                None => 0,
            }
        },
        None => 0,
    }
}

/// Draw every link whose two ends are drawn.
fn draw_edges(
    nodes: &Vec<DagNodeInput>,
    table: &Vec<Vec<Option<usize>>>,
    layer: &Vec<usize>,
    keep: usize,
    drawn: &Vec<usize>,
    by_place: &Vec<Option<usize>>,
) -> (edges: Vec<DagEdgeVis>)
    requires
        table_ok(graph_of(nodes@), table@),
        ints(layer@) == plan(graph_of(nodes@)).layer,
        keep == plan(graph_of(nodes@)).keep,
        ints(drawn@) == plan(graph_of(nodes@)).drawn,
        lanes_known(
            graph_of(nodes@),
            plan(graph_of(nodes@)).drawn,
            plan(graph_of(nodes@)).lanes,
            by_place@,
        ),
    ensures
        ({
            let g = graph_of(nodes@);
            let p = plan(g);
            let drawn_links = links(g, p.layer, p.keep, p.drawn);
            &&& edges.len() == drawn_links.len()
            &&& forall|e: int|
                0 <= e < drawn_links.len() ==> is_drawn_edge(
                    #[trigger] edges@[e],
                    g,
                    p,
                    drawn_links[e],
                )
        }),
{
    let ghost g = graph_of(nodes@);
    let ghost p = plan(g);
    let ghost all = p.drawn;
    proof {
        lemma_plan(g);
        assert(layer.len() == ints(layer@).len());
        assert(drawn.len() == ints(drawn@).len());
    }
    let mut edges: Vec<DagEdgeVis> = Vec::new();
    let mut k: usize = 0;
    assert(all.take(0) =~= Seq::<int>::empty());
    while k < drawn.len()
        invariant
            k <= drawn.len(),
            g == graph_of(nodes@),
            p == plan(g),
            all == p.drawn,
            table_ok(g, table@),
            layer.len() == nodes.len(),
            ints(layer@) == p.layer,
            keep == p.keep,
            ints(drawn@) == all,
            drawn.len() == all.len(),
            lanes_known(g, p.drawn, p.lanes, by_place@),
            forall|j: int| 0 <= j < all.len() ==> 0 <= #[trigger] all[j] < g.size(),
            edges.len() == links(g, p.layer, p.keep, all.take(k as int)).len(),
            forall|e: int|
                0 <= e < edges.len() ==> is_drawn_edge(
                    #[trigger] edges@[e],
                    g,
                    p,
                    links(g, p.layer, p.keep, all.take(k as int))[e],
                ),
        decreases drawn.len() - k,
    {
        let c = drawn[k];
        let ghost before = links(g, p.layer, p.keep, all.take(k as int));
        let ghost parents = g.parents[c as int];
        proof {
            assert(all[k as int] == c as int);
            assert(all.contains(c as int));
            assert(refs_ok(g, parents, table@[c as int]@));
            assert(parents.take(0) =~= Seq::<Seq<u8>>::empty());
            assert(all.take(k + 1).drop_last() =~= all.take(k as int));
        }
        let lane = drawn_lane(nodes, Ghost(p.lanes), Ghost(p.drawn), by_place, c);
        let mut r: usize = 0;
        assert(before + links_into(g, p.layer, p.keep, c as int, parents.take(0)) =~= before);
        while r < table[c].len()
            invariant
                k < drawn.len(),
                c < nodes.len(),
                r <= table@[c as int].len(),
                g == graph_of(nodes@),
                p == plan(g),
                all == p.drawn,
                all.contains(c as int),
                parents == g.parents[c as int],
                table_ok(g, table@),
                refs_ok(g, parents, table@[c as int]@),
                layer.len() == nodes.len(),
                ints(layer@) == p.layer,
                keep == p.keep,
                lanes_known(g, p.drawn, p.lanes, by_place@),
                lane == lane_in(g, p, g.ids[c as int]),
                edges.len() == before.len() + links_into(
                    g,
                    p.layer,
                    p.keep,
                    c as int,
                    parents.take(r as int),
                ).len(),
                forall|e: int|
                    0 <= e < edges.len() ==> is_drawn_edge(
                        #[trigger] edges@[e],
                        g,
                        p,
                        (before + links_into(
                            g,
                            p.layer,
                            p.keep,
                            c as int,
                            parents.take(r as int),
                        ))[e],
                    ),
            decreases table@[c as int].len() - r,
        {
            let ghost into = links_into(g, p.layer, p.keep, c as int, parents.take(r as int));
            let ghost shown = edges@;
            proof {
                assert(parents.take(r + 1).drop_last() =~= parents.take(r as int));
                assert(parents.take(r + 1).last() == parents[r as int]);
                assert(table@[c as int]@[r as int] == table@[c as int]@[r as int]);
                lemma_index_of(g.ids, parents[r as int]);
            }
            if let Some(q) = table[c][r] {
                if layer[q] >= keep {
                    proof {
                        assert(parents.contains(g.ids[q as int]));
                        assert(g.edge(q as int, c as int));
                        lemma_link(g, q as int, c as int);
                        assert(p.layer[q as int] == layer@[q as int]);
                        assert(p.layer[c as int] == layer@[c as int]);
                    }
                    let parent_lane = drawn_lane(nodes, Ghost(p.lanes), Ghost(p.drawn), by_place, q);
                    let px = x_of(layer[q], keep);
                    let py = y_of(parent_lane);
                    let x = x_of(layer[c], keep);
                    let y = y_of(lane);
                    let path = curve_text(px, py, x, y);
                    edges.push(DagEdgeVis { from: nodes[q].id, to: nodes[c].id, path });
                    proof {
                        let more = before + into.push((q as int, c as int));
                        assert(more =~= (before + into).push((q as int, c as int)));
                        assert forall|e: int| 0 <= e < edges.len() implies is_drawn_edge(
                            #[trigger] edges@[e],
                            g,
                            p,
                            more[e],
                        ) by {
                            if e < shown.len() {
                                assert(edges@[e] == shown[e]);
                                assert(more[e] == (before + into)[e]);
                            } else {
                                assert(edges@[e].path@ == path@);
                                assert(more[e] == (q as int, c as int));
                            }
                        }
                    }
                }
            }
            r += 1;
        }
        proof {
            assert(parents.take(r as int) =~= parents);
        }
        k += 1;
    }
    assert(all.take(k as int) =~= all);
    edges
}

/// Draw every event.
fn draw_nodes(
    nodes: Vec<DagNodeInput>,
    head: &Clock,
    layer: &Vec<usize>,
    keep: usize,
    drawn: &Vec<usize>,
    by_place: &Vec<Option<usize>>,
) -> (shown: Vec<DagNodeVis>)
    requires
        ints(layer@) == plan(graph_of(nodes@)).layer,
        keep == plan(graph_of(nodes@)).keep,
        ints(drawn@) == plan(graph_of(nodes@)).drawn,
        lanes_known(
            graph_of(nodes@),
            plan(graph_of(nodes@)).drawn,
            plan(graph_of(nodes@)).lanes,
            by_place@,
        ),
    ensures
        shown.len() == plan(graph_of(nodes@)).drawn.len(),
        forall|k: int|
            0 <= k < shown.len() ==> is_drawn_node(
                #[trigger] shown@[k],
                nodes@,
                plan(graph_of(nodes@)),
                head@,
                plan(graph_of(nodes@)).drawn[k],
            ),
{
    let ghost g = graph_of(nodes@);
    let ghost p = plan(g);
    let ghost all = nodes@;
    proof {
        lemma_plan(g);
        assert(layer.len() == ints(layer@).len());
        assert(drawn.len() == ints(drawn@).len());
    }
    let mut rows: Vec<u128> = Vec::new();
    let mut k: usize = 0;
    while k < drawn.len()
        invariant
            k <= drawn.len(),
            g == graph_of(nodes@),
            p == plan(g),
            ints(drawn@) == p.drawn,
            drawn.len() == p.drawn.len(),
            forall|j: int| 0 <= j < p.drawn.len() ==> 0 <= #[trigger] p.drawn[j] < g.size(),
            lanes_known(g, p.drawn, p.lanes, by_place@),
            rows.len() == k,
            forall|j: int|
                0 <= j < k ==> #[trigger] rows@[j] == y_at(lane_in(g, p, g.ids[p.drawn[j]])),
        decreases drawn.len() - k,
    {
        assert(p.drawn[k as int] == drawn@[k as int]);
        rows.push(y_of(drawn_lane(&nodes, Ghost(p.lanes), Ghost(p.drawn), by_place, drawn[k])));
        k += 1;
    }
    let mut slots: Vec<Option<DagNodeInput>> = Vec::new();
    let mut nodes = nodes;
    while nodes.len() > 0
        invariant
            nodes.len() + slots.len() == all.len(),
            nodes@ == all.take(nodes.len() as int),
            forall|j: int|
                0 <= j < slots.len() ==> #[trigger] slots@[j] == Some(all[all.len() - 1 - j]),
        decreases nodes.len(),
    {
        if let Some(node) = nodes.pop() {
            assert(nodes@ =~= all.take(nodes.len() as int));
            slots.push(Some(node));
        }
    }
    let n = slots.len();
    let mut shown: Vec<DagNodeVis> = Vec::new();
    let mut k: usize = 0;
    while k < drawn.len()
        invariant
            k <= drawn.len(),
            n == all.len(),
            slots.len() == n,
            g == graph_of(all),
            p == plan(g),
            layer.len() == n,
            ints(layer@) == p.layer,
            keep == p.keep,
            ints(drawn@) == p.drawn,
            drawn.len() == p.drawn.len(),
            p.drawn.no_duplicates(),
            forall|j: int| 0 <= j < p.drawn.len() ==> 0 <= #[trigger] p.drawn[j] < g.size(),
            forall|i: int|
                #[trigger] p.drawn.contains(i) <==> p.order.contains(i) && p.layer[i] >= p.keep,
            rows.len() == drawn.len(),
            forall|j: int|
                0 <= j < rows.len() ==> #[trigger] rows@[j] == y_at(
                    lane_in(g, p, g.ids[p.drawn[j]]),
                ),
            forall|i: int|
                0 <= i < n && !p.drawn.take(k as int).contains(i) ==> #[trigger] slots@[n - 1 - i]
                    == Some(all[i]),
            shown.len() == k,
            forall|j: int|
                0 <= j < k ==> is_drawn_node(#[trigger] shown@[j], all, p, head@, p.drawn[j]),
        decreases drawn.len() - k,
    {
        let i = drawn[k];
        let ghost seen = p.drawn.take(k as int);
        let ghost had = slots@;
        proof {
            assert(p.drawn[k as int] == i as int);
            assert(p.drawn.contains(i as int));
            assert(p.layer[i as int] == layer@[i as int]);
            assert(!seen.contains(i as int)) by {
                if seen.contains(i as int) {
                    let j = choose|j: int| 0 <= j < seen.len() && seen[j] == i as int;
                    assert(p.drawn[j] == p.drawn[k as int]);
                }
            }
            assert(slots@[n - 1 - i as int] == Some(all[i as int]));
            assert(p.drawn.take(k + 1) =~= seen.push(i as int));
            lemma_push_contains(seen, i as int);
        }
        slots.push(None);
        let slot = slots.swap_remove(n - 1 - i);
        proof {
            assert forall|j: int|
                0 <= j < n && !p.drawn.take(k + 1).contains(j) implies #[trigger] slots@[n - 1 - j]
                == Some(all[j]) by {
                assert(slots@[n - 1 - j] == had[n - 1 - j]);
            }
        }
        if let Some(input) = slot {
            let short = input.id.to_base64_short();
            let is_create = input.parent.is_empty();
            let is_tip = head.contains(&input.id);
            let x = x_of(layer[i], keep);
            let y = rows[k];
            shown.push(DagNodeVis { input, x, y, short, is_create, is_tip });
        }
        k += 1;
    }
    shown
}

/// The largest lane given out.
fn last_lane(given: &Vec<usize>) -> (top: usize)
    ensures
        top == top_lane(ints(given@)),
{
    let ghost all = ints(given@);
    let mut top: usize = 0;
    let mut k: usize = 0;
    assert(all.take(0) =~= Seq::<int>::empty());
    while k < given.len()
        invariant
            k <= given.len(),
            all == ints(given@),
            top == top_lane(all.take(k as int)),
        decreases given.len() - k,
    {
        assert(all.take(k + 1).drop_last() =~= all.take(k as int));
        if given[k] > top {
            top = given[k];
        }
        k += 1;
    }
    assert(all.take(k as int) =~= all);
    top
}

/// Lay a history out. `head` marks the current tips.
///
/// Events are taken in byte order of their ids, placed each after its parents,
/// one layer past the latest of them, in the first free lane from the smallest
/// one of its parents. Past [`MAX_RENDER`] events only the newest layers are
/// drawn.
pub fn layout(inputs: Vec<DagNodeInput>, head: &Clock) -> (model: DagModel)
    ensures
        inputs.len() == 0 ==> model.nodes.len() == 0 && model.edges.len() == 0 && model.width == 0
            && model.height == 0 && model.omitted == 0 && model.dangling == 0,
        inputs.len() > 0 ==> is_picture(model, by_id(inputs@), head@),
{
    if inputs.len() == 0 {
        return DagModel::default();
    }
    let nodes = sort_by_id(inputs);
    let ghost g = graph_of(nodes@);
    let ghost p = plan(g);
    let n = nodes.len();
    let table = parent_table(&nodes);
    let dangling = count_dangling(Ghost(g), &table);
    let (order, layer) = take_all(&nodes, &table);
    proof {
        lemma_plan(g);
        assert(order.len() == ints(order@).len());
        assert(layer.len() == ints(layer@).len());
        assert forall|k: int| 0 <= k < order.len() implies #[trigger] order@[k] < layer.len() by {
            assert(0 <= p.order[k] < g.size());
        }
        assert forall|k: int| 0 <= k < layer.len() implies #[trigger] layer@[k] <= layer.len() by {
            assert(0 <= p.layer[k] <= g.size());
        }
    }
    let keep = first_drawn_layer(&order, &layer);
    let top = last_layer(&order, &layer);
    proof {
        lemma_top_below(g);
    }
    let drawn = draw_order(&order, &layer, keep, top);
    proof {
        assert(drawn.len() == ints(drawn@).len());
        assert forall|k: int| 0 <= k < drawn.len() implies #[trigger] drawn@[k] < nodes.len() by {
            assert(0 <= p.drawn[k] < g.size());
        }
        assert forall|a: int, b: int| 0 <= a <= b < drawn.len() implies layer@[#[trigger] drawn@[a] as int]
            <= layer@[#[trigger] drawn@[b] as int] by {
            assert(p.layer[p.drawn[a]] <= p.layer[p.drawn[b]]);
        }
    }
    let (given, by_place) = give_lanes(&nodes, &table, &layer, &drawn);
    let edges = draw_edges(&nodes, &table, &layer, keep, &drawn, &by_place);
    let shown = draw_nodes(nodes, head, &layer, keep, &drawn, &by_place);
    let lane = last_lane(&given);
    DagModel {
        nodes: shown,
        edges,
        width: 2 * PAD_X + DX * ((top - keep) as u128),
        height: 2 * PAD_Y + DY * (lane as u128) + 14,
        omitted: n - drawn.len(),
        dangling,
    }
}

} // verus!
