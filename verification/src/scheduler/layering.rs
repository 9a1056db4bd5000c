//! Layered topological ordering.
//!
//! Items are numbered `0..count`; an edge `(item, requirement)` says that
//! `item` has to wait for `requirement`. Items are released first in, first
//! out: an item is appended to the order at the moment the last of its edges is
//! settled. A requirement outside `0..count` is never met.

use vstd::prelude::*;

verus! {

/// The items in release order, cut into layers: layer `k` is the part of
/// `order` between `ends[k - 1]` (zero for the first layer) and `ends[k]`.
pub struct Layers {
    pub order: Vec<usize>,
    pub ends: Vec<usize>,
}

/// Where layer `k` begins.
pub open spec fn layer_start(ends: Seq<usize>, k: int) -> int {
    if k <= 0 {
        0
    } else {
        ends[k - 1] as int
    }
}

/// `order` holds no item twice, and only items below `count`.
pub open spec fn selects(count: int, order: Seq<usize>) -> bool {
    &&& order.no_duplicates()
    &&& forall|i: int| 0 <= i < order.len() ==> #[trigger] order[i] < count
}

/// `item` has an edge to something that is not in `order`.
pub open spec fn is_blocked(edges: Seq<(usize, usize)>, order: Seq<usize>, item: usize) -> bool {
    exists|e: int|
        0 <= e < edges.len() && (#[trigger] edges[e]).0 == item && !order.contains(edges[e].1)
}

/// Every item that is not in `order` waits for something that is not in it.
pub open spec fn is_maximal(count: int, edges: Seq<(usize, usize)>, order: Seq<usize>) -> bool {
    forall|item: usize|
        item < count && !#[trigger] order.contains(item) ==> is_blocked(edges, order, item)
}

/// The moment at which `item` is released: `(-1, item)` for an item without
/// edges, otherwise the place in `order` of the requirement that is met last,
/// and the last edge to it.
pub open spec fn is_release(
    edges: Seq<(usize, usize)>,
    order: Seq<usize>,
    item: usize,
    moment: (int, int),
) -> bool {
    if moment.0 < 0 {
        &&& moment == (-1int, item as int)
        &&& forall|e: int| 0 <= e < edges.len() ==> (#[trigger] edges[e]).0 != item
    } else {
        &&& 0 <= moment.1 < edges.len()
        &&& edges[moment.1].0 == item
        &&& moment.0 < order.len()
        &&& order[moment.0] == edges[moment.1].1
        &&& forall|e: int|
            0 <= e < edges.len() && (#[trigger] edges[e]).0 == item ==> settled_by(
                edges,
                order,
                e,
                moment,
            )
    }
}

/// The requirement of edge `e` is in `order`, and the edge is settled at
/// `moment` or before it.
pub open spec fn settled_by(
    edges: Seq<(usize, usize)>,
    order: Seq<usize>,
    e: int,
    moment: (int, int),
) -> bool {
    exists|p: int|
        0 <= p < order.len() && #[trigger] order[p] == edges[e].1 && (p < moment.0 || (p == moment.0
            && e <= moment.1))
}

pub open spec fn earlier(a: (int, int), b: (int, int)) -> bool {
    a.0 < b.0 || (a.0 == b.0 && a.1 < b.1)
}

/// `moments` are the release moments of `order`, and they increase.
pub open spec fn released_in_order(
    edges: Seq<(usize, usize)>,
    order: Seq<usize>,
    moments: Seq<(int, int)>,
) -> bool {
    &&& moments.len() == order.len()
    &&& forall|i: int|
        0 <= i < order.len() ==> is_release(edges, order, order[i], #[trigger] moments[i])
    &&& forall|i: int| 0 <= i < order.len() ==> (#[trigger] moments[i]).0 < i
    &&& forall|i: int, j: int|
        0 <= i < j < order.len() ==> earlier(#[trigger] moments[i], #[trigger] moments[j])
}

/// `ends` cuts `order` into layers: no layer is empty, and what releases an
/// item of one layer stands in the layer before.
pub open spec fn cuts_layers(order: Seq<usize>, moments: Seq<(int, int)>, ends: Seq<usize>) -> bool {
    &&& forall|k: int|
        0 <= k < ends.len() ==> #[trigger] layer_start(ends, k) < ends[k] <= order.len()
    &&& if ends.len() == 0 {
        order.len() == 0
    } else {
        ends[ends.len() - 1] == order.len()
    }
    &&& forall|k: int, i: int|
        #![trigger in_layer_after(ends, k, moments[i].0)]
        0 <= k < ends.len() && layer_start(ends, k) <= i < ends[k] ==> in_layer_after(
            ends,
            k,
            moments[i].0,
        )
}

/// An item released by the item at place `p` (or by nothing, `-1`) belongs to
/// layer `k`.
pub open spec fn in_layer_after(ends: Seq<usize>, k: int, p: int) -> bool {
    if k == 0 {
        p == -1
    } else {
        layer_start(ends, k - 1) <= p < layer_start(ends, k)
    }
}

/// `order` and `ends` are the layering of `count` items under `edges`.
pub open spec fn is_layering(
    count: int,
    edges: Seq<(usize, usize)>,
    order: Seq<usize>,
    ends: Seq<usize>,
) -> bool {
    &&& selects(count, order)
    &&& is_maximal(count, edges, order)
    &&& exists|moments: Seq<(int, int)>|
        {
            &&& #[trigger] released_in_order(edges, order, moments)
            &&& cuts_layers(order, moments, ends)
        }
}

/// How many edges of `item` are not settled yet.
spec fn open_edges(edges: Seq<(usize, usize)>, settled: Seq<bool>, item: usize) -> nat
    decreases edges.len(),
{
    if edges.len() == 0 {
        0
    } else {
        open_edges(edges.drop_last(), settled, item) + (if edges.last().0 == item
            && !settled[edges.len() - 1] {
            1nat
        } else {
            0nat
        })
    }
}

proof fn lemma_open_edges_zero(edges: Seq<(usize, usize)>, settled: Seq<bool>, item: usize)
    ensures
        open_edges(edges, settled, item) == 0 <==> forall|e: int|
            0 <= e < edges.len() && (#[trigger] edges[e]).0 == item ==> settled[e],
    decreases edges.len(),
{
    if edges.len() > 0 {
        let init = edges.drop_last();
        lemma_open_edges_zero(init, settled, item);
        assert forall|e: int| 0 <= e < init.len() implies #[trigger] init[e] == edges[e] by {}
        if open_edges(edges, settled, item) == 0 {
            assert forall|e: int|
                0 <= e < edges.len() && (#[trigger] edges[e]).0 == item implies settled[e] by {
                if e < init.len() {
                    assert(init[e].0 == item);
                }
            }
        } else {
            if open_edges(init, settled, item) != 0 {
                let e = choose|e: int|
                    0 <= e < init.len() && (#[trigger] init[e]).0 == item && !settled[e];
                assert(edges[e].0 == item && !settled[e]);
            } else {
                assert(edges[edges.len() - 1].0 == item && !settled[edges.len() - 1]);
            }
        }
    }
}

proof fn lemma_open_edges_bound(edges: Seq<(usize, usize)>, settled: Seq<bool>, item: usize)
    ensures
        open_edges(edges, settled, item) <= edges.len(),
    decreases edges.len(),
{
    if edges.len() > 0 {
        lemma_open_edges_bound(edges.drop_last(), settled, item);
    }
}

proof fn lemma_open_edges_settle(
    edges: Seq<(usize, usize)>,
    settled: Seq<bool>,
    e: int,
    item: usize,
)
    requires
        edges.len() <= settled.len(),
        0 <= e < settled.len(),
        !settled[e],
    ensures
        open_edges(edges, settled.update(e, true), item) == open_edges(edges, settled, item) - (
        if e < edges.len() && edges[e].0 == item {
            1int
        } else {
            0int
        }),
    decreases edges.len(),
{
    if edges.len() > 0 {
        lemma_open_edges_settle(edges.drop_last(), settled, e, item);
    }
}

/// `list` holds the edges below `bound` that wait for `requirement`, in order.
spec fn lists_edges(
    edges: Seq<(usize, usize)>,
    bound: int,
    requirement: usize,
    list: Seq<usize>,
) -> bool {
    &&& forall|c: int|
        0 <= c < list.len() ==> (#[trigger] list[c]) < bound && edges[list[c] as int].1
            == requirement
    &&& forall|c: int, d: int| 0 <= c < d < list.len() ==> #[trigger] list[c] < #[trigger] list[d]
    &&& forall|e: int|
        0 <= e < bound && (#[trigger] edges[e]).1 == requirement ==> list.contains(e as usize)
}

/// Between two listed edges, and after the last one, no edge has the requirement.
proof fn lemma_unlisted(
    edges: Seq<(usize, usize)>,
    requirement: usize,
    list: Seq<usize>,
    c: int,
    from: int,
    to: int,
)
    requires
        edges.len() <= usize::MAX,
        lists_edges(edges, edges.len() as int, requirement, list),
        0 <= c <= list.len(),
        from == if c == 0 {
            0int
        } else {
            list[c - 1] + 1
        },
        to == if c == list.len() {
            edges.len() as int
        } else {
            list[c] as int
        },
    ensures
        forall|d: int| from <= d < to ==> (#[trigger] edges[d]).1 != requirement,
{
    assert forall|d: int| from <= d < to implies (#[trigger] edges[d]).1 != requirement by {
        if c < list.len() {
            assert(list[c] < edges.len());
        }
        if edges[d].1 == requirement {
            assert(list.contains(d as usize));
            let k = choose|k: int| 0 <= k < list.len() && list[k] == d as usize;
            if k < c - 1 {
                assert(list[k] < list[c - 1]);
            }
            if k > c {
                assert(list[c] < list[k]);
            }
        }
    }
}

proof fn lemma_lists_edges_step(
    edges: Seq<(usize, usize)>,
    bound: usize,
    requirement: usize,
    list: Seq<usize>,
)
    requires
        0 <= bound < edges.len(),
        lists_edges(edges, bound as int, requirement, list),
    ensures
        lists_edges(
            edges,
            bound + 1,
            requirement,
            if edges[bound as int].1 == requirement {
                list.push(bound)
            } else {
                list
            },
        ),
{
    let grown = if edges[bound as int].1 == requirement {
        list.push(bound)
    } else {
        list
    };
    assert forall|e: int|
        0 <= e < bound + 1 && (#[trigger] edges[e]).1 == requirement implies grown.contains(
        e as usize,
    ) by {
        if e < bound {
            let c = choose|c: int| 0 <= c < list.len() && list[c] == e as usize;
            assert(grown[c] == e as usize);
        } else {
            assert(grown[list.len() as int] == bound);
        }
    }
}

/// For each item, the number of its edges, and the edges that wait for it.
fn edge_tables(count: usize, edges: &Vec<(usize, usize)>) -> (tables: (Vec<usize>, Vec<Vec<usize>>))
    requires
        forall|e: int| 0 <= e < edges.len() ==> (#[trigger] edges[e]).0 < count,
    ensures
        tables.0.len() == count,
        tables.1.len() == count,
        forall|j: int|
            0 <= j < count ==> #[trigger] tables.0[j] == open_edges(
                edges@,
                Seq::new(edges@.len(), |e: int| false),
                j as usize,
            ),
        forall|j: int|
            0 <= j < count ==> lists_edges(
                edges@,
                edges@.len() as int,
                j as usize,
                (#[trigger] tables.1[j])@,
            ),
{
    let mut waiting: Vec<usize> = Vec::new();
    let mut dependents: Vec<Vec<usize>> = Vec::new();
    let ghost none = Seq::new(edges@.len(), |e: int| false);
    let mut i: usize = 0;
    while i < count
        invariant
            i <= count,
            waiting.len() == i,
            dependents.len() == i,
            forall|j: int| 0 <= j < i ==> #[trigger] waiting[j] == 0,
            forall|j: int| 0 <= j < i ==> (#[trigger] dependents[j])@.len() == 0,
        decreases count - i,
    {
        waiting.push(0);
        dependents.push(Vec::new());
        i = i + 1;
    }
    let mut e: usize = 0;
    while e < edges.len()
        invariant
            e <= edges.len(),
            waiting.len() == count,
            dependents.len() == count,
            forall|e: int| 0 <= e < edges.len() ==> (#[trigger] edges[e]).0 < count,
            forall|j: int|
                0 <= j < count ==> #[trigger] waiting[j] == open_edges(
                    edges@.take(e as int),
                    none,
                    j as usize,
                ),
            forall|j: int|
                0 <= j < count ==> lists_edges(
                    edges@,
                    e as int,
                    j as usize,
                    (#[trigger] dependents[j])@,
                ),
            none == Seq::new(edges@.len(), |e: int| false),
        decreases edges.len() - e,
    {
        let (item, requirement) = edges[e];
        let ghost before = dependents@;
        proof {
            assert(edges@.take(e + 1).drop_last() =~= edges@.take(e as int));
            lemma_open_edges_bound(edges@.take(e as int), none, item);
        }
        let waited: usize = waiting[item];
        waiting.set(item, waited + 1);
        if requirement < count {
            dependents[requirement].push(e);
        }
        proof {
            assert forall|j: int| 0 <= j < count implies lists_edges(
                edges@,
                e + 1,
                j as usize,
                (#[trigger] dependents[j])@,
            ) by {
                lemma_lists_edges_step(edges@, e, j as usize, before[j]@);
            }
        }
        e = e + 1;
    }
    assert(edges@.take(edges@.len() as int) =~= edges@);
    (waiting, dependents)
}

/// Edge `e` is settled once the items before place `head` have been visited,
/// and the edges below `bound` that wait for the item at `head`.
spec fn is_settled(
    edges: Seq<(usize, usize)>,
    order: Seq<usize>,
    head: int,
    bound: int,
    e: int,
) -> bool {
    exists|p: int|
        0 <= p < order.len() && #[trigger] order[p] == edges[e].1 && (p < head || (p == head && e
            < bound))
}

/// What holds while items are being released.
spec fn is_underway(
    count: int,
    edges: Seq<(usize, usize)>,
    waiting: Seq<usize>,
    order: Seq<usize>,
    moments: Seq<(int, int)>,
    settled: Seq<bool>,
    head: int,
    bound: int,
) -> bool {
    &&& waiting.len() == count
    &&& settled.len() == edges.len()
    &&& 0 <= head <= order.len()
    &&& selects(count, order)
    &&& released_in_order(edges, order, moments)
    &&& forall|e: int|
        0 <= e < edges.len() ==> #[trigger] settled[e] == is_settled(edges, order, head, bound, e)
    &&& forall|j: int|
        0 <= j < count ==> #[trigger] waiting[j] == open_edges(edges, settled, j as usize)
    &&& forall|j: int|
        0 <= j < count ==> (#[trigger] waiting[j] == 0 <==> order.contains(j as usize))
    &&& forall|i: int|
        0 <= i < moments.len() ==> earlier(#[trigger] moments[i], (head, bound))
}

proof fn lemma_selects_len(count: int, order: Seq<usize>)
    requires
        selects(count, order),
        0 <= count,
    ensures
        order.len() <= count,
{
    let places = order.map_values(|x: usize| x as int);
    assert(places.no_duplicates());
    places.unique_seq_to_set();
    vstd::set_lib::lemma_int_range(0, count);
    assert forall|x: int| places.to_set().contains(x) implies #[trigger] vstd::set_lib::set_int_range(
        0,
        count,
    ).contains(x) by {
        let i = choose|i: int| 0 <= i < places.len() && places[i] == x;
        assert(order[i] < count);
    }
    assert(places.to_set().subset_of(vstd::set_lib::set_int_range(0, count)));
    vstd::set_lib::lemma_len_subset(places.to_set(), vstd::set_lib::set_int_range(0, count));
}

/// A release moment stays one when the order grows.
proof fn lemma_release_grows(
    edges: Seq<(usize, usize)>,
    order: Seq<usize>,
    more: Seq<usize>,
    item: usize,
    moment: (int, int),
)
    requires
        is_release(edges, order, item, moment),
    ensures
        is_release(edges, order + more, item, moment),
{
    let grown = order + more;
    if moment.0 >= 0 {
        assert forall|e: int|
            0 <= e < edges.len() && (#[trigger] edges[e]).0 == item implies settled_by(
            edges,
            grown,
            e,
            moment,
        ) by {
            let p = choose|p: int|
                0 <= p < order.len() && #[trigger] order[p] == edges[e].1 && (p < moment.0 || (p
                    == moment.0 && e <= moment.1));
            assert(grown[p] == edges[e].1);
        }
    }
}

/// Settling one edge of the item at place `head`.
proof fn lemma_settle(
    count: int,
    edges: Seq<(usize, usize)>,
    waiting: Seq<usize>,
    order: Seq<usize>,
    moments: Seq<(int, int)>,
    settled: Seq<bool>,
    head: int,
    bound: int,
    e: int,
)
    requires
        0 <= count <= usize::MAX,
        forall|e: int| 0 <= e < edges.len() ==> (#[trigger] edges[e]).0 < count,
        is_underway(count, edges, waiting, order, moments, settled, head, bound),
        head < order.len(),
        0 <= bound <= e < edges.len(),
        edges[e].1 == order[head],
        forall|d: int| bound <= d < e ==> (#[trigger] edges[d]).1 != order[head],
    ensures
        waiting[edges[e].0 as int] > 0,
        ({
            let item = edges[e].0;
            let fewer = (waiting[item as int] - 1) as usize;
            let waits = waiting.update(item as int, fewer);
            let done = settled.update(e, true);
            if fewer == 0 {
                is_underway(
                    count,
                    edges,
                    waits,
                    order.push(item),
                    moments.push((head, e)),
                    done,
                    head,
                    e + 1,
                )
            } else {
                is_underway(count, edges, waits, order, moments, done, head, e + 1)
            }
        }),
{
    let item = edges[e].0;
    let done = settled.update(e, true);
    assert(!is_settled(edges, order, head, bound, e)) by {
        if is_settled(edges, order, head, bound, e) {
            let p = choose|p: int|
                0 <= p < order.len() && #[trigger] order[p] == edges[e].1 && (p < head || (p == head
                    && e < bound));
            assert(p == head);
        }
    }
    assert(!settled[e]);
    lemma_open_edges_settle(edges, settled, e, item);
    let fewer = (waiting[item as int] - 1) as usize;
    let waits = waiting.update(item as int, fewer);
    assert forall|d: int| 0 <= d < edges.len() implies #[trigger] done[d] == is_settled(
        edges,
        order,
        head,
        e + 1,
        d,
    ) by {
        if d == e {
            assert(order[head] == edges[e].1);
        } else {
            assert(done[d] == settled[d]);
            if is_settled(edges, order, head, bound, d) {
                let p = choose|p: int|
                    0 <= p < order.len() && #[trigger] order[p] == edges[d].1 && (p < head || (p
                        == head && d < bound));
                assert(order[p] == edges[d].1);
            }
            if is_settled(edges, order, head, e + 1, d) {
                let p = choose|p: int|
                    0 <= p < order.len() && #[trigger] order[p] == edges[d].1 && (p < head || (p
                        == head && d < e + 1));
                assert(order[p] == edges[d].1);
                if p == head && d >= bound {
                    assert(edges[d].1 != order[head]);
                }
            }
        }
    }
    assert forall|j: int| 0 <= j < count implies #[trigger] waits[j] == open_edges(
        edges,
        done,
        j as usize,
    ) by {
        lemma_open_edges_settle(edges, settled, e, j as usize);
        assert(waiting[j] == open_edges(edges, settled, j as usize));
    }
    assert forall|i: int| 0 <= i < moments.len() implies earlier(#[trigger] moments[i], (head, e + 1)) by {
        assert(earlier(moments[i], (head, bound)));
    }
    if fewer == 0 {
        let grown = order.push(item);
        let stamped = moments.push((head, e));
        assert(waiting[item as int] != 0);
        assert(!order.contains(item));
        assert(grown =~= order + seq![item]);
        lemma_open_edges_zero(edges, done, item);
        assert forall|d: int| 0 <= d < edges.len() && (#[trigger] edges[d]).0 == item implies settled_by(
            edges,
            grown,
            d,
            (head, e),
        ) by {
            assert(done[d]);
            let p = choose|p: int|
                0 <= p < order.len() && #[trigger] order[p] == edges[d].1 && (p < head || (p == head
                    && d < e + 1));
            assert(grown[p] == edges[d].1);
        }
        assert(grown[head] == edges[e].1);
        assert(is_release(edges, grown, item, (head, e)));
        assert forall|i: int| 0 <= i < grown.len() implies is_release(
            edges,
            grown,
            grown[i],
            #[trigger] stamped[i],
        ) by {
            if i < order.len() {
                assert(is_release(edges, order, order[i], moments[i]));
                lemma_release_grows(edges, order, seq![item], order[i], moments[i]);
            }
        }
        assert forall|i: int, j: int| 0 <= i < j < grown.len() implies earlier(
            #[trigger] stamped[i],
            #[trigger] stamped[j],
        ) by {
            if j < order.len() {
                assert(earlier(moments[i], moments[j]));
            } else {
                assert(earlier(moments[i], (head, bound)));
            }
        }
        assert forall|i: int| 0 <= i < grown.len() implies (#[trigger] stamped[i]).0 < i by {
            if i < order.len() {
                assert(moments[i].0 < i);
            }
        }
        assert(released_in_order(edges, grown, stamped));
        assert(grown.no_duplicates());
        assert forall|d: int| 0 <= d < edges.len() implies #[trigger] done[d] == is_settled(
            edges,
            grown,
            head,
            e + 1,
            d,
        ) by {
            assert(done[d] == is_settled(edges, order, head, e + 1, d));
            if is_settled(edges, order, head, e + 1, d) {
                let p = choose|p: int|
                    0 <= p < order.len() && #[trigger] order[p] == edges[d].1 && (p < head || (p
                        == head && d < e + 1));
                assert(grown[p] == edges[d].1);
            }
            if is_settled(edges, grown, head, e + 1, d) {
                let p = choose|p: int|
                    0 <= p < grown.len() && #[trigger] grown[p] == edges[d].1 && (p < head || (p
                        == head && d < e + 1));
                assert(order[p] == edges[d].1);
            }
        }
        assert forall|j: int| 0 <= j < count implies (#[trigger] waits[j] == 0 <==> grown.contains(
            j as usize,
        )) by {
            assert(waiting[j] == 0 <==> order.contains(j as usize));
            if j == item {
                assert(grown[order.len() as int] == item);
            } else if order.contains(j as usize) {
                let p = choose|p: int| 0 <= p < order.len() && order[p] == j as usize;
                assert(grown[p] == j as usize);
            } else if grown.contains(j as usize) {
                let p = choose|p: int| 0 <= p < grown.len() && grown[p] == j as usize;
                assert(p == order.len());
            }
        }
        assert forall|i: int| 0 <= i < stamped.len() implies earlier(
            #[trigger] stamped[i],
            (head, e + 1),
        ) by {
            if i < moments.len() {
                assert(earlier(moments[i], (head, e + 1)));
            }
        }
    } else {
        assert forall|j: int| 0 <= j < count implies (#[trigger] waits[j] == 0 <==> order.contains(
            j as usize,
        )) by {
            assert(waiting[j] == 0 <==> order.contains(j as usize));
        }
    }
}

/// Moving on once every edge that waits for the item at `head` is settled.
proof fn lemma_advance(
    count: int,
    edges: Seq<(usize, usize)>,
    waiting: Seq<usize>,
    order: Seq<usize>,
    moments: Seq<(int, int)>,
    settled: Seq<bool>,
    head: int,
    bound: int,
)
    requires
        is_underway(count, edges, waiting, order, moments, settled, head, bound),
        head < order.len(),
        forall|d: int| bound <= d < edges.len() ==> (#[trigger] edges[d]).1 != order[head],
    ensures
        is_underway(count, edges, waiting, order, moments, settled, head + 1, 0),
{
    assert forall|d: int| 0 <= d < edges.len() implies #[trigger] settled[d] == is_settled(
        edges,
        order,
        head + 1,
        0,
        d,
    ) by {
        if is_settled(edges, order, head, bound, d) {
            let p = choose|p: int|
                0 <= p < order.len() && #[trigger] order[p] == edges[d].1 && (p < head || (p == head
                    && d < bound));
            assert(order[p] == edges[d].1 && p < head + 1);
        }
        if is_settled(edges, order, head + 1, 0, d) {
            let p = choose|p: int|
                0 <= p < order.len() && #[trigger] order[p] == edges[d].1 && (p < head + 1 || (p
                    == head + 1 && d < 0));
            assert(order[p] == edges[d].1);
            if p == head {
                assert(d < bound);
            }
        }
    }
    assert forall|i: int| 0 <= i < moments.len() implies earlier(#[trigger] moments[i], (head + 1, 0)) by {
        assert(earlier(moments[i], (head, bound)));
    }
}

/// What holds of the layers cut so far: the items behind the last cut are
/// released by items of the last layer.
spec fn is_cutting(order: Seq<usize>, moments: Seq<(int, int)>, ends: Seq<usize>, head: int) -> bool {
    &&& ends.len() > 0
    &&& forall|k: int|
        0 <= k < ends.len() ==> #[trigger] layer_start(ends, k) < ends[k] <= order.len()
    &&& forall|k: int, i: int|
        #![trigger in_layer_after(ends, k, moments[i].0)]
        0 <= k < ends.len() && layer_start(ends, k) <= i < ends[k] ==> in_layer_after(
            ends,
            k,
            moments[i].0,
        )
    &&& forall|i: int|
        ends[ends.len() - 1] <= i < order.len() ==> in_layer_after(
            ends,
            ends.len() as int,
            (#[trigger] moments[i]).0,
        )
    &&& layer_start(ends, ends.len() - 1) <= head
    &&& head < ends[ends.len() - 1] || head == ends[ends.len() - 1] == order.len()
}

/// Cutting off a full layer leaves well-cut layers.
proof fn lemma_cut(order: Seq<usize>, moments: Seq<(int, int)>, ends: Seq<usize>, end: usize)
    requires
        is_cutting(order, moments, ends, ends[ends.len() - 1] - 1),
        ends[ends.len() - 1] < end,
        end == order.len(),
    ensures
        is_cutting(order, moments, ends.push(end), ends[ends.len() - 1] as int),
{
    let cut = ends.push(end);
    assert forall|k: int| 0 <= k < cut.len() implies #[trigger] layer_start(cut, k) < cut[k]
        <= order.len() by {
        if k < ends.len() {
            assert(layer_start(ends, k) < ends[k] <= order.len());
            assert(layer_start(cut, k) == layer_start(ends, k));
        }
    }
    assert forall|k: int, i: int|
        #![trigger in_layer_after(cut, k, moments[i].0)]
        0 <= k < cut.len() && layer_start(cut, k) <= i < cut[k] implies in_layer_after(
        cut,
        k,
        moments[i].0,
    ) by {
        assert(layer_start(cut, k) == layer_start(ends, k));
        assert(layer_start(cut, k - 1) == layer_start(ends, k - 1));
        if k < ends.len() {
            assert(cut[k] == ends[k]);
            assert(in_layer_after(ends, k, moments[i].0));
        } else {
            assert(in_layer_after(ends, ends.len() as int, moments[i].0));
        }
    }
}

/// Release the items `0..count` layer by layer.
pub fn layers(count: usize, edges: &Vec<(usize, usize)>) -> (result: Layers)
    requires
        forall|e: int| 0 <= e < edges.len() ==> (#[trigger] edges[e]).0 < count,
    ensures
        is_layering(count as int, edges@, result.order@, result.ends@),
{
    let (mut waiting, dependents) = edge_tables(count, edges);
    let ghost mut settled = Seq::new(edges@.len(), |e: int| false);
    let ghost mut moments = Seq::<(int, int)>::empty();
    let mut order: Vec<usize> = Vec::new();
    let mut i: usize = 0;
    while i < count
        invariant
            i <= count,
            waiting.len() == count,
            settled == Seq::new(edges@.len(), |e: int| false),
            selects(i as int, order@),
            forall|j: int|
                0 <= j < count ==> #[trigger] waiting[j] == open_edges(edges@, settled, j as usize),
            forall|j: int|
                0 <= j < i ==> (#[trigger] waiting[j] == 0 <==> order@.contains(j as usize)),
            moments.len() == order.len(),
            forall|k: int|
                0 <= k < moments.len() ==> #[trigger] moments[k] == (-1int, order[k] as int),
            forall|k: int|
                0 <= k < moments.len() ==> is_release(
                    edges@,
                    order@,
                    order@[k],
                    #[trigger] moments[k],
                ),
            forall|k: int, l: int| 0 <= k < l < order.len() ==> order[k] < order[l],
        decreases count - i,
    {
        let ghost before = order@;
        if waiting[i] == 0 {
            proof {
                lemma_open_edges_zero(edges@, settled, i);
                assert forall|e: int| 0 <= e < edges@.len() implies (#[trigger] edges@[e]).0 != i by {
                    assert(!settled[e]);
                }
                moments = moments.push((-1int, i as int));
            }
            order.push(i);
        }
        proof {
            assert forall|j: int| 0 <= j < i + 1 implies (#[trigger] waiting[j] == 0
                <==> order@.contains(j as usize)) by {
                if j < i {
                    if before.contains(j as usize) {
                        let k = choose|k: int| 0 <= k < before.len() && before[k] == j as usize;
                        assert(order@[k] == j as usize);
                    }
                    if order@.contains(j as usize) {
                        let k = choose|k: int| 0 <= k < order@.len() && order@[k] == j as usize;
                        assert(before[k] == j as usize);
                    }
                } else if waiting[j] == 0 {
                    assert(order@[before.len() as int] == i);
                } else if order@.contains(j as usize) {
                    let k = choose|k: int| 0 <= k < order@.len() && order@[k] == j as usize;
                    assert(order@[k] < i);
                }
            }
        }
        i = i + 1;
    }
    let mut ends: Vec<usize> = Vec::new();
    if order.len() > 0 {
        ends.push(order.len());
    }
    let mut head: usize = 0;
    proof {
        assert forall|e: int| 0 <= e < edges@.len() implies #[trigger] settled[e] == is_settled(
            edges@,
            order@,
            0,
            0,
            e,
        ) by {}
        lemma_selects_len(count as int, order@);
        assert(is_underway(count as int, edges@, waiting@, order@, moments, settled, 0, 0));
    }
    while head < order.len()
        invariant
            forall|e: int| 0 <= e < edges.len() ==> (#[trigger] edges[e]).0 < count,
            dependents.len() == count,
            forall|j: int|
                0 <= j < count ==> lists_edges(
                    edges@,
                    edges@.len() as int,
                    j as usize,
                    (#[trigger] dependents[j])@,
                ),
            is_underway(count as int, edges@, waiting@, order@, moments, settled, head as int, 0),
            order.len() <= count,
            order.len() > 0 ==> is_cutting(order@, moments, ends@, head as int),
            order.len() == 0 ==> ends.len() == 0,
        decreases count - head,
    {
        let item: usize = order[head];
        let ghost list = dependents[item as int]@;
        let mut c: usize = 0;
        let ghost mut bound: int = 0;
        assert(order@[head as int] < count);
        assert(lists_edges(edges@, edges@.len() as int, item, list));
        while c < dependents[item].len()
            invariant
                forall|e: int| 0 <= e < edges.len() ==> (#[trigger] edges[e]).0 < count,
                item < dependents.len(),
                list == dependents[item as int]@,
                lists_edges(edges@, edges@.len() as int, item, list),
                c <= list.len(),
                bound == if c == 0 {
                    0int
                } else {
                    list[c - 1] + 1
                },
                head < order.len() <= count,
                order[head as int] == item,
                is_underway(
                    count as int,
                    edges@,
                    waiting@,
                    order@,
                    moments,
                    settled,
                    head as int,
                    bound,
                ),
                head < ends@[ends@.len() - 1],
                is_cutting(order@, moments, ends@, head as int),
            decreases list.len() - c,
        {
            let e: usize = dependents[item][c];
            let (dependent, _) = edges[e];
            proof {
                assert(list[c as int] == e);
                assert(edges@.len() == edges.len());
                lemma_unlisted(edges@, item, list, c as int, bound, e as int);
                lemma_settle(
                    count as int,
                    edges@,
                    waiting@,
                    order@,
                    moments,
                    settled,
                    head as int,
                    bound,
                    e as int,
                );
                settled = settled.update(e as int, true);
                bound = e + 1;
            }
            let fewer: usize = waiting[dependent] - 1;
            waiting.set(dependent, fewer);
            if fewer == 0 {
                let ghost shorter = moments;
                proof {
                    moments = moments.push((head as int, e as int));
                    assert forall|k: int, i: int|
                        #![trigger in_layer_after(ends@, k, moments[i].0)]
                        0 <= k < ends@.len() && layer_start(ends@, k) <= i
                            < ends@[k] implies in_layer_after(ends@, k, moments[i].0) by {
                        assert(moments[i] == shorter[i]);
                    }
                    assert forall|i: int|
                        ends@[ends@.len() - 1] <= i < order@.len() + 1 implies in_layer_after(
                        ends@,
                        ends@.len() as int,
                        (#[trigger] moments[i]).0,
                    ) by {
                        if i < order@.len() {
                            assert(moments[i] == shorter[i]);
                        }
                    }
                }
                order.push(dependent);
                proof {
                    lemma_selects_len(count as int, order@);
                }
            }
            c = c + 1;
        }
        proof {
            assert(edges@.len() == edges.len());
            lemma_unlisted(edges@, item, list, c as int, bound, edges@.len() as int);
            lemma_advance(
                count as int,
                edges@,
                waiting@,
                order@,
                moments,
                settled,
                head as int,
                bound,
            );
        }
        head = head + 1;
        if head == ends[ends.len() - 1] && head < order.len() {
            proof {
                lemma_cut(order@, moments, ends@, order.len());
            }
            ends.push(order.len());
        }
    }
    proof {
        assert forall|item: usize|
            item < count && !#[trigger] order@.contains(item) implies is_blocked(
            edges@,
            order@,
            item,
        ) by {
            assert(waiting@[item as int] != 0);
            lemma_open_edges_zero(edges@, settled, item);
            let e = choose|e: int|
                0 <= e < edges@.len() && (#[trigger] edges@[e]).0 == item && !settled[e];
            assert(!order@.contains(edges@[e].1)) by {
                if order@.contains(edges@[e].1) {
                    let p = choose|p: int| 0 <= p < order@.len() && order@[p] == edges@[e].1;
                    assert(is_settled(edges@, order@, head as int, 0, e));
                }
            }
        }
        assert(released_in_order(edges@, order@, moments));
        assert(cuts_layers(order@, moments, ends@));
    }
    Layers { order, ends }
}

/// In a layering every requirement of an item stands in an earlier layer.
pub proof fn law_requirements_in_earlier_layers(
    count: int,
    edges: Seq<(usize, usize)>,
    order: Seq<usize>,
    ends: Seq<usize>,
    k: int,
    i: int,
    e: int,
)
    requires
        is_layering(count, edges, order, ends),
        0 <= k < ends.len(),
        layer_start(ends, k) <= i < ends[k],
        0 <= e < edges.len(),
        edges[e].0 == order[i],
    ensures
        exists|p: int| 0 <= p < layer_start(ends, k) && #[trigger] order[p] == edges[e].1,
{
    let moments = choose|moments: Seq<(int, int)>|
        {
            &&& #[trigger] released_in_order(edges, order, moments)
            &&& cuts_layers(order, moments, ends)
        };
    assert(ends[k] <= order.len());
    assert(is_release(edges, order, order[i], moments[i]));
    assert(in_layer_after(ends, k, moments[i].0));
    assert(settled_by(edges, order, e, moments[i]));
    let p = choose|p: int|
        0 <= p < order.len() && #[trigger] order[p] == edges[e].1 && (p < moments[i].0 || (p
            == moments[i].0 && e <= moments[i].1));
    assert(order[p] == edges[e].1 && p < layer_start(ends, k));
}

/// In a layering the first layer holds the items without requirements, and an
/// item of a later layer has a requirement in the layer just before: it could
/// not have been released any sooner.
pub proof fn law_layers_are_tight(
    count: int,
    edges: Seq<(usize, usize)>,
    order: Seq<usize>,
    ends: Seq<usize>,
    k: int,
    i: int,
)
    requires
        is_layering(count, edges, order, ends),
        0 <= k < ends.len(),
        layer_start(ends, k) <= i < ends[k],
    ensures
        k == 0 <==> forall|e: int| 0 <= e < edges.len() ==> (#[trigger] edges[e]).0 != order[i],
        k > 0 ==> exists|e: int, p: int|
            0 <= e < edges.len() && (#[trigger] edges[e]).0 == order[i] && layer_start(ends, k - 1)
                <= p < layer_start(ends, k) && #[trigger] order[p] == edges[e].1,
{
    let moments = choose|moments: Seq<(int, int)>|
        {
            &&& #[trigger] released_in_order(edges, order, moments)
            &&& cuts_layers(order, moments, ends)
        };
    assert(ends[k] <= order.len());
    assert(is_release(edges, order, order[i], moments[i]));
    assert(in_layer_after(ends, k, moments[i].0));
    if k > 0 {
        assert(layer_start(ends, k - 1) >= 0);
        assert(edges[moments[i].1].0 == order[i]);
        assert(order[moments[i].0] == edges[moments[i].1].1);
    }
}

/// Every item comes after everything it requires.
pub open spec fn respects(edges: Seq<(usize, usize)>, order: Seq<usize>) -> bool {
    forall|i: int, e: int|
        #![trigger order[i], edges[e]]
        0 <= i < order.len() && 0 <= e < edges.len() && edges[e].0 == order[i]
            ==> order.take(i).contains(edges[e].1)
}

/// A layering lists every item after everything it requires.
pub proof fn law_layering_respects(
    count: int,
    edges: Seq<(usize, usize)>,
    order: Seq<usize>,
    ends: Seq<usize>,
)
    requires
        is_layering(count, edges, order, ends),
    ensures
        respects(edges, order),
{
    let moments = choose|moments: Seq<(int, int)>|
        {
            &&& #[trigger] released_in_order(edges, order, moments)
            &&& cuts_layers(order, moments, ends)
        };
    assert forall|i: int, e: int|
        #![trigger order[i], edges[e]]
        0 <= i < order.len() && 0 <= e < edges.len() && edges[e].0
            == order[i] implies order.take(i).contains(edges[e].1) by {
        assert(is_release(edges, order, order[i], moments[i]));
        assert(settled_by(edges, order, e, moments[i]));
        let p = choose|p: int|
            0 <= p < order.len() && #[trigger] order[p] == edges[e].1 && (p < moments[i].0 || (p
                == moments[i].0 && e <= moments[i].1));
        assert(order.take(i)[p] == edges[e].1);
    }
}

/// A layering holds whatever can be listed after its requirements at all.
pub proof fn law_layering_holds_all_listable(
    count: int,
    edges: Seq<(usize, usize)>,
    order: Seq<usize>,
    ends: Seq<usize>,
    listing: Seq<usize>,
    i: int,
)
    requires
        is_layering(count, edges, order, ends),
        selects(count, listing),
        respects(edges, listing),
        0 <= i < listing.len(),
    ensures
        order.contains(listing[i]),
    decreases i,
{
    let item = listing[i];
    if !order.contains(item) {
        assert(is_blocked(edges, order, item));
        let e = choose|e: int|
            0 <= e < edges.len() && (#[trigger] edges[e]).0 == item && !order.contains(edges[e].1);
        assert(listing.take(i).contains(edges[e].1));
        let p = choose|p: int| 0 <= p < i && listing.take(i)[p] == edges[e].1;
        assert(listing[p] == edges[e].1);
        law_layering_holds_all_listable(count, edges, order, ends, listing, p);
    }
}

/// A layering holds all items exactly when the items can be listed, each after
/// everything it requires.
pub proof fn law_layering_complete(
    count: int,
    edges: Seq<(usize, usize)>,
    order: Seq<usize>,
    ends: Seq<usize>,
)
    requires
        0 <= count,
        is_layering(count, edges, order, ends),
    ensures
        order.len() == count <==> exists|listing: Seq<usize>|
            selects(count, listing) && listing.len() == count && #[trigger] respects(edges, listing),
{
    law_layering_respects(count, edges, order, ends);
    if exists|listing: Seq<usize>|
        selects(count, listing) && listing.len() == count && #[trigger] respects(edges, listing) {
        let listing = choose|listing: Seq<usize>|
            selects(count, listing) && listing.len() == count && #[trigger] respects(
                edges,
                listing,
            );
        assert forall|i: int| 0 <= i < listing.len() implies order.contains(
            #[trigger] listing[i],
        ) by {
            law_layering_holds_all_listable(count, edges, order, ends, listing, i);
        }
        assert(listing.to_set().subset_of(order.to_set()));
        listing.unique_seq_to_set();
        order.unique_seq_to_set();
        vstd::set_lib::lemma_len_subset(listing.to_set(), order.to_set());
        lemma_selects_len(count, order);
    }
}

/// Release moments that lie in a common start of two orders agree.
proof fn lemma_same_release(
    edges: Seq<(usize, usize)>,
    a: Seq<usize>,
    b: Seq<usize>,
    shared: int,
    item: usize,
    at_a: (int, int),
    at_b: (int, int),
)
    requires
        0 <= shared <= a.len(),
        shared <= b.len(),
        a.take(shared) == b.take(shared),
        a.no_duplicates(),
        b.no_duplicates(),
        is_release(edges, a, item, at_a),
        at_a.0 < shared,
        is_release(edges, b, item, at_b),
    ensures
        at_a == at_b,
{
    if at_a.0 >= 0 {
        assert(edges[at_a.1].0 == item);
        assert(at_b.0 >= 0);
        assert(a.take(shared)[at_a.0] == a[at_a.0]);
        assert(b.take(shared)[at_a.0] == b[at_a.0]);
        assert(settled_by(edges, b, at_a.1, at_b));
        let p = choose|p: int|
            0 <= p < b.len() && #[trigger] b[p] == edges[at_a.1].1 && (p < at_b.0 || (p == at_b.0
                && at_a.1 <= at_b.1));
        assert(p == at_a.0);
        assert(settled_by(edges, a, at_b.1, at_a));
        let q = choose|q: int|
            0 <= q < a.len() && #[trigger] a[q] == edges[at_b.1].1 && (q < at_a.0 || (q == at_a.0
                && at_b.1 <= at_a.1));
        assert(a.take(shared)[q] == a[q]);
        assert(b.take(shared)[q] == b[q]);
        assert(q == at_b.0);
    } else if at_b.0 >= 0 {
        assert(edges[at_b.1].0 == item);
    }
}

proof fn lemma_orders_agree(
    count: int,
    edges: Seq<(usize, usize)>,
    a: Seq<usize>,
    a_ends: Seq<usize>,
    b: Seq<usize>,
    b_ends: Seq<usize>,
    n: int,
)
    requires
        is_layering(count, edges, a, a_ends),
        is_layering(count, edges, b, b_ends),
        a.len() == b.len(),
        forall|x: usize| a.contains(x) <==> b.contains(x),
        0 <= n <= a.len(),
    ensures
        a.take(n) == b.take(n),
    decreases n,
{
    if n > 0 {
        let i = n - 1;
        lemma_orders_agree(count, edges, a, a_ends, b, b_ends, i);
        let am = choose|moments: Seq<(int, int)>|
            {
                &&& #[trigger] released_in_order(edges, a, moments)
                &&& cuts_layers(a, moments, a_ends)
            };
        let bm = choose|moments: Seq<(int, int)>|
            {
                &&& #[trigger] released_in_order(edges, b, moments)
                &&& cuts_layers(b, moments, b_ends)
            };
        let u = a[i];
        let v = b[i];
        if u != v {
            assert(b.contains(u));
            assert(a.contains(v)) by {
                assert(b.contains(v));
            }
            let k = choose|k: int| 0 <= k < b.len() && b[k] == u;
            let j = choose|j: int| 0 <= j < a.len() && a[j] == v;
            if k < i {
                assert(a.take(i)[k] == b.take(i)[k]);
            }
            if j < i {
                assert(a.take(i)[j] == b.take(i)[j]);
            }
            assert(i < k && i < j);
            assert(is_release(edges, a, a[i], am[i]) && is_release(edges, a, a[j], am[j]));
            assert(is_release(edges, b, b[i], bm[i]) && is_release(edges, b, b[k], bm[k]));
            assert(am[i].0 < i && bm[i].0 < i);
            lemma_same_release(edges, a, b, i, u, am[i], bm[k]);
            lemma_same_release(edges, b, a, i, v, bm[i], am[j]);
            assert(earlier(am[i], am[j]) && earlier(bm[i], bm[k]));
            assert(false);
        }
        assert(a.take(n) =~= a.take(i).push(u));
        assert(b.take(n) =~= b.take(i).push(v));
    }
}

proof fn lemma_moments_agree(
    edges: Seq<(usize, usize)>,
    order: Seq<usize>,
    a: Seq<(int, int)>,
    b: Seq<(int, int)>,
)
    requires
        order.no_duplicates(),
        released_in_order(edges, order, a),
        released_in_order(edges, order, b),
    ensures
        a == b,
{
    assert forall|i: int| 0 <= i < order.len() implies #[trigger] a[i] == b[i] by {
        assert(is_release(edges, order, order[i], a[i]));
        assert(is_release(edges, order, order[i], b[i]));
        lemma_same_release(edges, order, order, order.len() as int, order[i], a[i], b[i]);
    }
    assert(a =~= b);
}

/// The first cut that differs would lie in the other's layer and behind it.
proof fn lemma_ends_agree(
    order: Seq<usize>,
    moments: Seq<(int, int)>,
    a: Seq<usize>,
    b: Seq<usize>,
    n: int,
)
    requires
        cuts_layers(order, moments, a),
        cuts_layers(order, moments, b),
        0 <= n <= a.len(),
        n <= b.len(),
    ensures
        forall|k: int| 0 <= k < n ==> #[trigger] a[k] == b[k],
    decreases n,
{
    if n > 0 {
        let k = n - 1;
        lemma_ends_agree(order, moments, a, b, k);
        assert(layer_start(a, k) == layer_start(b, k));
        assert(layer_start(a, k - 1) == layer_start(b, k - 1));
        lemma_cut_not_sooner(order, moments, a, b, k);
        lemma_cut_not_sooner(order, moments, b, a, k);
    }
}

proof fn lemma_not_more_layers(
    order: Seq<usize>,
    moments: Seq<(int, int)>,
    a: Seq<usize>,
    b: Seq<usize>,
)
    requires
        cuts_layers(order, moments, a),
        cuts_layers(order, moments, b),
    ensures
        a.len() <= b.len(),
{
    if b.len() < a.len() {
        let n = b.len() as int;
        lemma_ends_agree(order, moments, a, b, n);
        assert(layer_start(a, n) < a[n] <= order.len());
        assert(n > 0 ==> a[n - 1] == b[n - 1]);
    }
}

proof fn lemma_cut_not_sooner(
    order: Seq<usize>,
    moments: Seq<(int, int)>,
    a: Seq<usize>,
    b: Seq<usize>,
    k: int,
)
    requires
        cuts_layers(order, moments, a),
        cuts_layers(order, moments, b),
        0 <= k < a.len(),
        k < b.len(),
        layer_start(a, k) == layer_start(b, k),
        layer_start(a, k - 1) == layer_start(b, k - 1),
    ensures
        b[k] <= a[k],
{
    assert(layer_start(a, k) < a[k] <= order.len());
    assert(layer_start(b, k) < b[k] <= order.len());
    if a[k] < b[k] {
        lemma_next_layer(order, moments, a, k);
        let i = a[k] as int;
        assert(in_layer_after(b, k, moments[i].0));
    }
}

/// The item behind the end of layer `k` is released by an item of layer `k`.
proof fn lemma_next_layer(order: Seq<usize>, moments: Seq<(int, int)>, ends: Seq<usize>, k: int)
    requires
        cuts_layers(order, moments, ends),
        0 <= k < ends.len(),
        ends[k] < order.len(),
    ensures
        layer_start(ends, k) <= moments[ends[k] as int].0,
{
    assert(k + 1 < ends.len());
    assert(layer_start(ends, k + 1) < ends[k + 1]);
    assert(in_layer_after(ends, k + 1, moments[ends[k] as int].0));
}

/// There is one layering only.
pub proof fn law_layering_unique(
    count: int,
    edges: Seq<(usize, usize)>,
    a: Seq<usize>,
    a_ends: Seq<usize>,
    b: Seq<usize>,
    b_ends: Seq<usize>,
)
    requires
        is_layering(count, edges, a, a_ends),
        is_layering(count, edges, b, b_ends),
    ensures
        a == b,
        a_ends == b_ends,
{
    law_layering_respects(count, edges, a, a_ends);
    law_layering_respects(count, edges, b, b_ends);
    assert forall|x: usize| a.contains(x) <==> b.contains(x) by {
        if a.contains(x) {
            let i = choose|i: int| 0 <= i < a.len() && a[i] == x;
            law_layering_holds_all_listable(count, edges, b, b_ends, a, i);
        }
        if b.contains(x) {
            let i = choose|i: int| 0 <= i < b.len() && b[i] == x;
            law_layering_holds_all_listable(count, edges, a, a_ends, b, i);
        }
    }
    a.unique_seq_to_set();
    b.unique_seq_to_set();
    assert(a.to_set() =~= b.to_set());
    lemma_orders_agree(count, edges, a, a_ends, b, b_ends, a.len() as int);
    assert(a.take(a.len() as int) =~= a);
    assert(b.take(b.len() as int) =~= b);
    let am = choose|moments: Seq<(int, int)>|
        {
            &&& #[trigger] released_in_order(edges, a, moments)
            &&& cuts_layers(a, moments, a_ends)
        };
    let bm = choose|moments: Seq<(int, int)>|
        {
            &&& #[trigger] released_in_order(edges, b, moments)
            &&& cuts_layers(b, moments, b_ends)
        };
    lemma_moments_agree(edges, a, am, bm);
    lemma_not_more_layers(a, am, a_ends, b_ends);
    lemma_not_more_layers(a, am, b_ends, a_ends);
    lemma_ends_agree(a, am, a_ends, b_ends, a_ends.len() as int);
    assert(a_ends =~= b_ends);
}

/// Items without requirements come first, in the order of their numbers. Of any
/// two others the one comes first whose last requirement is met first, and if
/// one requirement is the last of both, the one whose edge to it comes first.
pub proof fn law_first_released_comes_first(
    count: int,
    edges: Seq<(usize, usize)>,
    order: Seq<usize>,
    ends: Seq<usize>,
    i: int,
    j: int,
    e: int,
    p: int,
)
    requires
        is_layering(count, edges, order, ends),
        0 <= i < j < order.len(),
    ensures
        (forall|d: int| 0 <= d < edges.len() ==> (#[trigger] edges[d]).0 != order[j]) ==> order[i]
            < order[j] && forall|d: int|
            0 <= d < edges.len() ==> (#[trigger] edges[d]).0 != order[i],
        0 <= e < edges.len() && edges[e].0 == order[i] && 0 <= p < order.len() && order[p]
            == edges[e].1 ==> exists|d: int, q: int|
            0 <= d < edges.len() && (#[trigger] edges[d]).0 == order[j] && 0 <= q < order.len()
                && #[trigger] order[q] == edges[d].1 && (p < q || (p == q && e < d)),
{
    let moments = choose|moments: Seq<(int, int)>|
        {
            &&& #[trigger] released_in_order(edges, order, moments)
            &&& cuts_layers(order, moments, ends)
        };
    let a = moments[i];
    let b = moments[j];
    assert(is_release(edges, order, order[i], a));
    assert(is_release(edges, order, order[j], b));
    assert(earlier(a, b));
    if b.0 >= 0 {
        assert(edges[b.1].0 == order[j]);
    }
    if 0 <= e < edges.len() && edges[e].0 == order[i] && 0 <= p < order.len() && order[p]
        == edges[e].1 {
        assert(a.0 >= 0);
        assert(settled_by(edges, order, e, a));
        let r = choose|r: int|
            0 <= r < order.len() && #[trigger] order[r] == edges[e].1 && (r < a.0 || (r == a.0 && e
                <= a.1));
        assert(r == p);
        assert(edges[b.1].0 == order[j] && order[b.0] == edges[b.1].1);
    }
}

} // verus!
