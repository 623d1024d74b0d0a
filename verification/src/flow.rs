use vstd::prelude::*;
use vstd::set_lib::{lemma_int_range, lemma_len_subset, set_int_range};
use std::collections::VecDeque;

use crate::simulation::Cell;
use crate::simulation::{lemma_index2_bounds, Grid};

verus! {

/// Row-major slot of `(x, y)` in a grid `w` cells wide.
pub open spec fn slot(w: int, x: int, y: int) -> int {
    y * w + x
}

/// Cells water cannot pass through on its way downstream.
pub open spec fn blocks_flow(c: Cell) -> bool {
    c is Wall
}

/// Cells of the inlet row (y = 0) that feed the flow.
pub open spec fn is_source(c: Cell) -> bool {
    c is Water || c is Spring
}

/// `(x, y)` lies at most `k` steps downstream of an inlet source: a path of
/// at most `k` moves between edge-adjacent cells leads there from a source
/// cell of row y = 0, and every cell after the first is not a wall.
pub open spec fn reachable_within(g: &Grid, x: int, y: int, k: nat) -> bool
    decreases k,
{
    if !g.in_grid(x, y) {
        false
    } else if k == 0 {
        y == 0 && is_source(g.cell(x, 0))
    } else {
        let j = (k - 1) as nat;
        ||| reachable_within(g, x, y, j)
        ||| !blocks_flow(g.cell(x, y)) && {
            ||| reachable_within(g, x - 1, y, j)
            ||| reachable_within(g, x + 1, y, j)
            ||| reachable_within(g, x, y - 1, j)
            ||| reachable_within(g, x, y + 1, j)
        }
    }
}

/// `dist` is the flow-distance table of `g`: every cell holds the length of
/// its shortest path from an inlet source, or `u32::MAX` when none exists.
pub open spec fn is_flow_distance(g: &Grid, dist: Seq<u32>) -> bool {
    &&& dist.len() == g.width * g.height
    &&& forall|x: int, y: int| #![trigger dist[slot(g.width as int, x, y)]]
        g.in_grid(x, y) ==> {
            let d = dist[slot(g.width as int, x, y)];
            &&& d != u32::MAX ==> reachable_within(g, x, y, d as nat)
            &&& forall|k: nat| #[trigger] reachable_within(g, x, y, k)
                ==> d != u32::MAX && d <= k
        }
}

proof fn lemma_wall_unreachable(g: &Grid, x: int, y: int, k: nat)
    requires
        g.in_grid(x, y),
        g.cell(x, y) is Wall,
    ensures
        !reachable_within(g, x, y, k),
    decreases k,
{
    if k > 0 {
        lemma_wall_unreachable(g, x, y, (k - 1) as nat);
    }
}

/// Only walls stop the flow. In a flow-distance table: every wall is
/// unreachable; every water or spring cell of the inlet row is at distance
/// 0; and any cell that is not a wall (air, water, objects, drains,
/// springs, buildings, rock, sand) is at most one step further than any
/// edge neighbour that is reached at all.
pub proof fn law_only_walls_block_flow(g: &Grid, dist: Seq<u32>)
    requires
        is_flow_distance(g, dist),
    ensures
        forall|x: int, y: int| #![trigger dist[slot(g.width as int, x, y)]]
            g.in_grid(x, y) && g.cell(x, y) is Wall ==> dist[slot(g.width as int, x, y)] == u32::MAX,
        forall|x: int| #![trigger dist[slot(g.width as int, x, 0)]]
            g.in_grid(x, 0) && (g.cell(x, 0) is Water || g.cell(x, 0) is Spring)
                ==> dist[slot(g.width as int, x, 0)] == 0,
        forall|x: int, y: int, a: int, b: int|
            #![trigger dist[slot(g.width as int, x, y)], dist[slot(g.width as int, a, b)]]
            g.in_grid(x, y) && g.in_grid(a, b)
                && ((a == x + 1 && b == y) || (a == x - 1 && b == y) || (a == x && b == y + 1)
                    || (a == x && b == y - 1))
                && !(g.cell(x, y) is Wall)
                && dist[slot(g.width as int, a, b)] != u32::MAX
                ==> dist[slot(g.width as int, x, y)] != u32::MAX
                    && dist[slot(g.width as int, x, y)] <= dist[slot(g.width as int, a, b)] + 1,
{
    let w = g.width as int;
    assert forall|x: int, y: int| #![trigger dist[slot(w, x, y)]]
        g.in_grid(x, y) && g.cell(x, y) is Wall implies dist[slot(w, x, y)] == u32::MAX by {
        let dd = dist[slot(w, x, y)];
        if dd != u32::MAX {
            lemma_wall_unreachable(g, x, y, dd as nat);
        }
    }
    assert forall|x: int| #![trigger dist[slot(w, x, 0)]]
        g.in_grid(x, 0) && (g.cell(x, 0) is Water || g.cell(x, 0) is Spring)
            implies dist[slot(w, x, 0)] == 0 by {
        assert(reachable_within(g, x, 0, 0));
    }
    assert forall|x: int, y: int, a: int, b: int|
        #![trigger dist[slot(w, x, y)], dist[slot(w, a, b)]]
        g.in_grid(x, y) && g.in_grid(a, b)
            && ((a == x + 1 && b == y) || (a == x - 1 && b == y) || (a == x && b == y + 1)
                || (a == x && b == y - 1))
            && !(g.cell(x, y) is Wall)
            && dist[slot(w, a, b)] != u32::MAX
            implies dist[slot(w, x, y)] != u32::MAX && dist[slot(w, x, y)] <= dist[slot(w, a, b)] + 1 by {
        let k = dist[slot(w, a, b)] as nat;
        assert(reachable_within(g, a, b, k));
        assert(reachable_within(g, x, y, k + 1));
    }
}

spec fn visited(dist: Seq<u32>, i: int) -> bool {
    dist[i] != u32::MAX
}

spec fn visited_set(dist: Seq<u32>) -> Set<int> {
    Set::new(|i: int| 0 <= i < dist.len() && dist[i] != u32::MAX)
}

spec fn in_queue(q: Seq<usize>, i: int) -> bool {
    exists|k: int| 0 <= k < q.len() && q[k] == i
}

/// The neighbour `(a, b)` is settled relative to distance `du`: it is off
/// the grid, a wall, or already holds a distance of at most `du + 1`.
spec fn neighbor_ok(g: &Grid, dist: Seq<u32>, du: int, a: int, b: int) -> bool {
    ||| !g.in_grid(a, b)
    ||| blocks_flow(g.cell(a, b))
    ||| dist[slot(g.width as int, a, b)] != u32::MAX
        && dist[slot(g.width as int, a, b)] <= du + 1
}

/// All four neighbours of `(x, y)` are settled relative to its distance.
spec fn settled(g: &Grid, dist: Seq<u32>, x: int, y: int) -> bool {
    let d = dist[slot(g.width as int, x, y)] as int;
    &&& neighbor_ok(g, dist, d, x - 1, y)
    &&& neighbor_ok(g, dist, d, x + 1, y)
    &&& neighbor_ok(g, dist, d, x, y - 1)
    &&& neighbor_ok(g, dist, d, x, y + 1)
}

/// Facts the search keeps at every step.
spec fn search_core(g: &Grid, dist: Seq<u32>, q: Seq<usize>) -> bool {
    let w = g.width as int;
    let n = g.width * g.height;
    &&& g.wf()
    &&& dist.len() == n
    &&& n < u32::MAX
    &&& forall|k: int| #![trigger q[k]] 0 <= k < q.len() ==> q[k] < n && visited(dist, q[k] as int)
    &&& forall|a: int, b: int| 0 <= a < b < q.len() ==> q[a] != q[b]
    &&& forall|a: int, b: int| 0 <= a <= b < q.len() ==> dist[q[a] as int] <= dist[q[b] as int]
    &&& forall|x: int, y: int| #![trigger visited(dist, slot(w, x, y))]
        g.in_grid(x, y) && visited(dist, slot(w, x, y))
            ==> reachable_within(g, x, y, dist[slot(w, x, y)] as nat)
    &&& forall|x: int| #![trigger g.cell(x, 0)]
        0 <= x < g.width && g.height > 0 && is_source(g.cell(x, 0)) ==> dist[x] == 0
    &&& forall|i: int| #![trigger visited(dist, i)]
        0 <= i < n && visited(dist, i) ==> dist[i] < visited_set(dist).len()
}

/// Loop invariant of the search between two dequeues.
spec fn search_inv(g: &Grid, dist: Seq<u32>, q: Seq<usize>) -> bool {
    let w = g.width as int;
    &&& search_core(g, dist, q)
    &&& q.len() > 0 ==> dist[q.last() as int] <= dist[q[0] as int] + 1
    &&& forall|x: int, y: int| #![trigger visited(dist, slot(w, x, y))]
        g.in_grid(x, y) && visited(dist, slot(w, x, y)) && !in_queue(q, slot(w, x, y)) ==> {
            &&& settled(g, dist, x, y)
            &&& q.len() > 0 ==> dist[slot(w, x, y)] <= dist[q[0] as int]
        }
}

/// Invariant while the neighbours of the dequeued cell `(ux, uy)` at
/// distance `du` are being examined.
spec fn expand_inv(g: &Grid, dist: Seq<u32>, q: Seq<usize>, ux: int, uy: int, du: int) -> bool {
    let w = g.width as int;
    &&& search_core(g, dist, q)
    &&& g.in_grid(ux, uy)
    &&& dist[slot(w, ux, uy)] == du
    &&& visited(dist, slot(w, ux, uy))
    &&& !in_queue(q, slot(w, ux, uy))
    &&& forall|k: int| #![trigger q[k]] 0 <= k < q.len()
        ==> du <= dist[q[k] as int] <= du + 1
    &&& forall|x: int, y: int| #![trigger visited(dist, slot(w, x, y))]
        g.in_grid(x, y) && visited(dist, slot(w, x, y)) && !in_queue(q, slot(w, x, y))
            && slot(w, x, y) != slot(w, ux, uy) ==> {
            &&& settled(g, dist, x, y)
            &&& dist[slot(w, x, y)] <= du
        }
}

proof fn lemma_visited_set_bound(dist: Seq<u32>)
    ensures
        visited_set(dist).finite(),
        visited_set(dist).len() <= dist.len(),
{
    lemma_int_range(0, dist.len() as int);
    assert(visited_set(dist).subset_of(set_int_range(0, dist.len() as int)));
    lemma_len_subset(visited_set(dist), set_int_range(0, dist.len() as int));
}

proof fn lemma_visited_set_insert(dist: Seq<u32>, v: int, val: u32)
    requires
        0 <= v < dist.len(),
        dist[v] == u32::MAX,
        val != u32::MAX,
    ensures
        visited_set(dist.update(v, val)) == visited_set(dist).insert(v),
        visited_set(dist.update(v, val)).len() == visited_set(dist).len() + 1,
{
    lemma_visited_set_bound(dist);
    assert(visited_set(dist.update(v, val)) =~= visited_set(dist).insert(v));
    assert(!visited_set(dist).contains(v));
}

proof fn lemma_visited_set_nonempty(dist: Seq<u32>, i: int)
    requires
        0 <= i < dist.len(),
        dist[i] != u32::MAX,
    ensures
        visited_set(dist).len() >= 1,
{
    lemma_visited_set_bound(dist);
    assert(visited_set(dist).contains(i));
    if visited_set(dist).len() == 0 {
        assert(visited_set(dist) =~= Set::<int>::empty());
    }
}

proof fn lemma_slot_distinct(g: &Grid, x1: int, y1: int, x2: int, y2: int)
    requires
        g.in_grid(x1, y1),
        g.in_grid(x2, y2),
        !(x1 == x2 && y1 == y2),
    ensures
        slot(g.width as int, x1, y1) != slot(g.width as int, x2, y2),
        0 <= slot(g.width as int, x1, y1) < g.width * g.height,
{
    lemma_index2_bounds(g.width as int, g.height as int, x1, y1);
    if slot(g.width as int, x1, y1) == slot(g.width as int, x2, y2) {
        crate::simulation::lemma_index2_injective(g.width as int, x1, y1, x2, y2);
    }
}

proof fn lemma_neighbor_ok_update(g: &Grid, d0: Seq<u32>, v: int, val: u32, du: int, a: int, b: int)
    requires
        g.wf(),
        d0.len() == g.width * g.height,
        0 <= v < d0.len(),
        d0[v] == u32::MAX,
        neighbor_ok(g, d0, du, a, b),
    ensures
        neighbor_ok(g, d0.update(v, val), du, a, b),
{
    if g.in_grid(a, b) && !blocks_flow(g.cell(a, b)) {
        lemma_index2_bounds(g.width as int, g.height as int, a, b);
    }
}

/// Every cell a path reaches within `k` steps has been given a distance of
/// at most `k` once the search has drained its queue.
proof fn lemma_reach_visited(g: &Grid, dist: Seq<u32>, x: int, y: int, k: nat)
    requires
        search_inv(g, dist, Seq::<usize>::empty()),
        reachable_within(g, x, y, k),
    ensures
        visited(dist, slot(g.width as int, x, y)),
        dist[slot(g.width as int, x, y)] <= k,
    decreases k,
{
    let w = g.width as int;
    let q = Seq::<usize>::empty();
    if k == 0 {
        assert(y == 0 && is_source(g.cell(x, 0)));
        assert(slot(w, x, 0) == x);
    } else {
        let j = (k - 1) as nat;
        if reachable_within(g, x, y, j) {
            lemma_reach_visited(g, dist, x, y, j);
        } else {
            let (a, b) = if reachable_within(g, x - 1, y, j) {
                (x - 1, y)
            } else if reachable_within(g, x + 1, y, j) {
                (x + 1, y)
            } else if reachable_within(g, x, y - 1, j) {
                (x, y - 1)
            } else {
                (x, y + 1)
            };
            assert(reachable_within(g, a, b, j));
            lemma_reach_visited(g, dist, a, b, j);
            assert(g.in_grid(a, b));
            assert(!in_queue(q, slot(w, a, b)));
            assert(visited(dist, slot(w, a, b)));
            assert(settled(g, dist, a, b));
        }
    }
}

/// Examines neighbour `(nx, ny)` of the dequeued cell `(ux, uy)`: an
/// unreached, non-wall neighbour gets distance `du + 1` and joins the queue.
fn relax(
    g: &Grid,
    dist: &mut Vec<u32>,
    queue: &mut VecDeque<usize>,
    Ghost(ux): Ghost<int>,
    Ghost(uy): Ghost<int>,
    du: u32,
    nx: usize,
    ny: usize,
)
    requires
        expand_inv(g, old(dist)@, old(queue)@, ux, uy, du as int),
        g.in_grid(nx as int, ny as int),
        (nx == ux - 1 && ny == uy) || (nx == ux + 1 && ny == uy)
            || (nx == ux && ny == uy - 1) || (nx == ux && ny == uy + 1),
    ensures
        expand_inv(g, final(dist)@, final(queue)@, ux, uy, du as int),
        neighbor_ok(g, final(dist)@, du as int, nx as int, ny as int),
        forall|a: int, b: int| neighbor_ok(g, old(dist)@, du as int, a, b)
            ==> #[trigger] neighbor_ok(g, final(dist)@, du as int, a, b),
        2 * (g.width * g.height - visited_set(final(dist)@).len()) + final(queue)@.len()
            <= 2 * (g.width * g.height - visited_set(old(dist)@).len()) + old(queue)@.len(),
{
    let ghost w = g.width as int;
    let ghost d0 = dist@;
    let ghost q0 = queue@;
    let ghost u = slot(w, ux, uy);
    let ghost v = slot(w, nx as int, ny as int);
    proof {
        lemma_slot_distinct(g, nx as int, ny as int, ux, uy);
        lemma_index2_bounds(w, g.height as int, nx as int, ny as int);
        lemma_index2_bounds(w, g.height as int, ux, uy);
        lemma_visited_set_bound(d0);
        assert(visited(d0, u));
    }
    let nidx = ny * g.width + nx;
    assert(nidx == v);
    if dist[nidx] <= du + 1 {
        return;
    }
    match g.cells[nidx] {
        Cell::Wall => {},
        _ => {
            proof {
                if visited(d0, v) {
                    if in_queue(q0, v) {
                        let k = choose|k: int| 0 <= k < q0.len() && q0[k] == v;
                        assert(du <= d0[q0[k] as int] <= du + 1);
                    } else {
                        assert(visited(d0, slot(w, nx as int, ny as int)));
                    }
                }
                assert(!visited(d0, v));
                lemma_visited_set_insert(d0, v, (du + 1) as u32);
                assert(!in_queue(q0, v));
                assert(reachable_within(g, ux, uy, du as nat));
            }
            dist.set(nidx, du + 1);
            queue.push_back(nidx);
            proof {
                let d1 = dist@;
                let q1 = queue@;
                assert(d1 == d0.update(v, (du + 1) as u32));
                assert(q1 == q0.push(nidx));
                assert forall|k: int| 0 <= k < q0.len() implies #[trigger] q1[k] == q0[k] && q0[k] != v by {
                    if q0[k] == v {
                        assert(in_queue(q0, v));
                    }
                }
                assert forall|i: int| #![trigger in_queue(q1, i)] in_queue(q1, i) && i != v implies in_queue(q0, i) by {
                    let k = choose|k: int| 0 <= k < q1.len() && q1[k] == i;
                    assert(k < q0.len());
                }
                assert forall|x: int, y: int| #![trigger visited(d1, slot(w, x, y))]
                    g.in_grid(x, y) && visited(d1, slot(w, x, y))
                        implies reachable_within(g, x, y, d1[slot(w, x, y)] as nat) by {
                    lemma_index2_bounds(w, g.height as int, x, y);
                    if slot(w, x, y) == v {
                        if !(x == nx && y == ny) {
                            lemma_slot_distinct(g, x, y, nx as int, ny as int);
                        }
                        assert(reachable_within(g, nx as int, ny as int, (du + 1) as nat));
                    } else {
                        assert(visited(d0, slot(w, x, y)));
                    }
                }
                assert forall|x: int, y: int| #![trigger visited(d1, slot(w, x, y))]
                    g.in_grid(x, y) && visited(d1, slot(w, x, y)) && !in_queue(q1, slot(w, x, y))
                        && slot(w, x, y) != u implies {
                        &&& settled(g, d1, x, y)
                        &&& d1[slot(w, x, y)] <= du
                    } by {
                    lemma_index2_bounds(w, g.height as int, x, y);
                    if slot(w, x, y) == v {
                        assert(q1[q1.len() - 1] == v);
                    }
                    assert(slot(w, x, y) != v);
                    if in_queue(q0, slot(w, x, y)) {
                        let k = choose|k: int| 0 <= k < q0.len() && q0[k] == slot(w, x, y);
                        assert(q1[k] == q0[k]);
                        assert(in_queue(q1, slot(w, x, y)));
                    }
                    assert(visited(d0, slot(w, x, y)));
                    assert(settled(g, d0, x, y));
                    let dxy = d0[slot(w, x, y)] as int;
                    assert(d1[slot(w, x, y)] == dxy);
                    lemma_neighbor_ok_update(g, d0, v, (du + 1) as u32, dxy, x - 1, y);
                    lemma_neighbor_ok_update(g, d0, v, (du + 1) as u32, dxy, x + 1, y);
                    lemma_neighbor_ok_update(g, d0, v, (du + 1) as u32, dxy, x, y - 1);
                    lemma_neighbor_ok_update(g, d0, v, (du + 1) as u32, dxy, x, y + 1);
                }
                assert forall|i: int| #![trigger visited(d1, i)]
                    0 <= i < g.width * g.height && visited(d1, i)
                        implies d1[i] < visited_set(d1).len() by {
                    if i != v {
                        assert(visited(d0, i));
                    }
                }
                assert forall|x: int| #![trigger g.cell(x, 0)]
                    0 <= x < g.width && g.height > 0 && is_source(g.cell(x, 0))
                        implies d1[x] == 0 by {
                    assert(d0[x] == 0);
                }
                assert forall|a: int, b: int| 0 <= a <= b < q1.len()
                    implies d1[q1[a] as int] <= d1[q1[b] as int] by {
                    if b < q0.len() {
                        assert(q1[b] == q0[b]);
                        assert(q1[a] == q0[a]);
                    } else {
                        if a < q0.len() {
                            assert(q1[a] == q0[a]);
                            assert(du <= d0[q0[a] as int] <= du + 1);
                        }
                    }
                }
                assert forall|k: int| #![trigger q1[k]] 0 <= k < q1.len()
                    implies du <= d1[q1[k] as int] <= du + 1 by {
                    if k < q0.len() {
                        assert(q1[k] == q0[k]);
                    }
                }
                assert forall|k: int| #![trigger q1[k]] 0 <= k < q1.len()
                    implies q1[k] < g.width * g.height && visited(d1, q1[k] as int) by {
                    if k < q0.len() {
                        assert(q1[k] == q0[k]);
                    }
                }
                assert forall|a: int, b: int| 0 <= a < b < q1.len() implies q1[a] != q1[b] by {
                    if b < q0.len() {
                        assert(q1[b] == q0[b]);
                        assert(q1[a] == q0[a]);
                    } else {
                        assert(q1[a] == q0[a]);
                    }
                }
                if in_queue(q1, u) {
                    assert(in_queue(q0, u));
                }
                assert forall|a: int, b: int| neighbor_ok(g, d0, du as int, a, b)
                    implies #[trigger] neighbor_ok(g, d1, du as int, a, b) by {
                    if g.in_grid(a, b) && !blocks_flow(g.cell(a, b)) {
                        lemma_index2_bounds(w, g.height as int, a, b);
                        if slot(w, a, b) != v {
                            assert(d1[slot(w, a, b)] == d0[slot(w, a, b)]);
                        }
                    }
                }
                assert(search_core(g, d1, q1));
            }
        },
    }
}

proof fn lemma_search_to_expand(g: &Grid, dist: Seq<u32>, q: Seq<usize>, ux: int, uy: int)
    requires
        search_inv(g, dist, q),
        q.len() > 0,
        g.in_grid(ux, uy),
        q[0] as int == slot(g.width as int, ux, uy),
    ensures
        expand_inv(g, dist, q.subrange(1, q.len() as int), ux, uy, dist[q[0] as int] as int),
{
    let w = g.width as int;
    let q1 = q.subrange(1, q.len() as int);
    let du = dist[q[0] as int] as int;
    let u = slot(w, ux, uy);
    assert forall|k: int| #![trigger q1[k]] 0 <= k < q1.len() implies {
        &&& q1[k] < g.width * g.height
        &&& visited(dist, q1[k] as int)
        &&& du <= dist[q1[k] as int] <= du + 1
    } by {
        assert(q1[k] == q[k + 1]);
        assert(dist[q[0] as int] <= dist[q[k + 1] as int]);
        assert(dist[q[k + 1] as int] <= dist[q[q.len() - 1] as int]);
    }
    assert forall|a: int, b: int| 0 <= a < b < q1.len() implies q1[a] != q1[b] by {
        assert(q1[a] == q[a + 1] && q1[b] == q[b + 1]);
    }
    assert forall|a: int, b: int| 0 <= a <= b < q1.len()
        implies dist[q1[a] as int] <= dist[q1[b] as int] by {
        assert(q1[a] == q[a + 1] && q1[b] == q[b + 1]);
    }
    if in_queue(q1, u) {
        let k = choose|k: int| 0 <= k < q1.len() && q1[k] == u;
        assert(q[k + 1] == q[0]);
    }
    assert(in_queue(q, u)) by {
        assert(q[0] == u);
    }
    assert(visited(dist, u)) by {
        assert(q[0] == q[0]);
    }
    assert forall|x: int, y: int| #![trigger visited(dist, slot(w, x, y))]
        g.in_grid(x, y) && visited(dist, slot(w, x, y)) && !in_queue(q1, slot(w, x, y))
            && slot(w, x, y) != u implies {
            &&& settled(g, dist, x, y)
            &&& dist[slot(w, x, y)] <= du
        } by {
        if in_queue(q, slot(w, x, y)) {
            let k = choose|k: int| 0 <= k < q.len() && q[k] == slot(w, x, y);
            assert(k != 0);
            assert(q1[k - 1] == q[k]);
        }
    }
}

proof fn lemma_expand_to_search(g: &Grid, dist: Seq<u32>, q: Seq<usize>, ux: int, uy: int, du: int)
    requires
        expand_inv(g, dist, q, ux, uy, du),
        settled(g, dist, ux, uy),
    ensures
        search_inv(g, dist, q),
{
    let w = g.width as int;
    if q.len() > 0 {
        assert(du <= dist[q[0] as int]);
        assert(dist[q[q.len() - 1] as int] <= du + 1);
    }
    assert forall|x: int, y: int| #![trigger visited(dist, slot(w, x, y))]
        g.in_grid(x, y) && visited(dist, slot(w, x, y)) && !in_queue(q, slot(w, x, y)) implies {
            &&& settled(g, dist, x, y)
            &&& q.len() > 0 ==> dist[slot(w, x, y)] <= dist[q[0] as int]
        } by {
        if q.len() > 0 {
            assert(du <= dist[q[0] as int]);
        }
        if slot(w, x, y) == slot(w, ux, uy) {
            if !(x == ux && y == uy) {
                lemma_slot_distinct(g, x, y, ux, uy);
            }
        }
    }
}

/// Distance of every cell from the inlet, measured along the flow path.
///
/// A breadth-first search starts from the water and spring cells of the
/// inlet row (y = 0) and spreads through every cell that is not a wall.
/// Each cell receives the length of its shortest path from a source, or
/// `u32::MAX` when no path reaches it; objects move toward higher values
/// (downstream).
pub fn build_flow_distance(grid: &Grid) -> (dist: Vec<u32>)
    requires
        grid.wf(),
        grid.width * grid.height < u32::MAX,
        grid.height > 0 || grid.width == 0,
    ensures
        is_flow_distance(grid, dist@),
{
    let width = grid.width;
    let height = grid.height;
    let ghost w = width as int;
    let n = width * height;
    let mut dist: Vec<u32> = vec![u32::MAX; n];
    let mut queue: VecDeque<usize> = VecDeque::new();
    proof {
        if width > 0 {
            assert(width <= n) by (nonlinear_arith)
                requires n == width * height, height > 0;
        }
    }

    let mut x: usize = 0;
    while x < width
        invariant
            grid.wf(),
            n == width * height,
            width == grid.width,
            height == grid.height,
            w == width,
            width <= n,
            x <= width,
            dist@.len() == n,
            forall|i: int| #![trigger dist@[i]] 0 <= i < n ==> dist@[i] == (
                if i < x && is_source(grid.cells@[i]) { 0u32 } else { u32::MAX }),
            forall|k: int| #![trigger queue@[k]] 0 <= k < queue@.len()
                ==> queue@[k] < x && dist@[queue@[k] as int] == 0,
            forall|a: int, b: int| 0 <= a < b < queue@.len() ==> queue@[a] < queue@[b],
            forall|i: int| 0 <= i < n && dist@[i] != u32::MAX ==> in_queue(queue@, i),
        decreases width - x,
    {
        if matches!(grid.cells[x], Cell::Water(_) | Cell::Spring) {
            let ghost q0 = queue@;
            dist.set(x, 0);
            queue.push_back(x);
            proof {
                assert forall|i: int| 0 <= i < n && dist@[i] != u32::MAX implies in_queue(queue@, i) by {
                    if i == x {
                        assert(queue@[queue@.len() - 1] == x);
                    } else {
                        let k = choose|k: int| 0 <= k < q0.len() && q0[k] == i;
                        assert(queue@[k] == q0[k]);
                    }
                }
            }
        }
        x = x + 1;
    }

    proof {
        let d = dist@;
        let q = queue@;
        assert forall|x: int, y: int| #![trigger visited(d, slot(w, x, y))]
            grid.in_grid(x, y) && visited(d, slot(w, x, y))
                implies reachable_within(grid, x, y, d[slot(w, x, y)] as nat) by {
            lemma_index2_bounds(w, height as int, x, y);
            if y >= 1 {
                assert(y * w >= w) by (nonlinear_arith)
                    requires y >= 1, w >= 0;
            }
            assert(y == 0);
        }
        assert forall|i: int| #![trigger visited(d, i)]
            0 <= i < n && visited(d, i) implies d[i] < visited_set(d).len() by {
            lemma_visited_set_nonempty(d, i);
        }
        assert forall|x: int| #![trigger grid.cell(x, 0)]
            0 <= x < width && height > 0 && is_source(grid.cell(x, 0)) implies d[x] == 0 by {
            assert(slot(w, x, 0) == x);
        }
        assert forall|x: int, y: int| #![trigger visited(d, slot(w, x, y))]
            grid.in_grid(x, y) && visited(d, slot(w, x, y)) && !in_queue(q, slot(w, x, y))
                implies {
                    &&& settled(grid, d, x, y)
                    &&& q.len() > 0 ==> d[slot(w, x, y)] <= d[q[0] as int]
                } by {
            lemma_index2_bounds(w, height as int, x, y);
        }
        assert forall|k: int| #![trigger q[k]] 0 <= k < q.len()
            implies q[k] < n && visited(d, q[k] as int) by {}
        assert forall|a: int, b: int| 0 <= a <= b < q.len()
            implies d[q[a] as int] <= d[q[b] as int] by {
            assert(d[q[a] as int] == 0);
            assert(d[q[b] as int] == 0);
        }
        if q.len() > 0 {
            assert(d[q[0] as int] == 0);
            assert(d[q[q.len() - 1] as int] == 0);
        }
        assert(search_core(grid, d, q));
        assert(search_inv(grid, d, q));
        lemma_visited_set_bound(d);
    }

    while queue.len() > 0
        invariant
            search_inv(grid, dist@, queue@),
            n == grid.width * grid.height,
            width == grid.width,
            height == grid.height,
            w == width,
        decreases 2 * (n - visited_set(dist@).len()) + queue@.len(),
    {
        proof {
            lemma_visited_set_bound(dist@);
        }
        let ghost q0 = queue@;
        let u = queue.pop_front().unwrap();
        assert(u == q0[0]);
        assert(u < n);
        assert(width > 0) by (nonlinear_arith)
            requires u < n, n == width * height;
        let du = dist[u];
        let ux = u % width;
        let uy = u / width;
        proof {
            vstd::arithmetic::div_mod::lemma_fundamental_div_mod(u as int, w);
            assert(u as int == uy * w + ux) by (nonlinear_arith)
                requires u as int == w * (u as int / w) + u as int % w, ux == u as int % w, uy == u as int / w;
            assert(uy < height) by (nonlinear_arith)
                requires u as int == uy * w + ux, u < n, n == w * height, 0 <= ux, 0 <= uy;
            assert(queue@ == q0.subrange(1, q0.len() as int));
            lemma_search_to_expand(grid, dist@, q0, ux as int, uy as int);
        }
        if ux > 0 {
            relax(grid, &mut dist, &mut queue, Ghost(ux as int), Ghost(uy as int), du, ux - 1, uy);
        }
        if ux + 1 < width {
            relax(grid, &mut dist, &mut queue, Ghost(ux as int), Ghost(uy as int), du, ux + 1, uy);
        }
        if uy > 0 {
            relax(grid, &mut dist, &mut queue, Ghost(ux as int), Ghost(uy as int), du, ux, uy - 1);
        }
        if uy + 1 < height {
            relax(grid, &mut dist, &mut queue, Ghost(ux as int), Ghost(uy as int), du, ux, uy + 1);
        }
        proof {
            let d = dist@;
            assert(neighbor_ok(grid, d, du as int, ux - 1, uy as int));
            assert(neighbor_ok(grid, d, du as int, ux + 1, uy as int));
            assert(neighbor_ok(grid, d, du as int, ux as int, uy - 1));
            assert(neighbor_ok(grid, d, du as int, ux as int, uy + 1));
            assert(settled(grid, d, ux as int, uy as int));
            lemma_expand_to_search(grid, d, queue@, ux as int, uy as int, du as int);
            lemma_visited_set_bound(d);
        }
    }

    proof {
        let d = dist@;
        assert(queue@ =~= Seq::<usize>::empty());
        assert forall|x: int, y: int| #![trigger d[slot(w, x, y)]] grid.in_grid(x, y) implies {
            let dd = d[slot(w, x, y)];
            &&& dd != u32::MAX ==> reachable_within(grid, x, y, dd as nat)
            &&& forall|k: nat| #[trigger] reachable_within(grid, x, y, k)
                ==> dd != u32::MAX && dd <= k
        } by {
            assert(visited(d, slot(w, x, y)) ==> reachable_within(grid, x, y, d[slot(w, x, y)] as nat));
            assert forall|k: nat| #[trigger] reachable_within(grid, x, y, k)
                implies d[slot(w, x, y)] != u32::MAX && d[slot(w, x, y)] <= k by {
                lemma_reach_visited(grid, d, x, y, k);
            }
        }
    }
    dist
}

} // verus!
