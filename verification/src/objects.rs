use vstd::prelude::*;

use crate::flow::slot;
use crate::simulation::Cell;
use crate::simulation3d::cell_index;
use rand::Rng;

verus! {

/// An object's intention to move this tick.
#[derive(Clone, Copy)]
pub struct MoveIntent {
    /// Slot of the object's current cell.
    pub src: usize,
    /// Slot of the cell it wants to move into.
    pub dst: usize,
    /// The object's weight (bit pattern of its mass).
    pub weight: u32,
    /// Secondary slot to try when the primary destination is blocked.
    pub fallback_dst: Option<usize>,
}

// ---------------------------------------------------------------------------
// Counting objects
// ---------------------------------------------------------------------------

/// Number of object cells in `cells`.
pub open spec fn object_count(cells: Seq<Cell>) -> nat
    decreases cells.len(),
{
    if cells.len() == 0 {
        0
    } else {
        object_count(cells.drop_last()) + (if cells.last() is Object { 1nat } else { 0nat })
    }
}

/// Overwriting one cell changes the object count by what it removes and
/// what it writes.
pub proof fn lemma_object_count_update(cells: Seq<Cell>, i: int, c: Cell)
    requires
        0 <= i < cells.len(),
    ensures
        object_count(cells.update(i, c)) + (if cells[i] is Object { 1int } else { 0int })
            == object_count(cells) + (if c is Object { 1int } else { 0int }),
    decreases cells.len(),
{
    let u = cells.update(i, c);
    if i == cells.len() - 1 {
        assert(u.drop_last() =~= cells.drop_last());
    } else {
        assert(u.drop_last() =~= cells.drop_last().update(i, c));
        lemma_object_count_update(cells.drop_last(), i, c);
    }
}

/// Counts the object cells.
pub fn count_objects(cells: &Vec<Cell>) -> (n: usize)
    ensures
        n == object_count(cells@),
{
    let mut n: usize = 0;
    let mut i: usize = 0;
    while i < cells.len()
        invariant
            i <= cells@.len(),
            n == object_count(cells@.take(i as int)),
            n <= i,
        decreases cells@.len() - i,
    {
        assert(cells@.take(i as int + 1).drop_last() =~= cells@.take(i as int));
        if matches!(cells[i], Cell::Object(_)) {
            n = n + 1;
        }
        i = i + 1;
    }
    assert(cells@.take(cells@.len() as int) =~= cells@);
    n
}

// ---------------------------------------------------------------------------
// Choosing one winner per destination
// ---------------------------------------------------------------------------

/// Intent `i` is the first one aiming at its destination.
pub open spec fn first_for_dst(intents: Seq<MoveIntent>, i: int) -> bool {
    forall|j: int| 0 <= j < i ==> intents[j].dst != intents[i].dst
}

/// Indices, in increasing order, of the first `m` intents aiming at `dst`.
pub open spec fn contenders(intents: Seq<MoveIntent>, dst: usize, m: int) -> Seq<usize>
    decreases m,
{
    if m <= 0 {
        Seq::empty()
    } else {
        let prev = contenders(intents, dst, m - 1);
        if intents[m - 1].dst == dst { prev.push((m - 1) as usize) } else { prev }
    }
}

/// The winner for the destination first named by intent `i`: the contender
/// the random draw `draws[i]` selects.
#[verifier::opaque]
pub open spec fn winner_for(intents: Seq<MoveIntent>, draws: Seq<usize>, i: int) -> usize {
    let c = contenders(intents, intents[i].dst, intents.len() as int);
    c[(draws[i] % (c.len() as usize)) as int]
}

/// Winners of the first `m` intents' destinations, in order of first
/// appearance.
pub open spec fn winners_upto(intents: Seq<MoveIntent>, draws: Seq<usize>, m: int) -> Seq<usize>
    decreases m,
{
    if m <= 0 {
        Seq::empty()
    } else {
        let prev = winners_upto(intents, draws, m - 1);
        if first_for_dst(intents, m - 1) {
            prev.push(winner_for(intents, draws, m - 1))
        } else {
            prev
        }
    }
}

/// A valid winner list: indices of intents, exactly one per destination.
pub open spec fn one_winner_per_dst(intents: Seq<MoveIntent>, winners: Seq<usize>) -> bool {
    &&& forall|k: int| 0 <= k < winners.len() ==> #[trigger] winners[k] < intents.len()
    &&& forall|a: int, b: int| 0 <= a < b < winners.len()
        ==> intents[winners[a] as int].dst != intents[winners[b] as int].dst
    &&& forall|i: int| #![trigger intents[i]] 0 <= i < intents.len() ==> exists|k: int|
        0 <= k < winners.len() && #[trigger] intents[winners[k] as int].dst == intents[i].dst
}

proof fn lemma_contenders(intents: Seq<MoveIntent>, dst: usize, m: int)
    requires
        0 <= m <= intents.len(),
        intents.len() <= usize::MAX,
    ensures
        contenders(intents, dst, m).len() <= m,
        forall|k: int| 0 <= k < contenders(intents, dst, m).len() ==> {
            &&& #[trigger] contenders(intents, dst, m)[k] < m
            &&& intents[contenders(intents, dst, m)[k] as int].dst == dst
        },
        forall|j: int| #![trigger intents[j]] 0 <= j < m && intents[j].dst == dst ==> exists|k: int|
            0 <= k < contenders(intents, dst, m).len() && #[trigger] contenders(intents, dst, m)[k] == j,
    decreases m,
{
    if m > 0 {
        lemma_contenders(intents, dst, m - 1);
        let prev = contenders(intents, dst, m - 1);
        let cur = contenders(intents, dst, m);
        assert forall|j: int| #![trigger intents[j]] 0 <= j < m && intents[j].dst == dst implies exists|k: int|
            0 <= k < cur.len() && #[trigger] cur[k] == j by {
            if j < m - 1 {
                let k = choose|k: int| 0 <= k < prev.len() && prev[k] == j;
                assert(cur[k] == prev[k]);
            } else {
                assert(cur[cur.len() - 1] == j);
            }
        }
    }
}

proof fn lemma_winner_for(intents: Seq<MoveIntent>, draws: Seq<usize>, i: int)
    requires
        0 <= i < intents.len(),
        intents.len() <= usize::MAX,
    ensures
        winner_for(intents, draws, i) < intents.len(),
        intents[winner_for(intents, draws, i) as int].dst == intents[i].dst,
{
    reveal(winner_for);
    let n = intents.len() as int;
    let t = intents[i].dst;
    lemma_contenders(intents, t, n);
    let c = contenders(intents, t, n);
    assert(exists|k: int| 0 <= k < c.len() && #[trigger] c[k] == i);
    let pick = (draws[i] % (c.len() as usize)) as int;
    assert(0 <= pick < c.len());
    assert(c[pick] < n);
}

proof fn lemma_wu_bounds(intents: Seq<MoveIntent>, draws: Seq<usize>, m: int)
    requires
        0 <= m <= intents.len(),
        intents.len() <= usize::MAX,
    ensures
        winners_upto(intents, draws, m).len() <= m,
        forall|k: int| #![trigger winners_upto(intents, draws, m)[k]]
            0 <= k < winners_upto(intents, draws, m).len() ==> {
                &&& winners_upto(intents, draws, m)[k] < intents.len()
                &&& exists|i: int| 0 <= i < m
                    && #[trigger] intents[i].dst == intents[winners_upto(intents, draws, m)[k] as int].dst
            },
    decreases m,
{
    if m > 0 {
        lemma_wu_bounds(intents, draws, m - 1);
        let prev = winners_upto(intents, draws, m - 1);
        let cur = winners_upto(intents, draws, m);
        if first_for_dst(intents, m - 1) {
            lemma_winner_for(intents, draws, m - 1);
            assert forall|k: int| #![trigger cur[k]] 0 <= k < cur.len() implies {
                &&& cur[k] < intents.len()
                &&& exists|i: int| 0 <= i < m && #[trigger] intents[i].dst == intents[cur[k] as int].dst
            } by {
                if k < prev.len() {
                    assert(cur[k] == prev[k]);
                    let i = choose|i: int| 0 <= i < m - 1 && #[trigger] intents[i].dst == intents[prev[k] as int].dst;
                } else {
                    assert(intents[m - 1].dst == intents[cur[k] as int].dst);
                }
            }
        } else {
            assert forall|k: int| #![trigger cur[k]] 0 <= k < cur.len() implies {
                &&& cur[k] < intents.len()
                &&& exists|i: int| 0 <= i < m && #[trigger] intents[i].dst == intents[cur[k] as int].dst
            } by {
                let i = choose|i: int| 0 <= i < m - 1 && #[trigger] intents[i].dst == intents[prev[k] as int].dst;
            }
        }
    }
}

proof fn lemma_wu_distinct(intents: Seq<MoveIntent>, draws: Seq<usize>, m: int)
    requires
        0 <= m <= intents.len(),
        intents.len() <= usize::MAX,
    ensures
        forall|a: int, b: int| 0 <= a < b < winners_upto(intents, draws, m).len()
            ==> intents[winners_upto(intents, draws, m)[a] as int].dst
                != intents[winners_upto(intents, draws, m)[b] as int].dst,
    decreases m,
{
    if m > 0 {
        lemma_wu_distinct(intents, draws, m - 1);
        lemma_wu_bounds(intents, draws, m - 1);
        let prev = winners_upto(intents, draws, m - 1);
        let cur = winners_upto(intents, draws, m);
        if first_for_dst(intents, m - 1) {
            lemma_winner_for(intents, draws, m - 1);
            let t = intents[m - 1].dst;
            assert forall|a: int, b: int| 0 <= a < b < cur.len()
                implies intents[cur[a] as int].dst != intents[cur[b] as int].dst by {
                assert(cur[a] == prev[a]);
                if b == cur.len() - 1 {
                    assert(intents[cur[b] as int].dst == t);
                    let i = choose|i: int| 0 <= i < m - 1 && #[trigger] intents[i].dst == intents[prev[a] as int].dst;
                } else {
                    assert(cur[b] == prev[b]);
                }
            }
        }
    }
}

proof fn lemma_wu_covers(intents: Seq<MoveIntent>, draws: Seq<usize>, m: int)
    requires
        0 <= m <= intents.len(),
        intents.len() <= usize::MAX,
    ensures
        forall|i: int| #![trigger intents[i]] 0 <= i < m ==> exists|k: int|
            0 <= k < winners_upto(intents, draws, m).len()
                && #[trigger] intents[winners_upto(intents, draws, m)[k] as int].dst == intents[i].dst,
    decreases m,
{
    if m > 0 {
        lemma_wu_covers(intents, draws, m - 1);
        let prev = winners_upto(intents, draws, m - 1);
        let cur = winners_upto(intents, draws, m);
        assert forall|i: int| #![trigger intents[i]] 0 <= i < m implies exists|k: int|
            0 <= k < cur.len() && #[trigger] intents[cur[k] as int].dst == intents[i].dst by {
            if i < m - 1 {
                let k = choose|k: int| 0 <= k < prev.len()
                    && #[trigger] intents[prev[k] as int].dst == intents[i].dst;
                assert(cur[k] == prev[k]);
            } else if first_for_dst(intents, m - 1) {
                lemma_winner_for(intents, draws, m - 1);
                assert(intents[cur[cur.len() - 1] as int].dst == intents[i].dst);
            } else {
                let j = choose|j: int| 0 <= j < m - 1 && #[trigger] intents[j].dst == intents[m - 1].dst;
                let k = choose|k: int| 0 <= k < prev.len()
                    && #[trigger] intents[prev[k] as int].dst == intents[j].dst;
                assert(cur[k] == prev[k]);
            }
        }
    }
}

/// The chosen winners are a valid one-per-destination list.
pub proof fn lemma_winners_valid(intents: Seq<MoveIntent>, draws: Seq<usize>)
    requires
        draws.len() == intents.len(),
        intents.len() <= usize::MAX,
    ensures
        one_winner_per_dst(intents, winners_upto(intents, draws, intents.len() as int)),
{
    let n = intents.len() as int;
    lemma_wu_bounds(intents, draws, n);
    lemma_wu_distinct(intents, draws, n);
    lemma_wu_covers(intents, draws, n);
}

/// Picks one intent per destination. Destinations are taken in order of
/// first appearance; among the intents aiming at a destination first named
/// by intent `i`, the one at position `draws[i] % count` (in index order)
/// wins.
pub fn choose_winners(intents: &Vec<MoveIntent>, draws: &Vec<usize>) -> (winners: Vec<usize>)
    requires
        draws@.len() == intents@.len(),
    ensures
        winners@ == winners_upto(intents@, draws@, intents@.len() as int),
        one_winner_per_dst(intents@, winners@),
{
    let n = intents.len();
    let mut winners: Vec<usize> = Vec::new();
    let mut i: usize = 0;
    while i < n
        invariant
            n == intents@.len(),
            draws@.len() == n,
            i <= n,
            winners@ == winners_upto(intents@, draws@, i as int),
        decreases n - i,
    {
        let t = intents[i].dst;
        let mut first = true;
        let mut j: usize = 0;
        while j < i
            invariant
                n == intents@.len(),
                i < n,
                j <= i,
                t == intents@[i as int].dst,
                first == (forall|k: int| 0 <= k < j ==> intents@[k].dst != t),
            decreases i - j,
        {
            if intents[j].dst == t {
                first = false;
            }
            j = j + 1;
        }
        if first {
            let mut members: Vec<usize> = Vec::new();
            let mut k: usize = 0;
            while k < n
                invariant
                    n == intents@.len(),
                    k <= n,
                    members@ == contenders(intents@, t, k as int),
                    members@.len() <= k,
                decreases n - k,
            {
                if intents[k].dst == t {
                    members.push(k);
                }
                k = k + 1;
            }
            proof {
                lemma_contenders(intents@, t, n as int);
                assert(exists|q: int| 0 <= q < members@.len() && #[trigger] members@[q] == i);
            }
            let pick = draws[i] % members.len();
            proof {
                reveal(winner_for);
            }
            winners.push(members[pick]);
        }
        i = i + 1;
    }
    proof {
        lemma_winners_valid(intents@, draws@);
    }
    winners
}

// ---------------------------------------------------------------------------
// Applying the winning moves
// ---------------------------------------------------------------------------

/// Cells no object ever enters or displaces: walls, springs and drains,
/// and, where terrain is solid (the voxel world), rock and buildings.
pub open spec fn is_fixture(c: Cell, solid_terrain: bool) -> bool {
    ||| c is Wall
    ||| c is Spring
    ||| c is Drain
    ||| solid_terrain && (c is Rock || c is Building)
}

/// A cell an object cannot enter: a fixture, or an object that has not
/// moved away this tick.
pub open spec fn move_blocked(cells: Seq<Cell>, moved: Set<int>, p: int, solid_terrain: bool) -> bool {
    ||| is_fixture(cells[p], solid_terrain)
    ||| (cells[p] is Object && !moved.contains(p))
}

/// Where an intent's object ends up: its primary destination when that is
/// free, else its fallback when that is free, else nowhere.
pub open spec fn move_target(
    cells: Seq<Cell>,
    moved: Set<int>,
    it: MoveIntent,
    solid_terrain: bool,
) -> Option<int> {
    if !move_blocked(cells, moved, it.dst as int, solid_terrain) {
        Some(it.dst as int)
    } else {
        match it.fallback_dst {
            Some(f) => if !move_blocked(cells, moved, f as int, solid_terrain) {
                Some(f as int)
            } else {
                None
            },
            None => None,
        }
    }
}

/// What a collision leaves of the object that was hit: an object of the
/// remaining weight, or air when it is destroyed.
pub open spec fn knocked(outcome: Option<u32>) -> Cell {
    match outcome {
        Some(w) => Cell::Object(w),
        None => Cell::Air,
    }
}

/// One move: the object enters its target and whatever the target held
/// takes its place. With `destruction`, an object whose way is barred by
/// an object that has not moved crashes into it instead: its own cell
/// becomes air and the object it hit becomes `knocked(outcome)`.
pub open spec fn step_move(
    state: (Seq<Cell>, Set<int>),
    it: MoveIntent,
    outcome: Option<u32>,
    solid_terrain: bool,
    destruction: bool,
) -> (Seq<Cell>, Set<int>) {
    match move_target(state.0, state.1, it, solid_terrain) {
        Some(t) => (
            state.0.update(t, Cell::Object(it.weight)).update(it.src as int, state.0[t]),
            state.1.insert(it.src as int),
        ),
        None => if destruction && state.0[it.dst as int] is Object && !state.1.contains(it.dst as int) {
            (state.0.update(it.dst as int, knocked(outcome)).update(it.src as int, Cell::Air), state.1)
        } else {
            state
        },
    }
}

/// The winning intent whose object sits at slot `p`, among the first `m`
/// winners (the last one listed), or -1.
pub open spec fn winner_at(intents: Seq<MoveIntent>, winners: Seq<usize>, p: int, m: int) -> int
    decreases m,
{
    if m <= 0 {
        -1
    } else if intents[winners[m - 1] as int].src == p {
        winners[m - 1] as int
    } else {
        winner_at(intents, winners, p, m - 1)
    }
}

/// Cells and moved-set after applying the winning moves whose objects sit
/// at slots `p` and above, highest slot first. `outcomes[i]` is what a
/// crash of intent `i` leaves of the object it hits.
pub open spec fn moves_from(
    cells: Seq<Cell>,
    intents: Seq<MoveIntent>,
    winners: Seq<usize>,
    p: int,
    solid_terrain: bool,
    destruction: bool,
    outcomes: Seq<Option<u32>>,
) -> (Seq<Cell>, Set<int>)
    decreases cells.len() - p,
{
    if p >= cells.len() || p < 0 {
        (cells, Set::empty())
    } else {
        let prev = moves_from(cells, intents, winners, p + 1, solid_terrain, destruction, outcomes);
        let wi = winner_at(intents, winners, p, winners.len() as int);
        if wi >= 0 {
            step_move(prev, intents[wi], outcomes[wi], solid_terrain, destruction)
        } else {
            prev
        }
    }
}

/// The cells after a flat-grid tick: no solid terrain, no destruction.
pub open spec fn flat_moves(cells: Seq<Cell>, intents: Seq<MoveIntent>, winners: Seq<usize>) -> Seq<Cell> {
    moves_from(cells, intents, winners, 0, false, false, Seq::empty()).0
}

/// Intents a tick can apply: slots inside the grid, one intent per object,
/// each naming the object that sits at its source.
pub open spec fn intents_ok(cells: Seq<Cell>, intents: Seq<MoveIntent>) -> bool {
    &&& forall|i: int| #![trigger intents[i]] 0 <= i < intents.len() ==> {
        &&& intents[i].src < cells.len()
        &&& intents[i].dst < cells.len()
        &&& intents[i].fallback_dst matches Some(f) ==> f < cells.len()
        &&& cells[intents[i].src as int] == Cell::Object(intents[i].weight)
    }
    &&& forall|i: int, j: int| 0 <= i < j < intents.len() ==> intents[i].src != intents[j].src
}

/// A winner list of distinct intent indices.
pub open spec fn winners_ok(intents: Seq<MoveIntent>, winners: Seq<usize>) -> bool {
    &&& forall|k: int| 0 <= k < winners.len() ==> #[trigger] winners[k] < intents.len()
    &&& forall|a: int, b: int| 0 <= a < b < winners.len() ==> winners[a] != winners[b]
}

proof fn lemma_winner_at(intents: Seq<MoveIntent>, winners: Seq<usize>, p: int, m: int)
    requires
        winners_ok(intents, winners),
        0 <= m <= winners.len(),
    ensures
        winner_at(intents, winners, p, m) >= 0 ==> {
            &&& winner_at(intents, winners, p, m) < intents.len()
            &&& intents[winner_at(intents, winners, p, m)].src == p
        },
    decreases m,
{
    if m > 0 {
        lemma_winner_at(intents, winners, p, m - 1);
    }
}

/// What the tick keeps true while it walks down the slots.
spec fn apply_inv(
    cells0: Seq<Cell>,
    intents: Seq<MoveIntent>,
    winners: Seq<usize>,
    solid_terrain: bool,
    destruction: bool,
    outcomes: Seq<Option<u32>>,
    p: int,
    cur: Seq<Cell>,
    moved: Seq<bool>,
) -> bool {
    let st = moves_from(cells0, intents, winners, p, solid_terrain, destruction, outcomes);
    &&& cur == st.0
    &&& cur.len() == cells0.len()
    &&& moved.len() == cells0.len()
    &&& forall|q: int| 0 <= q < cells0.len() ==> (moved[q] <==> #[trigger] st.1.contains(q))
    &&& forall|q: int| #[trigger] st.1.contains(q) ==> p <= q < cells0.len()
    &&& forall|q: int| 0 <= q < cells0.len() && #[trigger] is_fixture(cells0[q], solid_terrain)
        ==> cur[q] == cells0[q]
    &&& !destruction ==> {
        &&& object_count(cur) == object_count(cells0)
        &&& cur.to_multiset() == cells0.to_multiset()
        &&& forall|q: int| #![trigger cur[q]] 0 <= q < p
            && winner_at(intents, winners, q, winners.len() as int) >= 0 ==> cur[q] == cells0[q]
    }
}

/// Applies the winning moves, highest source slot first, under the rules
/// `solid_terrain` and `destruction` set (see [`step_move`]).
fn apply_moves(
    cells: &Vec<Cell>,
    intents: &Vec<MoveIntent>,
    winners: &Vec<usize>,
    solid_terrain: bool,
    destruction: bool,
    outcomes: &Vec<Option<u32>>,
) -> (result: Vec<Cell>)
    requires
        intents_ok(cells@, intents@),
        winners_ok(intents@, winners@),
        destruction ==> outcomes@.len() == intents@.len(),
    ensures
        result@ == moves_from(cells@, intents@, winners@, 0, solid_terrain, destruction, outcomes@).0,
        result@.len() == cells@.len(),
        forall|q: int| 0 <= q < cells@.len() && #[trigger] is_fixture(cells@[q], solid_terrain)
            ==> result@[q] == cells@[q],
        !destruction ==> result@.to_multiset() == cells@.to_multiset(),
        !destruction ==> object_count(result@) == object_count(cells@),
{
    let len = cells.len();
    let n_intents = intents.len();
    let ghost c0 = cells@;
    let ghost its = intents@;
    let ghost ws = winners@;
    let ghost oc = outcomes@;
    let ghost nw = winners@.len() as int;

    let mut at: Vec<Option<usize>> = Vec::new();
    let mut q: usize = 0;
    while q < len
        invariant
            q <= len,
            len == cells@.len(),
            at@.len() == q,
            forall|r: int| 0 <= r < q ==> #[trigger] at@[r] == Option::<usize>::None,
        decreases len - q,
    {
        at.push(None);
        q = q + 1;
    }
    let mut k: usize = 0;
    while k < winners.len()
        invariant
            k <= winners@.len(),
            len == cells@.len(),
            at@.len() == len,
            intents_ok(cells@, intents@),
            winners_ok(intents@, winners@),
            forall|r: int| #![trigger at@[r]] 0 <= r < len ==> at@[r] == (
                if winner_at(intents@, winners@, r, k as int) >= 0 {
                    Some(winner_at(intents@, winners@, r, k as int) as usize)
                } else {
                    None
                }),
        decreases winners@.len() - k,
    {
        let wi = winners[k];
        let src = intents[wi].src;
        assert(intents@[wi as int].src < cells@.len());
        at.set(src, Some(wi));
        k = k + 1;
    }

    let mut cur: Vec<Cell> = Vec::new();
    let mut moved: Vec<bool> = Vec::new();
    let mut q: usize = 0;
    while q < len
        invariant
            q <= len,
            len == cells@.len(),
            cur@ == cells@.take(q as int),
            moved@.len() == q,
            forall|r: int| 0 <= r < q ==> !#[trigger] moved@[r],
        decreases len - q,
    {
        cur.push(cells[q]);
        moved.push(false);
        q = q + 1;
    }
    assert(cur@ =~= cells@);
    assert(moves_from(c0, its, ws, len as int, solid_terrain, destruction, oc) == (c0, Set::<int>::empty()));

    let mut p = len;
    while p > 0
        invariant
            p <= len,
            len == cells@.len(),
            at@.len() == len,
            c0 == cells@,
            its == intents@,
            ws == winners@,
            oc == outcomes@,
            nw == ws.len(),
            its.len() == n_intents,
            intents_ok(c0, its),
            winners_ok(its, ws),
            destruction ==> oc.len() == its.len(),
            forall|r: int| #![trigger at@[r]] 0 <= r < len ==> at@[r] == (
                if winner_at(its, ws, r, nw) >= 0 {
                    Some(winner_at(its, ws, r, nw) as usize)
                } else {
                    None
                }),
            apply_inv(c0, its, ws, solid_terrain, destruction, oc, p as int, cur@, moved@),
        decreases p,
    {
        p = p - 1;
        let ghost before = cur@;
        let ghost st0 = moves_from(c0, its, ws, p as int + 1, solid_terrain, destruction, oc);
        proof {
            lemma_winner_at(its, ws, p as int, nw);
        }
        match at[p] {
            None => {
                proof {
                    assert(moves_from(c0, its, ws, p as int, solid_terrain, destruction, oc) == st0);
                }
            },
            Some(i) => {
                let it = intents[i];
                proof {
                    let wa = winner_at(its, ws, p as int, nw);
                    assert(at@[p as int] == Some(i));
                    assert(wa >= 0);
                    assert(i as int == wa);
                    assert(its[wa].src == p);
                }
                assert(it.src == p);
                assert(c0[p as int] == Cell::Object(it.weight));
                let dst_free = !blocked_at(&cur, &moved, it.dst, solid_terrain);
                let target: Option<usize> = if dst_free {
                    Some(it.dst)
                } else {
                    match it.fallback_dst {
                        Some(f) => if !blocked_at(&cur, &moved, f, solid_terrain) { Some(f) } else { None },
                        None => None,
                    }
                };
                assert(match move_target(st0.0, st0.1, it, solid_terrain) {
                    Some(t) => target == Some(t as usize),
                    None => target is None,
                });
                match target {
                    None => {
                        if destruction && matches!(cur[it.dst], Cell::Object(_)) && !moved[it.dst] {
                            let hit = match outcomes[i] {
                                Some(w) => Cell::Object(w),
                                None => Cell::Air,
                            };
                            cur.set(it.dst, hit);
                            cur.set(p, Cell::Air);
                        }
                    },
                    Some(t) => {
                        let vacated = cur[t];
                        cur.set(t, Cell::Object(it.weight));
                        cur.set(p, vacated);
                        moved.set(p, true);
                        proof {
                            if !destruction {
                                assert(before[p as int] == Cell::Object(it.weight));
                                let mid = before.update(t as int, Cell::Object(it.weight));
                                lemma_object_count_update(before, t as int, Cell::Object(it.weight));
                                lemma_object_count_update(mid, p as int, vacated);
                                lemma_swap_multiset(before, t as int, p as int);
                            }
                        }
                    },
                }
                proof {
                    let st = moves_from(c0, its, ws, p as int, solid_terrain, destruction, oc);
                    assert(st == step_move(st0, it, oc[i as int], solid_terrain, destruction));
                    assert(!is_fixture(c0[p as int], solid_terrain));
                    assert forall|q: int| 0 <= q < c0.len() && #[trigger] is_fixture(c0[q], solid_terrain)
                        implies cur@[q] == c0[q] by {
                        assert(before[q] == c0[q]);
                    }
                    if !destruction {
                        assert forall|q: int| #![trigger cur@[q]] 0 <= q < p
                            && winner_at(its, ws, q, nw) >= 0 implies cur@[q] == c0[q] by {
                            assert(before[q] == c0[q]);
                            assert(!st0.1.contains(q));
                            lemma_winner_at(its, ws, q, nw);
                            let wq = winner_at(its, ws, q, nw);
                            assert(c0[its[wq].src as int] == Cell::Object(its[wq].weight));
                        }
                    }
                }
            },
        }
    }
    cur
}

/// Applies the winning moves of a flat-grid tick, highest source slot
/// first.
///
/// A move fails when both its destination and its fallback are blocked (a
/// wall, spring, drain, or an object that has not moved away); otherwise
/// the object enters the free cell and whatever that cell held takes the
/// object's old place. Objects are never created or destroyed, and walls,
/// springs and drains never move.
pub fn apply_winning_moves(
    cells: &Vec<Cell>,
    intents: &Vec<MoveIntent>,
    winners: &Vec<usize>,
) -> (result: Vec<Cell>)
    requires
        intents_ok(cells@, intents@),
        winners_ok(intents@, winners@),
    ensures
        result@ == flat_moves(cells@, intents@, winners@),
        result@.len() == cells@.len(),
        result@.to_multiset() == cells@.to_multiset(),
        object_count(result@) == object_count(cells@),
        forall|q: int| 0 <= q < cells@.len() && #[trigger] is_fixture(cells@[q], false)
            ==> result@[q] == cells@[q],
{
    let none: Vec<Option<u32>> = Vec::new();
    assert(none@ =~= Seq::<Option<u32>>::empty());
    apply_moves(cells, intents, winners, false, false, &none)
}

/// Applies the winning moves of a voxel-world tick, highest source slot
/// first.
///
/// Rock and buildings block moves too; a fallback is tried as on the flat
/// grid when an intent names one (the voxel world's force pass names none).
/// With `destruction`, an object whose destination holds an object that
/// has not moved crashes into it: the mover's cell becomes air and the
/// object it hits becomes `outcomes[i]` (its remaining weight, or air when
/// `None`) for the move of intent `i`. Fixtures never move; without
/// destruction, objects are neither created nor destroyed.
pub fn apply_winning_moves_3d(
    cells: &Vec<Cell>,
    intents: &Vec<MoveIntent>,
    winners: &Vec<usize>,
    destruction: bool,
    outcomes: &Vec<Option<u32>>,
) -> (result: Vec<Cell>)
    requires
        intents_ok(cells@, intents@),
        winners_ok(intents@, winners@),
        destruction ==> outcomes@.len() == intents@.len(),
    ensures
        result@ == moves_from(cells@, intents@, winners@, 0, true, destruction, outcomes@).0,
        result@.len() == cells@.len(),
        forall|q: int| 0 <= q < cells@.len() && #[trigger] is_fixture(cells@[q], true)
            ==> result@[q] == cells@[q],
        !destruction ==> result@.to_multiset() == cells@.to_multiset(),
        !destruction ==> object_count(result@) == object_count(cells@),
{
    apply_moves(cells, intents, winners, true, destruction, outcomes)
}

// ---------------------------------------------------------------------------
// Where objects can end up
// ---------------------------------------------------------------------------

/// Slot `b` is one of the four edge neighbours, on a flat `w` x `h` grid, of
/// slot `a`.
pub open spec fn flat_neighbor(w: int, h: int, a: int, b: int) -> bool {
    exists|x: int, y: int| #![trigger slot(w, x, y)]
        0 <= x < w && 0 <= y < h && a == slot(w, x, y) && {
            ||| x + 1 < w && b == slot(w, x + 1, y)
            ||| x >= 1 && b == slot(w, x - 1, y)
            ||| y + 1 < h && b == slot(w, x, y + 1)
            ||| y >= 1 && b == slot(w, x, y - 1)
        }
}

/// Slot `b` is, in a `w` x `h` x `d` voxel grid, the voxel above slot `a`
/// or one of its four side neighbours: never one below it.
pub open spec fn rising_neighbor(w: int, h: int, d: int, a: int, b: int) -> bool {
    exists|x: int, y: int, z: int| #![trigger cell_index(w, d, x, y, z)]
        0 <= x < w && 0 <= y < h && 0 <= z < d && a == cell_index(w, d, x, y, z) && {
            ||| y + 1 < h && b == cell_index(w, d, x, y + 1, z)
            ||| x + 1 < w && b == cell_index(w, d, x + 1, y, z)
            ||| x >= 1 && b == cell_index(w, d, x - 1, y, z)
            ||| z + 1 < d && b == cell_index(w, d, x, y, z + 1)
            ||| z >= 1 && b == cell_index(w, d, x, y, z - 1)
        }
}

/// Every intent aims (and falls back) at a slot `near` its source.
pub open spec fn intents_near(intents: Seq<MoveIntent>, near: spec_fn(int, int) -> bool) -> bool {
    forall|i: int| #![trigger intents[i]] 0 <= i < intents.len() ==> {
        &&& near(intents[i].src as int, intents[i].dst as int)
        &&& intents[i].fallback_dst matches Some(f) ==> near(intents[i].src as int, f as int)
    }
}

/// Every object of `after` sits where an object of `before` sat, or
/// `near` such a slot.
pub open spec fn objects_from_near(before: Seq<Cell>, after: Seq<Cell>, near: spec_fn(int, int) -> bool) -> bool {
    forall|j: int| #![trigger after[j]] 0 <= j < after.len() && after[j] is Object ==> {
        ||| before[j] is Object
        ||| exists|i: int| 0 <= i < before.len() && before[i] is Object && #[trigger] near(i, j)
    }
}

proof fn lemma_moves_local(
    cells: Seq<Cell>,
    intents: Seq<MoveIntent>,
    winners: Seq<usize>,
    p: int,
    solid_terrain: bool,
    destruction: bool,
    outcomes: Seq<Option<u32>>,
    near: spec_fn(int, int) -> bool,
)
    requires
        intents_ok(cells, intents),
        winners_ok(intents, winners),
        intents_near(intents, near),
        0 <= p <= cells.len(),
    ensures
        moves_from(cells, intents, winners, p, solid_terrain, destruction, outcomes).0.len() == cells.len(),
        objects_from_near(
            cells,
            moves_from(cells, intents, winners, p, solid_terrain, destruction, outcomes).0,
            near,
        ),
    decreases cells.len() - p,
{
    if p < cells.len() {
        lemma_moves_local(cells, intents, winners, p + 1, solid_terrain, destruction, outcomes, near);
        let prev = moves_from(cells, intents, winners, p + 1, solid_terrain, destruction, outcomes);
        let wi = winner_at(intents, winners, p, winners.len() as int);
        lemma_winner_at(intents, winners, p, winners.len() as int);
        if wi >= 0 {
            let it = intents[wi];
            let cur = moves_from(cells, intents, winners, p, solid_terrain, destruction, outcomes).0;
            assert(cells[it.src as int] == Cell::Object(it.weight));
            assert forall|j: int| #![trigger cur[j]] 0 <= j < cur.len() && cur[j] is Object implies {
                ||| cells[j] is Object
                ||| exists|i: int| 0 <= i < cells.len() && cells[i] is Object && #[trigger] near(i, j)
            } by {
                if j != it.src as int {
                    match move_target(prev.0, prev.1, it, solid_terrain) {
                        Some(t) => {
                            if j == t {
                                assert(near(it.src as int, j));
                            } else {
                                assert(cur[j] == prev.0[j]);
                            }
                        },
                        None => {
                            assert(cur[j] == prev.0[j] || j == it.dst as int);
                        },
                    }
                }
            }
        }
    }
}

/// On a flat grid, an object only ever moves to an edge neighbour: when
/// every intent aims (and falls back) at an edge neighbour of its source,
/// every object after the tick sits at a slot that held an object, or next
/// to one.
pub proof fn law_flat_tick_moves_to_neighbors(
    cells: Seq<Cell>,
    intents: Seq<MoveIntent>,
    winners: Seq<usize>,
    w: int,
    h: int,
)
    requires
        intents_ok(cells, intents),
        winners_ok(intents, winners),
        intents_near(intents, |a: int, b: int| flat_neighbor(w, h, a, b)),
    ensures
        flat_moves(cells, intents, winners).len() == cells.len(),
        objects_from_near(cells, flat_moves(cells, intents, winners), |a: int, b: int| flat_neighbor(w, h, a, b)),
{
    lemma_moves_local(cells, intents, winners, 0, false, false, Seq::empty(), |a: int, b: int| flat_neighbor(w, h, a, b));
}

/// In the voxel world objects never sink: when every intent aims (and
/// falls back) at the voxel above its source or a side neighbour, every
/// object after the tick sits at a slot that held an object, or above or
/// beside one. This holds with collision destruction too.
pub proof fn law_voxel_tick_never_sinks(
    cells: Seq<Cell>,
    intents: Seq<MoveIntent>,
    winners: Seq<usize>,
    destruction: bool,
    outcomes: Seq<Option<u32>>,
    w: int,
    h: int,
    d: int,
)
    requires
        intents_ok(cells, intents),
        winners_ok(intents, winners),
        intents_near(intents, |a: int, b: int| rising_neighbor(w, h, d, a, b)),
    ensures
        ({
            let after = moves_from(cells, intents, winners, 0, true, destruction, outcomes).0;
            &&& after.len() == cells.len()
            &&& objects_from_near(cells, after, |a: int, b: int| rising_neighbor(w, h, d, a, b))
        }),
{
    lemma_moves_local(
        cells, intents, winners, 0, true, destruction, outcomes,
        |a: int, b: int| rising_neighbor(w, h, d, a, b),
    );
}

proof fn lemma_moves_idle(
    cells: Seq<Cell>,
    intents: Seq<MoveIntent>,
    winners: Seq<usize>,
    p: int,
    solid_terrain: bool,
    destruction: bool,
    outcomes: Seq<Option<u32>>,
)
    requires
        winners.len() == 0,
        0 <= p <= cells.len(),
    ensures
        moves_from(cells, intents, winners, p, solid_terrain, destruction, outcomes)
            == (cells, Set::<int>::empty()),
    decreases cells.len() - p,
{
    if p < cells.len() {
        lemma_moves_idle(cells, intents, winners, p + 1, solid_terrain, destruction, outcomes);
    }
}

/// A tick on a grid without objects changes nothing: with no object there
/// is no intent to apply, on the flat grid and in the voxel world alike.
pub proof fn law_tick_without_objects(
    cells: Seq<Cell>,
    intents: Seq<MoveIntent>,
    winners: Seq<usize>,
    solid_terrain: bool,
    destruction: bool,
    outcomes: Seq<Option<u32>>,
)
    requires
        intents_ok(cells, intents),
        winners_ok(intents, winners),
        forall|j: int| 0 <= j < cells.len() ==> !(#[trigger] cells[j] is Object),
    ensures
        intents.len() == 0,
        moves_from(cells, intents, winners, 0, solid_terrain, destruction, outcomes).0 == cells,
{
    if intents.len() > 0 {
        assert(cells[intents[0].src as int] == Cell::Object(intents[0].weight));
    }
    if winners.len() > 0 {
        assert(winners[0] < intents.len());
    }
    lemma_moves_idle(cells, intents, winners, 0, solid_terrain, destruction, outcomes);
}

proof fn lemma_single_winner(
    cells: Seq<Cell>,
    intents: Seq<MoveIntent>,
    k: usize,
    p: int,
    solid_terrain: bool,
    destruction: bool,
    outcomes: Seq<Option<u32>>,
)
    requires
        intents_ok(cells, intents),
        0 <= k < intents.len(),
        0 <= p <= cells.len(),
    ensures
        ({
            let it = intents[k as int];
            let st = moves_from(cells, intents, seq![k], p, solid_terrain, destruction, outcomes);
            if p > it.src {
                st == (cells, Set::<int>::empty())
            } else {
                st == step_move((cells, Set::<int>::empty()), it, outcomes[k as int], solid_terrain, destruction)
            }
        }),
    decreases cells.len() - p,
{
    let ws = seq![k];
    if p < cells.len() {
        lemma_single_winner(cells, intents, k, p + 1, solid_terrain, destruction, outcomes);
        assert(ws[0] == k);
        assert(winner_at(intents, ws, p, 0) == -1);
        if p == intents[k as int].src as int {
            assert(winner_at(intents, ws, p, 1) == k as int);
        } else {
            assert(winner_at(intents, ws, p, 1) == -1);
        }
    }
}

/// Which cells stop a move, stated cell kind by cell kind. Take a tick in
/// which a single intent wins, moving an object from `src` to a different
/// slot `dst`:
/// - into air, water or sand the move always succeeds (on the flat grid
///   into rock and buildings too): the object lands at `dst` and what `dst`
///   held takes its old place;
/// - walls, springs, drains, objects, and in the voxel world rock and
///   buildings stop it: without a fallback and without destruction,
///   nothing changes.
pub proof fn law_what_blocks_a_move(
    cells: Seq<Cell>,
    intents: Seq<MoveIntent>,
    k: usize,
    solid_terrain: bool,
    destruction: bool,
    outcomes: Seq<Option<u32>>,
)
    requires
        intents_ok(cells, intents),
        0 <= k < intents.len(),
        intents[k as int].src != intents[k as int].dst,
    ensures
        ({
            let it = intents[k as int];
            let c = cells[it.dst as int];
            let result = moves_from(cells, intents, seq![k], 0, solid_terrain, destruction, outcomes).0;
            &&& (c is Air || c is Water || c is Sand || (!solid_terrain && (c is Rock || c is Building)))
                ==> result == cells.update(it.dst as int, Cell::Object(it.weight)).update(it.src as int, c)
            &&& (c is Wall || c is Spring || c is Drain || c is Object
                || (solid_terrain && (c is Rock || c is Building)))
                && it.fallback_dst is None && !destruction
                ==> result == cells
        }),
{
    lemma_single_winner(cells, intents, k, 0, solid_terrain, destruction, outcomes);
}

/// Writing a cell's value into another slot and the displaced value back
/// into the first slot only rearranges the cells.
proof fn lemma_swap_multiset(s: Seq<Cell>, t: int, p: int)
    requires
        0 <= t < s.len(),
        0 <= p < s.len(),
    ensures
        s.update(t, s[p]).update(p, s[t]).to_multiset() == s.to_multiset(),
{
    broadcast use vstd::seq_lib::to_multiset_update;
    broadcast use vstd::multiset::group_multiset_axioms;
    let s1 = s.update(t, s[p]);
    assert(s1.update(p, s[t]).to_multiset() == s1.to_multiset().insert(s[t]).remove(s1[p]));
    assert(s1.to_multiset() == s.to_multiset().insert(s[p]).remove(s[t]));
    vstd::seq_lib::to_multiset_contains(s, s[t]);
    vstd::seq_lib::to_multiset_contains(s, s[p]);
    assert(s.contains(s[t]));
    assert(s.contains(s[p]));
    assert(s1.update(p, s[t]).to_multiset() =~= s.to_multiset());
}

/// Whether an object may not enter slot `p` of `cells` this tick.
fn blocked_at(cells: &Vec<Cell>, moved: &Vec<bool>, p: usize, solid_terrain: bool) -> (b: bool)
    requires
        p < cells@.len(),
        moved@.len() == cells@.len(),
    ensures
        b == (is_fixture(cells@[p as int], solid_terrain)
            || (cells@[p as int] is Object && !moved@[p as int])),
{
    match cells[p] {
        Cell::Wall | Cell::Spring | Cell::Drain => true,
        Cell::Rock | Cell::Building { .. } => solid_terrain,
        Cell::Object(_) => !moved[p],
        _ => false,
    }
}

/// A valid one-per-destination list holds distinct intent indices.
pub proof fn lemma_one_winner_ok(intents: Seq<MoveIntent>, winners: Seq<usize>)
    requires
        one_winner_per_dst(intents, winners),
    ensures
        winners_ok(intents, winners),
{
}

/// Draws a random `usize` from the thread-local generator
/// (`rand::thread_rng().gen::<usize>()`). Nothing is promised of the value.
#[verifier::external_body]
fn random_draw() -> usize {
    rand::thread_rng().gen::<usize>()
}

/// Resolves one tick of object moves on the flat grid: one random draw per
/// intent, the winners [`choose_winners`] picks with those draws, then the
/// winners' moves applied highest source slot first. Whatever the random
/// draws turn out to be, the tick only rearranges cells: objects, water and
/// air are neither created nor destroyed, and walls, springs and drains
/// stay where they are.
pub fn resolve_moves(cells: &Vec<Cell>, intents: &Vec<MoveIntent>) -> (result: Vec<Cell>)
    requires
        intents_ok(cells@, intents@),
    ensures
        exists|draws: Seq<usize>| #![trigger winners_upto(intents@, draws, intents@.len() as int)] {
            let winners = winners_upto(intents@, draws, intents@.len() as int);
            &&& draws.len() == intents@.len()
            &&& one_winner_per_dst(intents@, winners)
            &&& result@ == flat_moves(cells@, intents@, winners)
        },
        result@.len() == cells@.len(),
        result@.to_multiset() == cells@.to_multiset(),
        object_count(result@) == object_count(cells@),
        forall|q: int| 0 <= q < cells@.len() && #[trigger] is_fixture(cells@[q], false)
            ==> result@[q] == cells@[q],
{
    let draws = random_draws(intents.len());
    let winners = choose_winners(intents, &draws);
    proof {
        lemma_one_winner_ok(intents@, winners@);
    }
    let result = apply_winning_moves(cells, intents, &winners);
    proof {
        assert(winners@ == winners_upto(intents@, draws@, intents@.len() as int));
    }
    result
}

/// Resolves one tick of object moves in the voxel world: one random draw
/// per intent, the winners [`choose_winners`] picks with those draws, then
/// [`apply_winning_moves_3d`] with the given collision rules. Whatever the
/// draws, fixtures (walls, springs, drains, rock and buildings) stay where
/// they are, and without destruction the tick only rearranges cells.
pub fn resolve_moves_3d(
    cells: &Vec<Cell>,
    intents: &Vec<MoveIntent>,
    destruction: bool,
    outcomes: &Vec<Option<u32>>,
) -> (result: Vec<Cell>)
    requires
        intents_ok(cells@, intents@),
        destruction ==> outcomes@.len() == intents@.len(),
    ensures
        exists|draws: Seq<usize>| #![trigger winners_upto(intents@, draws, intents@.len() as int)] {
            let winners = winners_upto(intents@, draws, intents@.len() as int);
            &&& draws.len() == intents@.len()
            &&& one_winner_per_dst(intents@, winners)
            &&& result@ == moves_from(cells@, intents@, winners, 0, true, destruction, outcomes@).0
        },
        result@.len() == cells@.len(),
        forall|q: int| 0 <= q < cells@.len() && #[trigger] is_fixture(cells@[q], true)
            ==> result@[q] == cells@[q],
        !destruction ==> result@.to_multiset() == cells@.to_multiset(),
        !destruction ==> object_count(result@) == object_count(cells@),
{
    let draws = random_draws(intents.len());
    let winners = choose_winners(intents, &draws);
    proof {
        lemma_one_winner_ok(intents@, winners@);
    }
    let result = apply_winning_moves_3d(cells, intents, &winners, destruction, outcomes);
    proof {
        assert(winners@ == winners_upto(intents@, draws@, intents@.len() as int));
    }
    result
}

/// `n` random draws.
fn random_draws(n: usize) -> (draws: Vec<usize>)
    ensures
        draws@.len() == n,
{
    let mut draws: Vec<usize> = Vec::new();
    let mut i: usize = 0;
    while i < n
        invariant
            i <= n,
            draws@.len() == i,
        decreases n - i,
    {
        draws.push(random_draw());
        i = i + 1;
    }
    draws
}

} // verus!
