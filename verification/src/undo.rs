use vstd::prelude::*;

use crate::simulation::{cell_eq, cells_equal, Cell};
use crate::simulation3d::{cell_index, lemma_cell_index_bounds, Grid3D};

verus! {

/// A before/after snapshot of a single cell.
#[derive(Clone, Copy)]
pub struct CellChange {
    pub x: usize,
    pub y: usize,
    pub z: usize,
    pub old: Cell,
    pub new: Cell,
}

/// A single undoable user action.
pub struct Action {
    pub changes: Vec<CellChange>,
}

/// Undo/redo history for user edits, capped at `MAX_UNDO` actions.
pub struct UndoStack {
    undo: Vec<Action>,
    redo: Vec<Action>,
    pending: Vec<CellChange>,
}

/// The most actions the undo history keeps.
pub const MAX_UNDO: usize = 100;

/// Slot of the voxel a change touches, in a grid `w` wide and `d` deep.
pub open spec fn change_index(w: int, d: int, c: CellChange) -> int {
    cell_index(w, d, c.x as int, c.y as int, c.z as int)
}

/// The cells after writing every change's `new` value in recorded order
/// (redo): the last change touching a slot decides it.
pub open spec fn replay(cells: Seq<Cell>, w: int, d: int, changes: Seq<CellChange>) -> Seq<Cell>
    decreases changes.len(),
{
    if changes.len() == 0 {
        cells
    } else {
        let last = changes.last();
        replay(cells, w, d, changes.drop_last()).update(change_index(w, d, last), last.new)
    }
}

/// The cells after writing every change's `old` value from the last
/// recorded change back to the first (undo): the first change touching a
/// slot decides it, so each slot gets the value it held before the action.
pub open spec fn restore(cells: Seq<Cell>, w: int, d: int, changes: Seq<CellChange>) -> Seq<Cell>
    decreases changes.len(),
{
    if changes.len() == 0 {
        cells
    } else {
        let last = changes.last();
        restore(cells.update(change_index(w, d, last), last.old), w, d, changes.drop_last())
    }
}

/// Change `c` names a slot of `g`'s cell vector, and computing the slot
/// does not overflow (a change outside the grid's box may still name a
/// slot: another voxel's).
pub open spec fn change_fits(g: &Grid3D, c: CellChange) -> bool {
    &&& c.y * g.width <= usize::MAX
    &&& change_index(g.width as int, g.depth as int, c) < g.cells@.len()
}

/// Every change names a slot of the grid's cell vector.
pub open spec fn changes_in_range(g: &Grid3D, changes: Seq<CellChange>) -> bool {
    forall|i: int| #![trigger changes[i]] 0 <= i < changes.len() ==> change_fits(g, changes[i])
}

/// Every change lies inside a `w` x `h` x `d` grid.
pub open spec fn changes_within(w: int, h: int, d: int, changes: Seq<CellChange>) -> bool {
    forall|i: int| #![trigger changes[i]]
        0 <= i < changes.len() ==> {
            &&& 0 <= changes[i].x < w
            &&& 0 <= changes[i].y < h
            &&& 0 <= changes[i].z < d
        }
}

proof fn lemma_within_drop_last(w: int, h: int, d: int, changes: Seq<CellChange>)
    requires
        changes_within(w, h, d, changes),
        changes.len() > 0,
    ensures
        changes_within(w, h, d, changes.drop_last()),
{
    let rest = changes.drop_last();
    assert forall|i: int| #![trigger rest[i]] 0 <= i < rest.len() implies {
        &&& 0 <= rest[i].x < w
        &&& 0 <= rest[i].y < h
        &&& 0 <= rest[i].z < d
    } by {
        assert(rest[i] == changes[i]);
    }
}

/// No two changes touch the same voxel.
pub open spec fn distinct_positions(changes: Seq<CellChange>) -> bool {
    forall|i: int, j: int| 0 <= i < j < changes.len() ==> !(
        changes[i].x == changes[j].x && changes[i].y == changes[j].y
            && changes[i].z == changes[j].z)
}

/// The last change touching slot `p`, or -1 when none does.
pub open spec fn last_touch(w: int, d: int, changes: Seq<CellChange>, p: int) -> int
    decreases changes.len(),
{
    if changes.len() == 0 {
        -1
    } else if change_index(w, d, changes.last()) == p {
        changes.len() - 1
    } else {
        last_touch(w, d, changes.drop_last(), p)
    }
}

pub proof fn lemma_last_touch_range(w: int, d: int, changes: Seq<CellChange>, p: int)
    ensures
        -1 <= last_touch(w, d, changes, p) < changes.len(),
        last_touch(w, d, changes, p) >= 0 ==> change_index(
            w, d, changes[last_touch(w, d, changes, p)]) == p,
        last_touch(w, d, changes, p) == -1 ==> forall|i: int|
            0 <= i < changes.len() ==> change_index(w, d, #[trigger] changes[i]) != p,
        forall|i: int|
            last_touch(w, d, changes, p) < i < changes.len()
                ==> change_index(w, d, #[trigger] changes[i]) != p,
    decreases changes.len(),
{
    if changes.len() > 0 {
        let rest = changes.drop_last();
        lemma_last_touch_range(w, d, rest, p);
        assert forall|i: int| 0 <= i < rest.len() implies #[trigger] changes[i] == rest[i] by {}
    }
}

/// The first change touching slot `p`, or -1 when none does.
pub open spec fn first_touch(w: int, d: int, changes: Seq<CellChange>, p: int) -> int
    decreases changes.len(),
{
    if changes.len() == 0 {
        -1
    } else if first_touch(w, d, changes.drop_last(), p) >= 0 {
        first_touch(w, d, changes.drop_last(), p)
    } else if change_index(w, d, changes.last()) == p {
        changes.len() - 1
    } else {
        -1
    }
}

pub proof fn lemma_first_touch_range(w: int, d: int, changes: Seq<CellChange>, p: int)
    ensures
        -1 <= first_touch(w, d, changes, p) < changes.len(),
        first_touch(w, d, changes, p) >= 0 ==> change_index(
            w, d, changes[first_touch(w, d, changes, p)]) == p,
        first_touch(w, d, changes, p) == -1 ==> forall|i: int|
            0 <= i < changes.len() ==> change_index(w, d, #[trigger] changes[i]) != p,
        forall|i: int|
            0 <= i < first_touch(w, d, changes, p) ==> change_index(w, d, #[trigger] changes[i]) != p,
    decreases changes.len(),
{
    if changes.len() > 0 {
        let rest = changes.drop_last();
        lemma_first_touch_range(w, d, rest, p);
        assert forall|i: int| 0 <= i < rest.len() implies #[trigger] changes[i] == rest[i] by {}
    }
}

/// A slot is touched by some change exactly when a first and a last
/// touching change exist.
pub proof fn lemma_touch_agree(w: int, d: int, changes: Seq<CellChange>, p: int)
    ensures
        (first_touch(w, d, changes, p) >= 0) == (last_touch(w, d, changes, p) >= 0),
{
    lemma_first_touch_range(w, d, changes, p);
    lemma_last_touch_range(w, d, changes, p);
    if first_touch(w, d, changes, p) >= 0 {
        let f = first_touch(w, d, changes, p);
        assert(change_index(w, d, changes[f]) == p);
    }
    if last_touch(w, d, changes, p) >= 0 {
        let l = last_touch(w, d, changes, p);
        assert(change_index(w, d, changes[l]) == p);
    }
}

/// Pointwise effect of a redo: a slot holds the new value of the last
/// change touching it, or keeps its value.
pub proof fn lemma_replay_point(
    cells: Seq<Cell>,
    w: int,
    h: int,
    d: int,
    changes: Seq<CellChange>,
    p: int,
)
    requires
        cells.len() == w * h * d,
        changes_within(w, h, d, changes),
        0 <= p < cells.len(),
    ensures
        replay(cells, w, d, changes).len() == cells.len(),
        replay(cells, w, d, changes)[p] == (
            if last_touch(w, d, changes, p) >= 0 {
                changes[last_touch(w, d, changes, p)].new
            } else {
                cells[p]
            }),
    decreases changes.len(),
{
    if changes.len() > 0 {
        let rest = changes.drop_last();
        lemma_within_drop_last(w, h, d, changes);
        lemma_replay_point(cells, w, h, d, rest, p);
        let last = changes.last();
        assert(changes[changes.len() - 1] == last);
        lemma_cell_index_bounds(w, h, d, last.x as int, last.y as int, last.z as int);
        let q = change_index(w, d, last);
        let prev = replay(cells, w, d, rest);
        assert(0 <= q < prev.len());
        lemma_last_touch_range(w, d, rest, p);
        if last_touch(w, d, changes, p) != changes.len() - 1 {
            assert(last_touch(w, d, changes, p) == last_touch(w, d, rest, p));
            if last_touch(w, d, rest, p) >= 0 {
                assert(changes[last_touch(w, d, rest, p)] == rest[last_touch(w, d, rest, p)]);
            }
        }
    }
}

/// Pointwise effect of an undo: a slot holds the old value of the first
/// change touching it, or keeps its value.
pub proof fn lemma_restore_point(
    cells: Seq<Cell>,
    w: int,
    h: int,
    d: int,
    changes: Seq<CellChange>,
    p: int,
)
    requires
        cells.len() == w * h * d,
        changes_within(w, h, d, changes),
        0 <= p < cells.len(),
    ensures
        restore(cells, w, d, changes).len() == cells.len(),
        restore(cells, w, d, changes)[p] == (
            if first_touch(w, d, changes, p) >= 0 {
                changes[first_touch(w, d, changes, p)].old
            } else {
                cells[p]
            }),
    decreases changes.len(),
{
    if changes.len() > 0 {
        let rest = changes.drop_last();
        lemma_within_drop_last(w, h, d, changes);
        let last = changes.last();
        assert(changes[changes.len() - 1] == last);
        lemma_cell_index_bounds(w, h, d, last.x as int, last.y as int, last.z as int);
        let q = change_index(w, d, last);
        let next = cells.update(q, last.old);
        lemma_restore_point(next, w, h, d, rest, p);
        if first_touch(w, d, rest, p) >= 0 {
            lemma_first_touch_range(w, d, rest, p);
            assert(changes[first_touch(w, d, rest, p)] == rest[first_touch(w, d, rest, p)]);
        }
    }
}

/// Redo after undo: replaying an action onto the grid that undoing it
/// produced gives back the edited grid, whatever the action holds (as long
/// as it stays inside the grid).
pub proof fn law_redo_after_undo(
    before: Seq<Cell>,
    w: int,
    h: int,
    d: int,
    changes: Seq<CellChange>,
)
    requires
        before.len() == w * h * d,
        changes_within(w, h, d, changes),
    ensures
        ({
            let edited = replay(before, w, d, changes);
            replay(restore(edited, w, d, changes), w, d, changes) == edited
        }),
{
    let edited = replay(before, w, d, changes);
    lemma_apply_len(before, w, h, d, changes);
    let undone = restore(edited, w, d, changes);
    let redone = replay(undone, w, d, changes);
    lemma_restore_len(edited, w, h, d, changes);
    assert(redone.len() == edited.len()) by {
        lemma_apply_len(undone, w, h, d, changes);
    }
    assert forall|p: int| 0 <= p < redone.len() implies redone[p] == edited[p] by {
        lemma_replay_point(undone, w, h, d, changes, p);
        lemma_restore_point(edited, w, h, d, changes, p);
        lemma_replay_point(before, w, h, d, changes, p);
        lemma_touch_agree(w, d, changes, p);
    }
    assert(redone =~= edited);
}

/// Writing changes that stay inside the grid keeps the cell count.
pub proof fn lemma_apply_len(
    cells: Seq<Cell>,
    w: int,
    h: int,
    d: int,
    changes: Seq<CellChange>,
)
    requires
        cells.len() == w * h * d,
        changes_within(w, h, d, changes),
    ensures
        replay(cells, w, d, changes).len() == cells.len(),
    decreases changes.len(),
{
    if changes.len() > 0 {
        let rest = changes.drop_last();
        lemma_within_drop_last(w, h, d, changes);
        lemma_apply_len(cells, w, h, d, rest);
        let last = changes.last();
        assert(changes[changes.len() - 1] == last);
        lemma_cell_index_bounds(w, h, d, last.x as int, last.y as int, last.z as int);
    }
}

/// Undoing changes that stay inside the grid keeps the cell count.
pub proof fn lemma_restore_len(
    cells: Seq<Cell>,
    w: int,
    h: int,
    d: int,
    changes: Seq<CellChange>,
)
    requires
        cells.len() == w * h * d,
        changes_within(w, h, d, changes),
    ensures
        restore(cells, w, d, changes).len() == cells.len(),
    decreases changes.len(),
{
    if changes.len() > 0 {
        let rest = changes.drop_last();
        lemma_within_drop_last(w, h, d, changes);
        let last = changes.last();
        assert(changes[changes.len() - 1] == last);
        lemma_cell_index_bounds(w, h, d, last.x as int, last.y as int, last.z as int);
        lemma_restore_len(cells.update(change_index(w, d, last), last.old), w, h, d, rest);
    }
}

/// Undo gives back the grid from before the action: when the first record
/// of each voxel an action touches carries the value the voxel held when
/// the action began, undoing it puts every touched voxel back to that
/// value, whatever happened to the grid in between (a voxel recorded again
/// later, after the simulation changed it, included), and leaves the
/// untouched voxels as they are. So if the untouched voxels still hold
/// their values from before the action, undo restores that grid exactly.
pub proof fn law_undo_restores(
    before: Seq<Cell>,
    cells: Seq<Cell>,
    w: int,
    h: int,
    d: int,
    changes: Seq<CellChange>,
)
    requires
        before.len() == w * h * d,
        cells.len() == w * h * d,
        changes_within(w, h, d, changes),
        forall|i: int| 0 <= i < changes.len()
            && first_touch(w, d, changes, change_index(w, d, changes[i])) == i
            ==> #[trigger] changes[i].old == before[change_index(w, d, changes[i])],
    ensures
        restore(cells, w, d, changes).len() == cells.len(),
        forall|p: int| 0 <= p < cells.len() ==> #[trigger] restore(cells, w, d, changes)[p] == (
            if first_touch(w, d, changes, p) >= 0 { before[p] } else { cells[p] }),
        (forall|p: int| 0 <= p < cells.len() && first_touch(w, d, changes, p) < 0
            ==> #[trigger] cells[p] == before[p]) ==> restore(cells, w, d, changes) == before,
{
    let undone = restore(cells, w, d, changes);
    lemma_restore_len(cells, w, h, d, changes);
    assert forall|p: int| 0 <= p < cells.len() implies #[trigger] restore(cells, w, d, changes)[p] == (
        if first_touch(w, d, changes, p) >= 0 { before[p] } else { cells[p] }) by {
        lemma_restore_point(cells, w, h, d, changes, p);
        lemma_first_touch_range(w, d, changes, p);
        let f = first_touch(w, d, changes, p);
        if f >= 0 {
            assert(change_index(w, d, changes[f]) == p);
            assert(changes[f].old == before[change_index(w, d, changes[f])]);
        }
    }
    if forall|p: int| 0 <= p < cells.len() && first_touch(w, d, changes, p) < 0
        ==> #[trigger] cells[p] == before[p] {
        assert(undone =~= before);
    }
}

impl UndoStack {
    /// The committed actions, oldest first.
    pub closed spec fn history(&self) -> Seq<Seq<CellChange>> {
        self.undo@.map_values(|a: Action| a.changes@)
    }

    /// The undone actions that can be redone, most recently undone last.
    pub closed spec fn redo_history(&self) -> Seq<Seq<CellChange>> {
        self.redo@.map_values(|a: Action| a.changes@)
    }

    /// The changes recorded since the last commit.
    pub closed spec fn pending(&self) -> Seq<CellChange> {
        self.pending@
    }

    /// An empty history.
    pub fn new() -> (s: Self)
        ensures
            s.history() == Seq::<Seq<CellChange>>::empty(),
            s.redo_history() == Seq::<Seq<CellChange>>::empty(),
            s.pending() == Seq::<CellChange>::empty(),
    {
        let s = UndoStack { undo: Vec::new(), redo: Vec::new(), pending: Vec::new() };
        assert(s.history() =~= Seq::<Seq<CellChange>>::empty());
        assert(s.redo_history() =~= Seq::<Seq<CellChange>>::empty());
        s
    }

    /// Records that `(x, y, z)` changes from `before` to `after`. A change that
    /// leaves the cell equal to what it was (see [`cell_eq`]) is ignored.
    pub fn record(&mut self, x: usize, y: usize, z: usize, before: Cell, after: Cell)
        ensures
            final(self).history() == old(self).history(),
            final(self).redo_history() == old(self).redo_history(),
            final(self).pending() == (if cell_eq(before, after) {
                old(self).pending()
            } else {
                old(self).pending().push((CellChange { x, y, z, old: before, new: after }))
            }),
    {
        if cells_equal(&before, &after) {
            return;
        }
        self.pending.push(CellChange { x, y, z, old: before, new: after });
    }

    /// Closes the pending changes into one undoable action. Nothing happens
    /// when no change is pending; otherwise the redo history is discarded and
    /// the oldest action is dropped once more than `MAX_UNDO` are kept.
    pub fn commit(&mut self)
        ensures
            old(self).pending().len() == 0 ==> *final(self) == *old(self),
            old(self).pending().len() > 0 ==> {
                let grown = old(self).history().push(old(self).pending());
                &&& final(self).history() == (if grown.len() > MAX_UNDO {
                    grown.drop_first()
                } else {
                    grown
                })
                &&& final(self).redo_history() == Seq::<Seq<CellChange>>::empty()
                &&& final(self).pending() == Seq::<CellChange>::empty()
            },
            old(self).history().len() <= MAX_UNDO ==> final(self).history().len() <= MAX_UNDO,
    {
        if self.pending.len() == 0 {
            return;
        }
        let ghost grown = self.history().push(self.pending());
        let mut changes: Vec<CellChange> = Vec::new();
        std::mem::swap(&mut changes, &mut self.pending);
        self.undo.push(Action { changes });
        self.redo.clear();
        assert(self.history() =~= grown);
        if self.undo.len() > MAX_UNDO {
            self.undo.remove(0);
            assert(self.history() =~= grown.drop_first());
        }
        assert(self.redo_history() =~= Seq::<Seq<CellChange>>::empty());
        assert(self.pending() =~= Seq::<CellChange>::empty());
    }

    /// Reverts the most recent action: its changes' old values are written
    /// back from the last recorded change to the first, so each voxel gets
    /// the value of its first record, and the action moves to the redo
    /// history.
    pub fn undo(&mut self, grid: &mut Grid3D)
        requires
            old(self).history().len() > 0 ==> changes_in_range(
                old(grid),
                old(self).history().last(),
            ),
        ensures
            final(grid).width == old(grid).width,
            final(grid).height == old(grid).height,
            final(grid).depth == old(grid).depth,
            final(grid).cells@.len() == old(grid).cells@.len(),
            final(self).pending() == old(self).pending(),
            old(self).history().len() == 0 ==> {
                &&& final(self).history() == old(self).history()
                &&& final(self).redo_history() == old(self).redo_history()
                &&& final(grid).cells@ == old(grid).cells@
            },
            old(self).history().len() > 0 ==> {
                let action = old(self).history().last();
                &&& final(grid).cells@ == restore(
                    old(grid).cells@,
                    old(grid).width as int,
                    old(grid).depth as int,
                    action,
                )
                &&& final(self).history() == old(self).history().drop_last()
                &&& final(self).redo_history() == old(self).redo_history().push(action)
            },
    {
        let ghost h0 = self.history();
        let ghost r0 = self.redo_history();
        match self.undo.pop() {
            None => {},
            Some(action) => {
                assert(action.changes@ == h0.last());
                Self::write_old(&action.changes, grid);
                self.redo.push(action);
                assert(self.history() =~= h0.drop_last());
                assert(self.redo_history() =~= r0.push(h0.last()));
            },
        }
    }

    /// Re-applies the most recently undone action: its changes' new values
    /// are written in recorded order, and the action moves back to the undo
    /// history.
    pub fn redo(&mut self, grid: &mut Grid3D)
        requires
            old(self).redo_history().len() > 0 ==> changes_in_range(
                old(grid),
                old(self).redo_history().last(),
            ),
        ensures
            final(grid).width == old(grid).width,
            final(grid).height == old(grid).height,
            final(grid).depth == old(grid).depth,
            final(grid).cells@.len() == old(grid).cells@.len(),
            final(self).pending() == old(self).pending(),
            old(self).redo_history().len() == 0 ==> {
                &&& final(self).history() == old(self).history()
                &&& final(self).redo_history() == old(self).redo_history()
                &&& final(grid).cells@ == old(grid).cells@
            },
            old(self).redo_history().len() > 0 ==> {
                let action = old(self).redo_history().last();
                &&& final(grid).cells@ == replay(
                    old(grid).cells@,
                    old(grid).width as int,
                    old(grid).depth as int,
                    action,
                )
                &&& final(self).redo_history() == old(self).redo_history().drop_last()
                &&& final(self).history() == old(self).history().push(action)
            },
    {
        let ghost h0 = self.history();
        let ghost r0 = self.redo_history();
        match self.redo.pop() {
            None => {},
            Some(action) => {
                assert(action.changes@ == r0.last());
                Self::write_new(&action.changes, grid);
                self.undo.push(action);
                assert(self.redo_history() =~= r0.drop_last());
                assert(self.history() =~= h0.push(r0.last()));
            },
        }
    }

    /// Writes each change's new value into the slot it names, first
    /// recorded change first.
    fn write_new(changes: &Vec<CellChange>, grid: &mut Grid3D)
        requires
            changes_in_range(old(grid), changes@),
        ensures
            final(grid).width == old(grid).width,
            final(grid).height == old(grid).height,
            final(grid).depth == old(grid).depth,
            final(grid).cells@.len() == old(grid).cells@.len(),
            final(grid).cells@ == replay(
                old(grid).cells@,
                old(grid).width as int,
                old(grid).depth as int,
                changes@,
            ),
    {
        let ghost start = grid.cells@;
        let ghost w = grid.width as int;
        let ghost d = grid.depth as int;
        let mut i: usize = 0;
        while i < changes.len()
            invariant
                0 <= i <= changes@.len(),
                grid.width == old(grid).width,
                grid.height == old(grid).height,
                grid.depth == old(grid).depth,
                grid.cells@.len() == old(grid).cells@.len(),
                w == grid.width,
                d == grid.depth,
                changes_in_range(old(grid), changes@),
                grid.cells@ == replay(start, w, d, changes@.take(i as int)),
            decreases changes@.len() - i,
        {
            let c = changes[i];
            assert(change_fits(old(grid), c));
            let k = match Self::slot_index(&c, grid) {
                Some(k) => k,
                None => { return; },
            };
            assert(k as int == change_index(w, d, c));
            grid.cells.set(k, c.new);
            proof {
                let pre = changes@.take(i as int + 1);
                assert(pre.drop_last() =~= changes@.take(i as int));
                assert(pre.last() == c);
            }
            i = i + 1;
        }
        assert(changes@.take(changes@.len() as int) =~= changes@);
    }

    /// Writes each change's old value into the slot it names, last recorded
    /// change first, so the first record of a slot has the last word.
    fn write_old(changes: &Vec<CellChange>, grid: &mut Grid3D)
        requires
            changes_in_range(old(grid), changes@),
        ensures
            final(grid).width == old(grid).width,
            final(grid).height == old(grid).height,
            final(grid).depth == old(grid).depth,
            final(grid).cells@.len() == old(grid).cells@.len(),
            final(grid).cells@ == restore(
                old(grid).cells@,
                old(grid).width as int,
                old(grid).depth as int,
                changes@,
            ),
    {
        let ghost goal = restore(grid.cells@, grid.width as int, grid.depth as int, changes@);
        let ghost w = grid.width as int;
        let ghost d = grid.depth as int;
        let mut i: usize = changes.len();
        assert(changes@.take(changes@.len() as int) =~= changes@);
        while i > 0
            invariant
                0 <= i <= changes@.len(),
                grid.width == old(grid).width,
                grid.height == old(grid).height,
                grid.depth == old(grid).depth,
                grid.cells@.len() == old(grid).cells@.len(),
                w == grid.width,
                d == grid.depth,
                changes_in_range(old(grid), changes@),
                restore(grid.cells@, w, d, changes@.take(i as int)) == goal,
            decreases i,
        {
            i = i - 1;
            let c = changes[i];
            assert(change_fits(old(grid), c));
            let k = match Self::slot_index(&c, grid) {
                Some(k) => k,
                None => { return; },
            };
            assert(k as int == change_index(w, d, c));
            proof {
                let pre = changes@.take(i as int + 1);
                assert(pre.drop_last() =~= changes@.take(i as int));
                assert(pre.last() == c);
            }
            grid.cells.set(k, c.old);
        }
        assert(changes@.take(0) =~= Seq::<CellChange>::empty());
    }

    /// The slot of `grid`'s cell vector that change `c` names, when computing
    /// it does not overflow and it lies inside the vector.
    fn slot_index(c: &CellChange, grid: &Grid3D) -> (r: Option<usize>)
        ensures
            r is Some <==> change_fits(grid, *c),
            r matches Some(k) ==> k == change_index(grid.width as int, grid.depth as int, *c),
    {
        let w = grid.width;
        let d = grid.depth;
        let len = grid.cells.len();
        let ghost full = change_index(w as int, d as int, *c);
        proof {
            assert(0 <= c.y * w) by (nonlinear_arith);
            assert(0 <= c.y * w * d) by (nonlinear_arith);
            assert(0 <= c.z * w) by (nonlinear_arith);
        }
        let a = match c.y.checked_mul(w) {
            Some(a) => a,
            None => return None,
        };
        let b = match a.checked_mul(d) {
            Some(b) => b,
            None => return None,
        };
        let e = match c.z.checked_mul(w) {
            Some(e) => e,
            None => return None,
        };
        let f = match b.checked_add(e) {
            Some(f) => f,
            None => return None,
        };
        let k = match f.checked_add(c.x) {
            Some(k) => k,
            None => return None,
        };
        if k < len { Some(k) } else { None }
    }

    /// Whether every change of the action `undo` would revert names a slot
    /// of `grid` (trivially so when there is nothing to undo).
    pub fn undo_fits(&self, grid: &Grid3D) -> (b: bool)
        ensures
            b == (self.history().len() > 0 ==> changes_in_range(grid, self.history().last())),
    {
        if self.undo.len() == 0 {
            return true;
        }
        let last = self.undo.len() - 1;
        Self::changes_fit(&self.undo[last].changes, grid)
    }

    /// Whether every change of the action `redo` would re-apply names a slot
    /// of `grid` (trivially so when there is nothing to redo).
    pub fn redo_fits(&self, grid: &Grid3D) -> (b: bool)
        ensures
            b == (self.redo_history().len() > 0 ==> changes_in_range(grid, self.redo_history().last())),
    {
        if self.redo.len() == 0 {
            return true;
        }
        let last = self.redo.len() - 1;
        Self::changes_fit(&self.redo[last].changes, grid)
    }

    fn changes_fit(changes: &Vec<CellChange>, grid: &Grid3D) -> (b: bool)
        ensures
            b == changes_in_range(grid, changes@),
    {
        let mut i: usize = 0;
        while i < changes.len()
            invariant
                i <= changes@.len(),
                forall|k: int| #![trigger changes@[k]] 0 <= k < i ==> change_fits(grid, changes@[k]),
            decreases changes@.len() - i,
        {
            let c = &changes[i];
            if Self::slot_index(c, grid).is_none() {
                return false;
            }
            i = i + 1;
        }
        true
    }

    /// Forgets the whole history and any pending changes.
    pub fn clear(&mut self)
        ensures
            final(self).history() == Seq::<Seq<CellChange>>::empty(),
            final(self).redo_history() == Seq::<Seq<CellChange>>::empty(),
            final(self).pending() == Seq::<CellChange>::empty(),
    {
        self.undo.clear();
        self.redo.clear();
        self.pending.clear();
        assert(self.history() =~= Seq::<Seq<CellChange>>::empty());
        assert(self.redo_history() =~= Seq::<Seq<CellChange>>::empty());
    }

    /// Whether changes are waiting to be committed.
    pub fn has_pending(&self) -> (b: bool)
        ensures
            b == (self.pending().len() > 0),
    {
        !self.pending.is_empty()
    }

    /// Number of committed actions that can be undone.
    pub fn undo_len(&self) -> (n: usize)
        ensures
            n == self.history().len(),
    {
        self.undo.len()
    }

    /// Number of undone actions that can be redone.
    pub fn redo_len(&self) -> (n: usize)
        ensures
            n == self.redo_history().len(),
    {
        self.redo.len()
    }
}

impl Default for UndoStack {
    fn default() -> (s: Self)
        ensures
            s.history() == Seq::<Seq<CellChange>>::empty(),
            s.redo_history() == Seq::<Seq<CellChange>>::empty(),
            s.pending() == Seq::<CellChange>::empty(),
    {
        UndoStack::new()
    }
}

/// Undo followed by redo puts both histories back as they were: when `s1`
/// is what `undo` leaves of `s0` (which had an action to undo) and `s2` is
/// what `redo` leaves of `s1`, `s2` has the histories of `s0`. The same holds
/// for redo followed by undo.
pub proof fn law_undo_redo_histories(s0: UndoStack, s1: UndoStack, s2: UndoStack)
    ensures
        s0.history().len() > 0
            && s1.history() == s0.history().drop_last()
            && s1.redo_history() == s0.redo_history().push(s0.history().last())
            && s2.redo_history() == s1.redo_history().drop_last()
            && s2.history() == s1.history().push(s1.redo_history().last())
            ==> s2.history() == s0.history() && s2.redo_history() == s0.redo_history(),
        s0.redo_history().len() > 0
            && s1.redo_history() == s0.redo_history().drop_last()
            && s1.history() == s0.history().push(s0.redo_history().last())
            && s2.history() == s1.history().drop_last()
            && s2.redo_history() == s1.redo_history().push(s1.history().last())
            ==> s2.history() == s0.history() && s2.redo_history() == s0.redo_history(),
{
    let h = s0.history();
    let r = s0.redo_history();
    if h.len() > 0 {
        assert(h.drop_last().push(h.last()) =~= h);
        assert(r.push(h.last()).drop_last() =~= r);
    }
    if r.len() > 0 {
        assert(r.drop_last().push(r.last()) =~= r);
        assert(h.push(r.last()).drop_last() =~= h);
    }
}

} // verus!
