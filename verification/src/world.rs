use vstd::prelude::*;

use crate::cell::{count_alive, spec_to_char, Cell};
use rand::Rng;
use vstd::string::StringExecFns;

verus! {

/// Signalled when a cell is placed on an already-populated coordinate;
/// carries the offending coordinates. This is the system's only recoverable
/// error.
#[derive(Debug, PartialEq, Eq, Structural)]
pub struct LocationOccupied(pub u32, pub u32);

/// Whether `(x, y)` lies on a grid of `w` columns and `h` rows.
pub open spec fn in_grid(x: int, y: int, w: int, h: int) -> bool {
    0 <= x < w && 0 <= y < h
}

/// The slot of `(x, y)` in the world's cell store: the grid is laid out row
/// by row, `y` ascending, `x` ascending within a row.
pub open spec fn cell_index(x: int, y: int, w: int) -> int {
    y * w + x
}

/// The slot of the neighbour at offset `(dx, dy)` from `(x, y)`, as a
/// sequence: empty when the offset falls off the grid.
pub open spec fn offset_index(x: int, y: int, dx: int, dy: int, w: int, h: int) -> Seq<int> {
    if in_grid(x + dx, y + dy, w, h) {
        seq![cell_index(x + dx, y + dy, w)]
    } else {
        Seq::empty()
    }
}

/// The neighbour slots of `(x, y)`: the in-bounds subset of the eight
/// surrounding offsets, in a fixed order (the row above, the two sides, the
/// row below).
pub open spec fn neighbour_indices(x: int, y: int, w: int, h: int) -> Seq<int> {
    offset_index(x, y, -1, 1, w, h) + offset_index(x, y, 0, 1, w, h) + offset_index(
        x,
        y,
        1,
        1,
        w,
        h,
    ) + offset_index(x, y, -1, 0, w, h) + offset_index(x, y, 1, 0, w, h) + offset_index(
        x,
        y,
        -1,
        -1,
        w,
        h,
    ) + offset_index(x, y, 0, -1, w, h) + offset_index(x, y, 1, -1, w, h)
}

/// No offset is the null offset, so the slot of an in-bounds `(x, y)` never
/// lies at that offset from itself.
proof fn lemma_offset_not_self(x: int, y: int, dx: int, dy: int, w: int, h: int)
    requires
        in_grid(x, y, w, h),
        dx != 0 || dy != 0,
        -1 <= dx <= 1,
        -1 <= dy <= 1,
    ensures
        !offset_index(x, y, dx, dy, w, h).contains(cell_index(x, y, w)),
{
    if in_grid(x + dx, y + dy, w, h) {
        assert(cell_index(x + dx, y + dy, w) != cell_index(x, y, w)) by (nonlinear_arith)
            requires
                0 <= x < w,
                0 <= x + dx < w,
                dx != 0 || dy != 0,
                -1 <= dx <= 1,
                -1 <= dy <= 1,
        ;
    }
}

/// Law: a cell is never its own neighbour. The neighbour slots of an
/// in-bounds coordinate do not include that coordinate's own slot.
pub proof fn lemma_neighbours_exclude_self(x: int, y: int, w: int, h: int)
    requires
        in_grid(x, y, w, h),
    ensures
        !neighbour_indices(x, y, w, h).contains(cell_index(x, y, w)),
{
    lemma_offset_not_self(x, y, -1, 1, w, h);
    lemma_offset_not_self(x, y, 0, 1, w, h);
    lemma_offset_not_self(x, y, 1, 1, w, h);
    lemma_offset_not_self(x, y, -1, 0, w, h);
    lemma_offset_not_self(x, y, 1, 0, w, h);
    lemma_offset_not_self(x, y, -1, -1, w, h);
    lemma_offset_not_self(x, y, 0, -1, w, h);
    lemma_offset_not_self(x, y, 1, -1, w, h);
}

/// `nbrs` lists exactly the slots of `target`, in order.
pub open spec fn nbrs_match(nbrs: Seq<usize>, target: Seq<int>) -> bool {
    nbrs.len() == target.len() && (forall|k: int| 0 <= k < target.len() ==> nbrs[k] == target[k])
}

/// The birth/survival rule: a dead cell with exactly three live neighbours is
/// born; a live cell with two or three live neighbours survives; every other
/// cell is dead in the next generation.
pub open spec fn life_rule(alive: bool, live_neighbours: nat) -> bool {
    if alive {
        live_neighbours == 2 || live_neighbours == 3
    } else {
        live_neighbours == 3
    }
}

/// A freshly populated cell is alive with probability 0.20: one equally
/// likely outcome in five.
pub const ALIVE_ONE_IN: u8 = 5;

/// One draw with `bound` equally likely outcomes.
///
/// Relies on `rand::Rng::random_range`: it returns a uniformly distributed
/// value in the given range, so a draw over `0..bound` lies below `bound`; it
/// panics only on an empty range, which `bound >= 1` rules out.
#[verifier::external_body]
fn random_below(bound: u8) -> (r: u8)
    requires
        bound >= 1,
    ensures
        r < bound,
{
    rand::rng().random_range(0..bound)
}

/// The first `x` characters of rendered row `y`: one symbol per cell, left
/// to right.
pub open spec fn spec_row_prefix(cells: Seq<Option<Cell>>, w: int, y: int, x: int) -> Seq<char>
    decreases x,
{
    if x <= 0 {
        Seq::empty()
    } else {
        spec_row_prefix(cells, w, y, x - 1).push(
            spec_to_char(cells[cell_index(x - 1, y, w)]->Some_0.alive),
        )
    }
}

/// The first `y` rendered rows: each one `w` cell symbols followed by a line
/// terminator, rows in ascending order.
pub open spec fn spec_render_prefix(cells: Seq<Option<Cell>>, w: int, y: int) -> Seq<char>
    decreases y,
{
    if y <= 0 {
        Seq::empty()
    } else {
        spec_render_prefix(cells, w, y - 1) + spec_row_prefix(cells, w, y - 1, w).push('\n')
    }
}

/// A rendered row prefix holds one symbol per cell.
pub proof fn lemma_spec_row_prefix_len(cells: Seq<Option<Cell>>, w: int, y: int, x: int)
    requires
        x >= 0,
    ensures
        spec_row_prefix(cells, w, y, x).len() == x,
    decreases x,
{
    if x > 0 {
        lemma_spec_row_prefix_len(cells, w, y, x - 1);
    }
}

/// A rendering holds `w + 1` characters per row: `w` symbols and the line
/// terminator.
pub proof fn lemma_spec_render_prefix_len(cells: Seq<Option<Cell>>, w: int, y: int)
    requires
        w >= 0,
        y >= 0,
    ensures
        spec_render_prefix(cells, w, y).len() == y * (w + 1),
    decreases y,
{
    if y > 0 {
        lemma_spec_render_prefix_len(cells, w, y - 1);
        lemma_spec_row_prefix_len(cells, w, y - 1, w);
        assert((y - 1) * (w + 1) + (w + 1) == y * (w + 1)) by (nonlinear_arith);
    } else {
        assert(spec_render_prefix(cells, w, y).len() == 0);
    }
}

/// The state slot `i` holds after the next generation boundary: the
/// birth/survival rule applied to the cell's aliveness and its count of live
/// neighbours, both read from the same snapshot `cells`.
pub open spec fn decided_state(cells: Seq<Option<Cell>>, i: int) -> bool {
    life_rule(cells[i]->Some_0.alive, count_alive(cells, cells[i]->Some_0.neighbours@))
}

/// Law: the decide phase of a tick is order-independent. The state decided
/// for a slot is a function of the pre-tick snapshot alone: two stores that
/// agree on which slots hold cells, on every cell's aliveness and on every
/// cell's neighbour references decide the same next state for every slot,
/// whatever their staged states hold. A traversal of the decide phase writes
/// only staged states, so no traversal order can change the outcome.
pub proof fn lemma_decide_order_independent(c1: Seq<Option<Cell>>, c2: Seq<Option<Cell>>, i: int)
    requires
        c1.len() == c2.len(),
        forall|j: int| 0 <= j < c1.len() ==> ((c1[j] is Some) == (c2[j] is Some)),
        forall|j: int|
            0 <= j < c1.len() && c1[j] is Some ==> c1[j]->Some_0.alive == c2[j]->Some_0.alive,
        forall|j: int|
            0 <= j < c1.len() && c1[j] is Some ==> c1[j]->Some_0.neighbours@
                == c2[j]->Some_0.neighbours@,
        0 <= i < c1.len(),
        c1[i] is Some,
    ensures
        decided_state(c1, i) == decided_state(c2, i),
{
    crate::cell::lemma_count_alive_depends_on_alive_only(c1, c2, c1[i]->Some_0.neighbours@);
}

/// The grid: fixed dimensions, the generation counter, and one slot per
/// coordinate in row-major order. The world owns every cell; cells refer to
/// each other only by slot index into this store.
pub struct World {
    pub tick: u32,
    pub width: u32,
    pub height: u32,
    pub cells: Vec<Option<Cell>>,
}

impl World {
    /// A cell stored at slot `i` sits at the coordinates that slot stands
    /// for, and refers to at most eight neighbours.
    pub open spec fn slot_ok(self, i: int) -> bool {
        self.cells@[i] matches Some(c) ==> {
            &&& c.x < self.width
            &&& c.y < self.height
            &&& cell_index(c.x as int, c.y as int, self.width as int) == i
            &&& c.neighbours@.len() <= 8
        }
    }

    /// Structural well-formedness: positive dimensions, one slot per
    /// coordinate, a rendering small enough to address, and every stored
    /// cell at its own slot.
    pub open spec fn well_formed(self) -> bool {
        &&& self.width >= 1
        &&& self.height >= 1
        &&& self.width * self.height + self.height <= usize::MAX
        &&& self.cells@.len() == self.width * self.height
        &&& forall|i: int| 0 <= i < self.cells@.len() ==> self.slot_ok(i)
    }

    /// Every coordinate holds a cell.
    pub open spec fn fully_populated(self) -> bool {
        forall|i: int| 0 <= i < self.cells@.len() ==> self.cells@[i] is Some
    }

    /// The cell stored at slot `i` refers to exactly the in-bounds subset of
    /// the eight offsets around its coordinate, in the fixed order.
    pub open spec fn slot_neighbours_ok(self, i: int) -> bool {
        self.cells@[i] matches Some(c) ==> nbrs_match(
            c.neighbours@,
            neighbour_indices(c.x as int, c.y as int, self.width as int, self.height as int),
        )
    }

    /// Every stored cell's neighbour references are resolved.
    pub open spec fn neighbours_populated(self) -> bool {
        forall|i: int| 0 <= i < self.cells@.len() ==> self.slot_neighbours_ok(i)
    }

    /// The row-major slot of the in-bounds coordinate `(x, y)`.
    pub fn index_of(&self, x: u32, y: u32) -> (i: usize)
        requires
            self.well_formed(),
            x < self.width,
            y < self.height,
        ensures
            i == cell_index(x as int, y as int, self.width as int),
            i < self.cells@.len(),
    {
        proof {
            assert((y as int) * (self.width as int) + (x as int) < (self.height as int) * (
            self.width as int)) by (nonlinear_arith)
                requires
                    (y as int) < (self.height as int),
                    (x as int) < (self.width as int),
                    0 <= (x as int),
                    0 <= (y as int),
            ;
        }
        (y as usize) * (self.width as usize) + (x as usize)
    }

    /// A world of the given dimensions with every slot unoccupied and the
    /// generation counter at zero: the starting point for populating a grid
    /// programmatically, cell by cell. Dimensions must be positive, and the
    /// grid (with one line terminator per row) must be addressable.
    pub fn empty(width: u32, height: u32) -> (w: World)
        requires
            1 <= width,
            1 <= height,
            width * height + height <= usize::MAX,
        ensures
            w.well_formed(),
            w.width == width,
            w.height == height,
            w.tick == 0,
            forall|i: int| 0 <= i < w.cells@.len() ==> w.cells@[i] is None,
    {
        let n: usize = (width as usize) * (height as usize);
        let mut cells: Vec<Option<Cell>> = Vec::new();
        let mut k: usize = 0;
        while k < n
            invariant
                k <= n,
                cells@.len() == k,
                forall|i: int| 0 <= i < k ==> cells@[i] is None,
            decreases n - k,
        {
            cells.push(None);
            k = k + 1;
        }
        World { tick: 0, width, height, cells }
    }

    /// A world of the given dimensions with every coordinate populated (a
    /// fresh cell per slot, alive with probability one in `ALIVE_ONE_IN`)
    /// and every cell's neighbour references resolved. Dimensions must be
    /// positive, and the grid (with one line terminator per row) must be
    /// addressable.
    pub fn new(width: u32, height: u32) -> (w: World)
        requires
            1 <= width,
            1 <= height,
            width * height + height <= usize::MAX,
        ensures
            w.well_formed(),
            w.width == width,
            w.height == height,
            w.tick == 0,
            w.fully_populated(),
            w.neighbours_populated(),
    {
        let mut world = World::empty(width, height);
        world.populate_cells();
        world.prepopulate_neighbours();
        world
    }

    /// Fill every coordinate of an unoccupied grid with a fresh cell whose
    /// initial aliveness is drawn at random. Coordinates are enumerated
    /// without duplication, so no placement is ever refused.
    fn populate_cells(&mut self)
        requires
            old(self).well_formed(),
            forall|i: int| 0 <= i < old(self).cells@.len() ==> old(self).cells@[i] is None,
        ensures
            final(self).well_formed(),
            final(self).width == old(self).width,
            final(self).height == old(self).height,
            final(self).tick == old(self).tick,
            final(self).fully_populated(),
    {
        let mut y: u32 = 0;
        while y < self.height
            invariant
                y <= self.height,
                self.well_formed(),
                self.width == old(self).width,
                self.height == old(self).height,
                self.tick == old(self).tick,
                forall|i: int|
                    0 <= i < cell_index(0, y as int, self.width as int) ==> self.cells@[i] is Some,
                forall|i: int|
                    cell_index(0, y as int, self.width as int) <= i < self.cells@.len()
                        ==> self.cells@[i] is None,
            decreases self.height - y,
        {
            let mut x: u32 = 0;
            while x < self.width
                invariant
                    y < self.height,
                    x <= self.width,
                    self.well_formed(),
                    self.width == old(self).width,
                    self.height == old(self).height,
                    self.tick == old(self).tick,
                    forall|i: int|
                        0 <= i < cell_index(x as int, y as int, self.width as int)
                            ==> self.cells@[i] is Some,
                    forall|i: int|
                        cell_index(x as int, y as int, self.width as int) <= i < self.cells@.len()
                            ==> self.cells@[i] is None,
                decreases self.width - x,
            {
                proof {
                    assert((y as int) * (self.width as int) + (x as int) < (self.height as int) * (
                    self.width as int)) by (nonlinear_arith)
                        requires
                            (y as int) < (self.height as int),
                            (x as int) < (self.width as int),
                            0 <= (x as int),
                            0 <= (y as int),
                    ;
                }
                let roll: u8 = random_below(ALIVE_ONE_IN);
                let alive: bool = roll == 0;
                let _ = self.add_cell(x, y, alive);
                x = x + 1;
            }
            proof {
                assert((y as int + 1) * (self.width as int) == (y as int) * (self.width as int) + (
                self.width as int)) by (nonlinear_arith);
            }
            y = y + 1;
        }
        proof {
            assert(cell_index(0, self.height as int, self.width as int) == self.cells@.len())
                by (nonlinear_arith)
                requires
                    self.cells@.len() == self.width * self.height,
            ;
        }
    }

    /// The cell at `(x, y)`: present only when the coordinate is on the grid
    /// and its slot is populated.
    pub fn cell_at(&self, x: u32, y: u32) -> (r: Option<&Cell>)
        requires
            self.well_formed(),
        ensures
            in_grid(x as int, y as int, self.width as int, self.height as int) ==> (match self.cells@[cell_index(
                x as int,
                y as int,
                self.width as int,
            )] {
                Some(c) => r matches Some(rc) && *rc == c,
                None => r is None,
            }),
            !in_grid(x as int, y as int, self.width as int, self.height as int) ==> r is None,
    {
        if x < self.width && y < self.height {
            let i = self.index_of(x, y);
            match &self.cells[i] {
                Some(c) => Some(c),
                None => None,
            }
        } else {
            None
        }
    }

    /// The neighbour slots of the in-bounds coordinate `(x, y)`: the
    /// in-bounds subset of the eight surrounding offsets, in the fixed order.
    pub fn neighbours_around(&self, x: u32, y: u32) -> (v: Vec<usize>)
        requires
            self.well_formed(),
            x < self.width,
            y < self.height,
        ensures
            nbrs_match(
                v@,
                neighbour_indices(x as int, y as int, self.width as int, self.height as int),
            ),
            v@.len() <= 8,
    {
        let ghost xi: int = x as int;
        let ghost yi: int = y as int;
        let ghost w: int = self.width as int;
        let ghost h: int = self.height as int;
        let mut v: Vec<usize> = Vec::new();

        // the row above
        if x >= 1 && y + 1 < self.height {
            let i = self.index_of(x - 1, y + 1);
            v.push(i);
        }
        let ghost t1: Seq<int> = offset_index(xi, yi, -1, 1, w, h);
        proof {
            assert(nbrs_match(v@, t1));
        }
        if y + 1 < self.height {
            let i = self.index_of(x, y + 1);
            v.push(i);
        }
        let ghost t2: Seq<int> = t1 + offset_index(xi, yi, 0, 1, w, h);
        proof {
            assert(nbrs_match(v@, t2));
        }
        if x + 1 < self.width && y + 1 < self.height {
            let i = self.index_of(x + 1, y + 1);
            v.push(i);
        }
        let ghost t3: Seq<int> = t2 + offset_index(xi, yi, 1, 1, w, h);
        proof {
            assert(nbrs_match(v@, t3));
        }
        // the two sides
        if x >= 1 {
            let i = self.index_of(x - 1, y);
            v.push(i);
        }
        let ghost t4: Seq<int> = t3 + offset_index(xi, yi, -1, 0, w, h);
        proof {
            assert(nbrs_match(v@, t4));
        }
        if x + 1 < self.width {
            let i = self.index_of(x + 1, y);
            v.push(i);
        }
        let ghost t5: Seq<int> = t4 + offset_index(xi, yi, 1, 0, w, h);
        proof {
            assert(nbrs_match(v@, t5));
        }
        // the row below
        if x >= 1 && y >= 1 {
            let i = self.index_of(x - 1, y - 1);
            v.push(i);
        }
        let ghost t6: Seq<int> = t5 + offset_index(xi, yi, -1, -1, w, h);
        proof {
            assert(nbrs_match(v@, t6));
        }
        if y >= 1 {
            let i = self.index_of(x, y - 1);
            v.push(i);
        }
        let ghost t7: Seq<int> = t6 + offset_index(xi, yi, 0, -1, w, h);
        proof {
            assert(nbrs_match(v@, t7));
        }
        if x + 1 < self.width && y >= 1 {
            let i = self.index_of(x + 1, y - 1);
            v.push(i);
        }
        let ghost t8: Seq<int> = t7 + offset_index(xi, yi, 1, -1, w, h);
        proof {
            assert(nbrs_match(v@, t8));
            assert(t8 =~= neighbour_indices(xi, yi, w, h));
        }
        v
    }

    /// Advance exactly one generation, in two strict phases. The decide
    /// phase stages every cell's next state, computed from the pre-tick
    /// snapshot alone (no aliveness changes while deciding, so every
    /// neighbour read observes the same generation, whatever the traversal
    /// order). The commit phase then applies all staged states, and the
    /// generation counter grows by one.
    pub fn tick(&mut self)
        requires
            old(self).well_formed(),
            old(self).tick < u32::MAX,
        ensures
            final(self).well_formed(),
            final(self).width == old(self).width,
            final(self).height == old(self).height,
            final(self).tick == old(self).tick + 1,
            final(self).cells@.len() == old(self).cells@.len(),
            forall|i: int|
                0 <= i < old(self).cells@.len() ==> ((final(self).cells@[i] is Some) == (old(
                    self,
                ).cells@[i] is Some)),
            forall|i: int|
                0 <= i < old(self).cells@.len() && old(self).cells@[i] is Some ==> {
                    let oc = old(self).cells@[i]->Some_0;
                    let nc = final(self).cells@[i]->Some_0;
                    &&& nc.x == oc.x
                    &&& nc.y == oc.y
                    &&& nc.neighbours@ == oc.neighbours@
                    &&& nc.next_state == decided_state(old(self).cells@, i)
                    &&& nc.alive == nc.next_state
                },
    {
        let ghost snap = self.cells@;
        let n = self.cells.len();
        // Decide phase: stage only; every aliveness read sees the snapshot.
        let mut i: usize = 0;
        while i < n
            invariant
                i <= n,
                n == self.cells@.len(),
                snap == old(self).cells@,
                snap.len() == n,
                self.well_formed(),
                self.width == old(self).width,
                self.height == old(self).height,
                self.tick == old(self).tick,
                forall|j: int| 0 <= j < n ==> ((self.cells@[j] is Some) == (snap[j] is Some)),
                forall|j: int|
                    0 <= j < n && snap[j] is Some ==> {
                        let oc = snap[j]->Some_0;
                        let nc = self.cells@[j]->Some_0;
                        nc.x == oc.x && nc.y == oc.y && nc.alive == oc.alive && nc.neighbours@
                            == oc.neighbours@
                    },
                forall|j: int|
                    0 <= j < i && snap[j] is Some ==> self.cells@[j]->Some_0.next_state
                        == decided_state(snap, j),
            decreases n - i,
        {
            proof {
                assert(self.slot_ok(i as int));
            }
            let decision: Option<bool> = match &self.cells[i] {
                Some(c) => {
                    let ln = c.alive_neighbours(&self.cells);
                    proof {
                        crate::cell::lemma_count_alive_depends_on_alive_only(
                            self.cells@,
                            snap,
                            c.neighbours@,
                        );
                    }
                    if !c.alive && ln == 3 {
                        Some(true)
                    } else if ln < 2 || ln > 3 {
                        Some(false)
                    } else {
                        Some(c.alive)
                    }
                },
                None => None,
            };
            proof {
                assert(snap[i as int] is Some ==> decision == Some(
                    decided_state(snap, i as int),
                ));
            }
            match decision {
                Some(b) => {
                    let ghost prev_self = *self;
                    match &mut self.cells[i] {
                        Some(c) => {
                            c.next_state = b;
                        },
                        None => {},
                    }
                    proof {
                        assert forall|j: int| 0 <= j < self.cells@.len() implies self.slot_ok(
                            j,
                        ) by {
                            assert(prev_self.slot_ok(j));
                            if j != i as int {
                                assert(self.cells@[j] == prev_self.cells@[j]);
                            }
                        }
                    }
                },
                None => {},
            }
            i = i + 1;
        }
        // Commit phase: apply every staged state at once.
        let mut i: usize = 0;
        while i < n
            invariant
                i <= n,
                n == self.cells@.len(),
                snap == old(self).cells@,
                snap.len() == n,
                self.well_formed(),
                self.width == old(self).width,
                self.height == old(self).height,
                self.tick == old(self).tick,
                forall|j: int| 0 <= j < n ==> ((self.cells@[j] is Some) == (snap[j] is Some)),
                forall|j: int|
                    0 <= j < n && snap[j] is Some ==> {
                        let oc = snap[j]->Some_0;
                        let nc = self.cells@[j]->Some_0;
                        nc.x == oc.x && nc.y == oc.y && nc.neighbours@ == oc.neighbours@
                    },
                forall|j: int|
                    0 <= j < n && snap[j] is Some ==> self.cells@[j]->Some_0.next_state
                        == decided_state(snap, j),
                forall|j: int|
                    0 <= j < i && snap[j] is Some ==> self.cells@[j]->Some_0.alive
                        == self.cells@[j]->Some_0.next_state,
            decreases n - i,
        {
            let ghost prev_self = *self;
            match &mut self.cells[i] {
                Some(c) => {
                    c.alive = c.next_state;
                },
                None => {},
            }
            proof {
                assert forall|j: int| 0 <= j < self.cells@.len() implies self.slot_ok(j) by {
                    assert(prev_self.slot_ok(j));
                    if j != i as int {
                        assert(self.cells@[j] == prev_self.cells@[j]);
                    }
                }
            }
            i = i + 1;
        }
        let ghost committed = *self;
        self.tick = self.tick + 1;
        proof {
            assert forall|i: int| 0 <= i < self.cells@.len() implies self.slot_ok(i) by {
                assert(committed.slot_ok(i));
            }
        }
    }

    /// Resolve and cache every cell's neighbour references. Run once, after
    /// the grid is populated; the topology is fixed from then on. Nothing but
    /// the neighbour lists changes.
    pub fn prepopulate_neighbours(&mut self)
        requires
            old(self).well_formed(),
        ensures
            final(self).well_formed(),
            final(self).width == old(self).width,
            final(self).height == old(self).height,
            final(self).tick == old(self).tick,
            final(self).cells@.len() == old(self).cells@.len(),
            forall|i: int|
                0 <= i < old(self).cells@.len() ==> ((final(self).cells@[i] is Some) == (old(
                    self,
                ).cells@[i] is Some)),
            forall|i: int|
                0 <= i < old(self).cells@.len() && old(self).cells@[i] is Some ==> {
                    let oc = old(self).cells@[i]->Some_0;
                    let nc = final(self).cells@[i]->Some_0;
                    nc.x == oc.x && nc.y == oc.y && nc.alive == oc.alive && nc.next_state
                        == oc.next_state
                },
            final(self).neighbours_populated(),
    {
        let n = self.cells.len();
        let mut i: usize = 0;
        while i < n
            invariant
                i <= n,
                n == self.cells@.len(),
                self.well_formed(),
                self.width == old(self).width,
                self.height == old(self).height,
                self.tick == old(self).tick,
                self.cells@.len() == old(self).cells@.len(),
                forall|j: int|
                    0 <= j < old(self).cells@.len() ==> ((self.cells@[j] is Some) == (old(
                        self,
                    ).cells@[j] is Some)),
                forall|j: int|
                    0 <= j < old(self).cells@.len() && old(self).cells@[j] is Some ==> {
                        let oc = old(self).cells@[j]->Some_0;
                        let nc = self.cells@[j]->Some_0;
                        nc.x == oc.x && nc.y == oc.y && nc.alive == oc.alive && nc.next_state
                            == oc.next_state
                    },
                forall|j: int| 0 <= j < i ==> self.slot_neighbours_ok(j),
            decreases n - i,
        {
            proof {
                assert(self.slot_ok(i as int));
            }
            let present: bool;
            let mut cx: u32 = 0;
            let mut cy: u32 = 0;
            match &self.cells[i] {
                Some(c) => {
                    cx = c.x;
                    cy = c.y;
                    present = true;
                },
                None => {
                    present = false;
                },
            }
            if present {
                let nbrs = self.neighbours_around(cx, cy);
                let ghost prev_self = *self;
                match &mut self.cells[i] {
                    Some(c) => {
                        c.neighbours = nbrs;
                    },
                    None => {},
                }
                proof {
                    assert forall|j: int| 0 <= j < self.cells@.len() implies self.slot_ok(j) by {
                        if j != i as int {
                            assert(self.cells@[j] == prev_self.cells@[j]);
                            assert(prev_self.slot_ok(j));
                        }
                    }
                    assert(self.slot_neighbours_ok(i as int));
                    assert forall|j: int| 0 <= j < i as int + 1 implies self.slot_neighbours_ok(
                        j,
                    ) by {
                        if j < i as int {
                            assert(self.cells@[j] == prev_self.cells@[j]);
                            assert(prev_self.slot_neighbours_ok(j));
                        }
                    }
                }
            } else {
                proof {
                    assert(self.slot_neighbours_ok(i as int));
                }
            }
            i = i + 1;
        }
    }

    /// Draw the grid: `height` rows of `width` cell symbols each, rows in
    /// ascending `y`, cells in ascending `x`, one line terminator per row
    /// and nothing after the final one. Every coordinate must hold a cell: a
    /// missing cell would be an internal consistency fault, so it is ruled
    /// out here rather than rendered wrongly.
    pub fn render(&self) -> (r: String)
        requires
            self.well_formed(),
            self.fully_populated(),
        ensures
            r@ == spec_render_prefix(self.cells@, self.width as int, self.height as int),
            r@.len() == self.width * self.height + self.height,
    {
        let mut r = String::new();
        let mut y: u32 = 0;
        while y < self.height
            invariant
                y <= self.height,
                self.well_formed(),
                self.fully_populated(),
                r@ == spec_render_prefix(self.cells@, self.width as int, y as int),
            decreases self.height - y,
        {
            let mut x: u32 = 0;
            while x < self.width
                invariant
                    y < self.height,
                    x <= self.width,
                    self.well_formed(),
                    self.fully_populated(),
                    r@ == spec_render_prefix(self.cells@, self.width as int, y as int)
                        + spec_row_prefix(
                        self.cells@,
                        self.width as int,
                        y as int,
                        x as int,
                    ),
                decreases self.width - x,
            {
                let i = self.index_of(x, y);
                let ch = match &self.cells[i] {
                    Some(c) => c.to_char(),
                    None => ' ',
                };
                let ghost prev = r@;
                proof {
                    reveal_strlit("o");
                    reveal_strlit(" ");
                }
                if ch == 'o' {
                    r.append("o");
                } else {
                    r.append(" ");
                }
                proof {
                    assert(r@ =~= prev.push(ch));
                    assert(r@ =~= spec_render_prefix(self.cells@, self.width as int, y as int)
                        + spec_row_prefix(
                        self.cells@,
                        self.width as int,
                        y as int,
                        x as int + 1,
                    ));
                }
                x = x + 1;
            }
            let ghost prev = r@;
            proof {
                reveal_strlit("\n");
            }
            r.append("\n");
            proof {
                assert(r@ =~= prev.push('\n'));
                assert(r@ =~= spec_render_prefix(self.cells@, self.width as int, y as int + 1));
            }
            y = y + 1;
        }
        proof {
            lemma_spec_render_prefix_len(self.cells@, self.width as int, self.height as int);
            assert((self.height as int) * (self.width as int + 1) == (self.width as int) * (
            self.height as int) + (self.height as int)) by (nonlinear_arith);
        }
        r
    }

    /// Place a cell at the in-bounds coordinate `(x, y)` only if that slot is
    /// unoccupied. An occupied slot is reported as `LocationOccupied`, and
    /// nothing, in particular not the cell already there, is changed.
    pub fn add_cell(&mut self, x: u32, y: u32, alive: bool) -> (r: Result<(), LocationOccupied>)
        requires
            old(self).well_formed(),
            x < old(self).width,
            y < old(self).height,
        ensures
            final(self).well_formed(),
            final(self).width == old(self).width,
            final(self).height == old(self).height,
            final(self).tick == old(self).tick,
            final(self).cells@.len() == old(self).cells@.len(),
            ({
                let i = cell_index(x as int, y as int, old(self).width as int);
                if old(self).cells@[i] is Some {
                    &&& r == Err::<(), LocationOccupied>(LocationOccupied(x, y))
                    &&& *final(self) == *old(self)
                } else {
                    &&& r == Ok::<(), LocationOccupied>(())
                    &&& (final(self).cells@[i] matches Some(c)
                        && c.x == x
                        && c.y == y
                        && c.alive == alive
                        && c.next_state == false
                        && c.neighbours@.len() == 0)
                    &&& forall|j: int|
                        0 <= j < old(self).cells@.len() && j != i ==> final(self).cells@[j] == old(
                            self,
                        ).cells@[j]
                }
            }),
    {
        let i = self.index_of(x, y);
        if self.cells[i].is_some() {
            return Err(LocationOccupied(x, y));
        }
        self.cells[i] = Some(Cell::new(x, y, alive));
        proof {
            assert forall|j: int| 0 <= j < self.cells@.len() implies self.slot_ok(j) by {
                if j != i {
                    assert(old(self).slot_ok(j));
                    assert(self.cells@[j] == old(self).cells@[j]);
                }
            }
        }
        Ok(())
    }
}

} // verus!
