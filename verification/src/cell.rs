use vstd::prelude::*;

verus! {

/// A single grid unit: its coordinates, its current and staged aliveness, and
/// the slots of its at most eight neighbouring cells in the world's cell
/// store. Neighbour links are stable indices rather than references, resolved
/// through the owning store at read time.
pub struct Cell {
    pub x: u32,
    pub y: u32,
    pub alive: bool,
    pub next_state: bool,
    pub neighbours: Vec<usize>,
}

/// The character a cell displays: `'o'` when alive, a blank when dead.
pub open spec fn spec_to_char(alive: bool) -> char {
    if alive {
        'o'
    } else {
        ' '
    }
}

/// Whether position `j` of `cells` holds a live cell. An index out of range,
/// or one whose slot is unoccupied, counts as dead: a neighbour reference
/// that no longer resolves is tolerated, never counted.
pub open spec fn slot_alive(cells: Seq<Option<Cell>>, j: int) -> bool {
    0 <= j < cells.len() && cells[j] is Some && cells[j]->Some_0.alive
}

/// How many of the referenced slots hold a live cell, counted left to right.
pub open spec fn count_alive(cells: Seq<Option<Cell>>, nbrs: Seq<usize>) -> nat
    decreases nbrs.len(),
{
    if nbrs.len() == 0 {
        0
    } else {
        count_alive(cells, nbrs.drop_last()) + if slot_alive(cells, nbrs.last() as int) {
            1nat
        } else {
            0nat
        }
    }
}

/// Counting one more reference adds that reference's contribution.
proof fn lemma_count_alive_take_step(cells: Seq<Option<Cell>>, nbrs: Seq<usize>, k: int)
    requires
        0 <= k < nbrs.len(),
    ensures
        count_alive(cells, nbrs.take(k + 1)) == count_alive(cells, nbrs.take(k)) + if slot_alive(
            cells,
            nbrs[k] as int,
        ) {
            1nat
        } else {
            0nat
        },
{
    assert(nbrs.take(k + 1).drop_last() =~= nbrs.take(k));
    assert(nbrs.take(k + 1).last() == nbrs[k]);
}

impl Cell {
    /// A fresh cell at `(x, y)`: its staged state starts out cleared and is
    /// meaningless until the next decide phase, and its neighbour references
    /// are resolved later, once every cell of the grid exists.
    pub fn new(x: u32, y: u32, alive: bool) -> (c: Cell)
        ensures
            c.x == x,
            c.y == y,
            c.alive == alive,
            c.next_state == false,
            c.neighbours@.len() == 0,
    {
        Cell { x, y, alive, next_state: false, neighbours: Vec::new() }
    }

    /// One visual symbol for alive, a blank for dead.
    pub fn to_char(&self) -> (c: char)
        ensures
            c == spec_to_char(self.alive),
    {
        if self.alive {
            'o'
        } else {
            ' '
        }
    }

    /// How many of this cell's neighbour references resolve to a live cell in
    /// `cells`. A reference that does not resolve (out of range, or an
    /// unoccupied slot) is skipped, never counted.
    pub fn alive_neighbours(&self, cells: &Vec<Option<Cell>>) -> (n: u32)
        requires
            self.neighbours@.len() <= 8,
        ensures
            n == count_alive(cells@, self.neighbours@),
            n <= self.neighbours@.len(),
    {
        let mut n: u32 = 0;
        let mut k: usize = 0;
        while k < self.neighbours.len()
            invariant
                k <= self.neighbours@.len() <= 8,
                n == count_alive(cells@, self.neighbours@.take(k as int)),
                n <= k,
            decreases self.neighbours@.len() - k,
        {
            proof {
                lemma_count_alive_take_step(cells@, self.neighbours@, k as int);
            }
            let j = self.neighbours[k];
            if j < cells.len() {
                match &cells[j] {
                    Some(nb) => {
                        if nb.alive {
                            n = n + 1;
                        }
                    },
                    None => {},
                }
            }
            k = k + 1;
        }
        proof {
            assert(self.neighbours@.take(self.neighbours@.len() as int) =~= self.neighbours@);
        }
        n
    }
}

/// Law: counting live neighbours reads only which slots are present and which
/// of those are alive. Two cell stores that agree slot by slot on presence
/// and aliveness yield the same count, whatever else (such as staged next
/// states) differs between them.
pub proof fn lemma_count_alive_depends_on_alive_only(
    c1: Seq<Option<Cell>>,
    c2: Seq<Option<Cell>>,
    nbrs: Seq<usize>,
)
    requires
        c1.len() == c2.len(),
        forall|j: int| 0 <= j < c1.len() ==> ((c1[j] is Some) == (c2[j] is Some)),
        forall|j: int|
            0 <= j < c1.len() && c1[j] is Some ==> c1[j]->Some_0.alive == c2[j]->Some_0.alive,
    ensures
        count_alive(c1, nbrs) == count_alive(c2, nbrs),
    decreases nbrs.len(),
{
    if nbrs.len() > 0 {
        lemma_count_alive_depends_on_alive_only(c1, c2, nbrs.drop_last());
        assert(slot_alive(c1, nbrs.last() as int) == slot_alive(c2, nbrs.last() as int));
    }
}

/// Removing one reference from the list removes exactly its contribution.
proof fn lemma_count_alive_remove(cells: Seq<Option<Cell>>, nbrs: Seq<usize>, i: int)
    requires
        0 <= i < nbrs.len(),
    ensures
        count_alive(cells, nbrs) == count_alive(cells, nbrs.remove(i)) + if slot_alive(
            cells,
            nbrs[i] as int,
        ) {
            1nat
        } else {
            0nat
        },
    decreases nbrs.len(),
{
    if i == nbrs.len() - 1 {
        assert(nbrs.remove(i) =~= nbrs.drop_last());
    } else {
        assert(nbrs.remove(i).drop_last() =~= nbrs.drop_last().remove(i));
        assert(nbrs.remove(i).last() == nbrs.last());
        lemma_count_alive_remove(cells, nbrs.drop_last(), i);
    }
}

/// Law: the live-neighbour count is independent of the order in which the
/// neighbour references are visited. Any two reference lists that hold the
/// same references, as a multiset, yield the same count over the same cells.
pub proof fn lemma_count_alive_order_independent(
    cells: Seq<Option<Cell>>,
    n1: Seq<usize>,
    n2: Seq<usize>,
)
    requires
        n1.to_multiset() == n2.to_multiset(),
    ensures
        count_alive(cells, n1) == count_alive(cells, n2),
    decreases n1.len(),
{
    broadcast use vstd::seq_lib::group_to_multiset_ensures;

    if n1.len() == 0 {
        assert(n2.to_multiset().len() == 0);
        assert(n2.len() == 0);
    } else {
        let last = n1.last();
        assert(n1.contains(last));
        assert(n2.to_multiset().count(last) > 0);
        assert(n2.contains(last));
        let j = choose|j: int| 0 <= j < n2.len() && n2[j] == last;
        let n1r = n1.drop_last();
        let n2r = n2.remove(j);
        assert(n1.remove(n1.len() - 1) =~= n1r);
        assert(n1r.to_multiset() =~= n2r.to_multiset());
        lemma_count_alive_order_independent(cells, n1r, n2r);
        lemma_count_alive_remove(cells, n2, j);
    }
}

} // verus!
