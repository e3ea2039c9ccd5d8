use vstd::prelude::*;

verus! {

/// A grid position: a pair of signed coordinates `(x, y)`. The grid is
/// conceptually infinite in every direction, so coordinates may be negative.
pub type Cell = (i32, i32);

/// The mathematical position a stored cell stands for.
pub open spec fn cell_view(c: Cell) -> (int, int) {
    (c.0 as int, c.1 as int)
}

/// The positions held by the first `n` entries of a sequence of cells.
pub open spec fn prefix_cells(s: Seq<Cell>, n: int) -> Set<(int, int)> {
    Set::new(|p: (int, int)| exists|j: int| 0 <= j < n && cell_view(s[j]) == p)
}

/// The set of positions held by a sequence of stored cells.
pub open spec fn seq_cells(s: Seq<Cell>) -> Set<(int, int)> {
    prefix_cells(s, s.len() as int)
}

/// No cell appears twice, so the vector faithfully represents a set.
pub open spec fn no_dup_cells(s: Seq<Cell>) -> bool {
    forall|i: int, j: int| 0 <= i < j < s.len() ==> s[i] != s[j]
}

/// A board: the set of live cells (the authoritative state) together with a
/// rendering hint `(max_x, max_y)`. The hint never shrinks from one
/// generation to the next and covers every newly born cell, but it does not
/// promise to bound every live cell; collaborators use it only to size a
/// display.
pub struct GameBoard {
    pub max_x: i32,
    pub max_y: i32,
    pub board: Vec<Cell>,
}

impl GameBoard {
    /// The set of live positions this board holds.
    pub open spec fn live(self) -> Set<(int, int)> {
        seq_cells(self.board@)
    }

    /// Representation invariant: the live cells are stored without duplicates.
    pub open spec fn wf(self) -> bool {
        no_dup_cells(self.board@)
    }

    /// Every live coordinate is strictly inside the `i32` range, so every
    /// neighbour of a live cell is itself representable.
    pub open spec fn coords_in_range(self) -> bool {
        forall|p: (int, int)| self.live().contains(p)
            ==> i32::MIN < p.0 < i32::MAX && i32::MIN < p.1 < i32::MAX
    }
}

/// Whether a stored cell's coordinates are strictly inside the `i32` range.
pub open spec fn cell_in_range(c: Cell) -> bool {
    i32::MIN < c.0 < i32::MAX && i32::MIN < c.1 < i32::MAX
}

/// Whether some entry of `cells` sits at position `(x, y)`.
pub(crate) fn contains_coord(cells: &Vec<Cell>, x: i64, y: i64) -> (r: bool)
    ensures
        r == seq_cells(cells@).contains((x as int, y as int)),
{
    let mut i: usize = 0;
    while i < cells.len()
        invariant
            i <= cells@.len(),
            forall|j: int| 0 <= j < i ==> cell_view(cells@[j]) != (x as int, y as int),
        decreases cells@.len() - i,
    {
        if cells[i].0 as i64 == x && cells[i].1 as i64 == y {
            proof {
                assert(cell_view(cells@[i as int]) == (x as int, y as int));
            }
            return true;
        }
        i += 1;
    }
    proof {
        if seq_cells(cells@).contains((x as int, y as int)) {
            let j = choose|j: int|
                0 <= j < cells@.len() && cell_view(cells@[j]) == (x as int, y as int);
            assert(false);
        }
    }
    false
}

/// Adding one entry to a sequence of cells adds exactly its position to the
/// set of positions held.
proof fn lemma_seq_cells_push(s: Seq<Cell>, c: Cell)
    ensures
        seq_cells(s.push(c)) == seq_cells(s).insert(cell_view(c)),
{
    let t = s.push(c);
    assert forall|p: (int, int)|
        seq_cells(t).contains(p) <==> seq_cells(s).insert(cell_view(c)).contains(p) by {
        if seq_cells(t).contains(p) {
            let j = choose|j: int| 0 <= j < t.len() && cell_view(t[j]) == p;
            if j < s.len() {
                assert(t[j] == s[j]);
                assert(seq_cells(s).contains(p));
            } else {
                assert(t[j] == c);
            }
        }
        if seq_cells(s).contains(p) {
            let j = choose|j: int| 0 <= j < s.len() && cell_view(s[j]) == p;
            assert(t[j] == s[j]);
            assert(seq_cells(t).contains(p));
        }
        if p == cell_view(c) {
            assert(t[s.len() as int] == c);
            assert(seq_cells(t).contains(p));
        }
    }
    assert(seq_cells(t) =~= seq_cells(s).insert(cell_view(c)));
}

/// Appends a cell known to be absent, keeping the vector duplicate-free.
pub(crate) fn push_new_cell(cells: &mut Vec<Cell>, c: Cell)
    requires
        no_dup_cells(old(cells)@),
        !seq_cells(old(cells)@).contains(cell_view(c)),
    ensures
        no_dup_cells(final(cells)@),
        seq_cells(final(cells)@) == seq_cells(old(cells)@).insert(cell_view(c)),
{
    proof {
        let s = cells@;
        assert forall|j: int| 0 <= j < s.len() implies s[j] != c by {
            if s[j] == c {
                assert(seq_cells(s).contains(cell_view(c)));
            }
        }
        lemma_seq_cells_push(s, c);
    }
    cells.push(c);
}

/// Extending a prefix by one entry adds exactly that entry's position.
pub(crate) proof fn lemma_prefix_cells_step(s: Seq<Cell>, n: int)
    requires
        0 <= n < s.len(),
    ensures
        prefix_cells(s, n + 1) == prefix_cells(s, n).insert(cell_view(s[n])),
{
    assert forall|p: (int, int)|
        prefix_cells(s, n + 1).contains(p)
            <==> prefix_cells(s, n).insert(cell_view(s[n])).contains(p) by {
        if prefix_cells(s, n + 1).contains(p) {
            let j = choose|j: int| 0 <= j < n + 1 && cell_view(s[j]) == p;
            if j < n {
                assert(prefix_cells(s, n).contains(p));
            }
        }
        if prefix_cells(s, n).contains(p) {
            let j = choose|j: int| 0 <= j < n && cell_view(s[j]) == p;
            assert(prefix_cells(s, n + 1).contains(p));
        }
        if p == cell_view(s[n]) {
            assert(prefix_cells(s, n + 1).contains(p));
        }
    }
    assert(prefix_cells(s, n + 1) =~= prefix_cells(s, n).insert(cell_view(s[n])));
}

impl GameBoard {
    /// Builds a board from a rendering hint and any list of cells; duplicate
    /// entries are dropped so that the board holds a set.
    pub fn new(max_x: i32, max_y: i32, cells: Vec<Cell>) -> (b: GameBoard)
        ensures
            b.wf(),
            b.live() == seq_cells(cells@),
            b.max_x == max_x,
            b.max_y == max_y,
    {
        let mut unique: Vec<Cell> = Vec::new();
        let n = cells.len();
        let mut i: usize = 0;
        while i < n
            invariant
                n == cells@.len(),
                i <= n,
                no_dup_cells(unique@),
                seq_cells(unique@) == prefix_cells(cells@, i as int),
            decreases n - i,
        {
            let c = cells[i];
            proof {
                lemma_prefix_cells_step(cells@, i as int);
            }
            if !contains_coord(&unique, c.0 as i64, c.1 as i64) {
                push_new_cell(&mut unique, c);
            } else {
                proof {
                    assert(seq_cells(unique@) =~= prefix_cells(cells@, i as int).insert(
                        cell_view(c)));
                }
            }
            i += 1;
        }
        proof {
            assert(seq_cells(unique@) =~= seq_cells(cells@));
        }
        GameBoard { max_x, max_y, board: unique }
    }

    /// Whether the given cell is live on this board.
    pub fn contains_cell(&self, c: Cell) -> (r: bool)
        ensures
            r == self.live().contains(cell_view(c)),
    {
        contains_coord(&self.board, c.0 as i64, c.1 as i64)
    }

    /// Runtime check for the generation engine's precondition: every live
    /// coordinate is strictly inside the `i32` range.
    pub fn check_coords_in_range(&self) -> (r: bool)
        ensures
            r == self.coords_in_range(),
    {
        let n = self.board.len();
        let mut i: usize = 0;
        while i < n
            invariant
                n == self.board@.len(),
                i <= n,
                forall|j: int| 0 <= j < i ==> cell_in_range(self.board@[j]),
            decreases n - i,
        {
            let c = self.board[i];
            if c.0 == i32::MIN || c.0 == i32::MAX || c.1 == i32::MIN || c.1 == i32::MAX {
                proof {
                    assert(self.live().contains(cell_view(self.board@[i as int])));
                }
                return false;
            }
            i += 1;
        }
        proof {
            assert forall|p: (int, int)| self.live().contains(p)
                implies i32::MIN < p.0 < i32::MAX && i32::MIN < p.1 < i32::MAX by {
                let j = choose|j: int|
                    0 <= j < self.board@.len() && cell_view(self.board@[j]) == p;
            }
        }
        true
    }
}

} // verus!
