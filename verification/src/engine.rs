use vstd::prelude::*;

use crate::board::{
    cell_in_range, cell_view, contains_coord, lemma_prefix_cells_step, no_dup_cells, prefix_cells,
    push_new_cell, seq_cells, Cell, GameBoard,
};

verus! {

/// 1 if position `(x, y)` is live in `s`, else 0.
pub open spec fn live_at(s: Set<(int, int)>, x: int, y: int) -> int {
    if s.contains((x, y)) {
        1
    } else {
        0
    }
}

/// How many of the eight neighbours of `p` (the Moore neighbourhood: the 3x3
/// block around `p` without `p` itself) are live in `s`.
pub open spec fn live_neighbor_count(s: Set<(int, int)>, p: (int, int)) -> int {
    live_at(s, p.0 - 1, p.1 - 1) + live_at(s, p.0, p.1 - 1) + live_at(s, p.0 + 1, p.1 - 1)
        + live_at(s, p.0 - 1, p.1) + live_at(s, p.0 + 1, p.1) + live_at(s, p.0 - 1, p.1 + 1)
        + live_at(s, p.0, p.1 + 1) + live_at(s, p.0 + 1, p.1 + 1)
}

/// A live cell survives exactly when it has two or three live neighbours.
pub open spec fn survives(s: Set<(int, int)>, p: (int, int)) -> bool {
    s.contains(p) && (live_neighbor_count(s, p) == 2 || live_neighbor_count(s, p) == 3)
}

/// A dead cell is born exactly when it has three live neighbours.
pub open spec fn born(s: Set<(int, int)>, p: (int, int)) -> bool {
    !s.contains(p) && live_neighbor_count(s, p) == 3
}

/// One generation of the Game of Life: the survivors together with the births.
pub open spec fn step(s: Set<(int, int)>) -> Set<(int, int)> {
    Set::new(|p: (int, int)| survives(s, p) || born(s, p))
}

/// Two distinct positions whose coordinates differ by at most one on each axis.
pub open spec fn adjacent(p: (int, int), q: (int, int)) -> bool {
    p != q && -1 <= p.0 - q.0 <= 1 && -1 <= p.1 - q.1 <= 1
}

/// Whether `p` is adjacent to the position of one of the first `n` entries.
pub open spec fn adjacent_to_prefix(cells: Seq<Cell>, n: int, p: (int, int)) -> bool {
    exists|j: int| 0 <= j < n && adjacent(p, cell_view(cells[j]))
}

/// The neighbours of `p` are exactly the eight positions around it.
pub(crate) proof fn lemma_adjacent_enum(p: (int, int), q: (int, int))
    requires
        adjacent(p, q),
    ensures
        p == (q.0 - 1, q.1 - 1) || p == (q.0, q.1 - 1) || p == (q.0 + 1, q.1 - 1)
            || p == (q.0 - 1, q.1) || p == (q.0 + 1, q.1) || p == (q.0 - 1, q.1 + 1)
            || p == (q.0, q.1 + 1) || p == (q.0 + 1, q.1 + 1),
{
}

/// A position with a live neighbour is adjacent to some live cell; in
/// particular every birth happens next to a cell of the previous generation.
pub(crate) proof fn lemma_live_neighbor_is_adjacent(s: Set<(int, int)>, p: (int, int))
    requires
        live_neighbor_count(s, p) > 0,
    ensures
        exists|q: (int, int)| s.contains(q) && adjacent(p, q),
{
    if s.contains((p.0 - 1, p.1 - 1)) {
        assert(s.contains((p.0 - 1, p.1 - 1)) && adjacent(p, (p.0 - 1, p.1 - 1)));
    } else if s.contains((p.0, p.1 - 1)) {
        assert(s.contains((p.0, p.1 - 1)) && adjacent(p, (p.0, p.1 - 1)));
    } else if s.contains((p.0 + 1, p.1 - 1)) {
        assert(s.contains((p.0 + 1, p.1 - 1)) && adjacent(p, (p.0 + 1, p.1 - 1)));
    } else if s.contains((p.0 - 1, p.1)) {
        assert(s.contains((p.0 - 1, p.1)) && adjacent(p, (p.0 - 1, p.1)));
    } else if s.contains((p.0 + 1, p.1)) {
        assert(s.contains((p.0 + 1, p.1)) && adjacent(p, (p.0 + 1, p.1)));
    } else if s.contains((p.0 - 1, p.1 + 1)) {
        assert(s.contains((p.0 - 1, p.1 + 1)) && adjacent(p, (p.0 - 1, p.1 + 1)));
    } else if s.contains((p.0, p.1 + 1)) {
        assert(s.contains((p.0, p.1 + 1)) && adjacent(p, (p.0, p.1 + 1)));
    } else {
        assert(s.contains((p.0 + 1, p.1 + 1)) && adjacent(p, (p.0 + 1, p.1 + 1)));
    }
}

/// Counts the live entries of `cells` among the eight neighbours of `(x, y)`.
fn count_live_neighbors(cells: &Vec<Cell>, x: i64, y: i64) -> (n: u32)
    requires
        i64::MIN < x < i64::MAX,
        i64::MIN < y < i64::MAX,
    ensures
        n as int == live_neighbor_count(seq_cells(cells@), (x as int, y as int)),
{
    let mut n: u32 = 0;
    if contains_coord(cells, x - 1, y - 1) {
        n += 1;
    }
    if contains_coord(cells, x, y - 1) {
        n += 1;
    }
    if contains_coord(cells, x + 1, y - 1) {
        n += 1;
    }
    if contains_coord(cells, x - 1, y) {
        n += 1;
    }
    if contains_coord(cells, x + 1, y) {
        n += 1;
    }
    if contains_coord(cells, x - 1, y + 1) {
        n += 1;
    }
    if contains_coord(cells, x, y + 1) {
        n += 1;
    }
    if contains_coord(cells, x + 1, y + 1) {
        n += 1;
    }
    n
}

/// Examines one neighbour position of a live cell: if a birth happens there,
/// records it (once) and widens the rendering hint to cover it.
fn consider_birth(
    prev_board: &GameBoard,
    out: &mut Vec<Cell>,
    max_x: &mut i32,
    max_y: &mut i32,
    x: i64,
    y: i64,
)
    requires
        no_dup_cells(old(out)@),
        i32::MIN <= x <= i32::MAX,
        i32::MIN <= y <= i32::MAX,
    ensures
        no_dup_cells(final(out)@),
        born(prev_board.live(), (x as int, y as int)) ==> seq_cells(final(out)@) == seq_cells(
            old(out)@,
        ).insert((x as int, y as int)),
        !born(prev_board.live(), (x as int, y as int)) ==> final(out)@ == old(out)@,
        *final(max_x) as int == (if born(prev_board.live(), (x as int, y as int)) && x as int
            > *old(max_x) as int {
            x as int
        } else {
            *old(max_x) as int
        }),
        *final(max_y) as int == (if born(prev_board.live(), (x as int, y as int)) && y as int
            > *old(max_y) as int {
            y as int
        } else {
            *old(max_y) as int
        }),
{
    let ghost s = prev_board.live();
    let ghost p = (x as int, y as int);
    if !contains_coord(&prev_board.board, x, y) {
        let n = count_live_neighbors(&prev_board.board, x, y);
        if n == 3 {
            assert(born(s, p));
            let xi: i32 = x as i32;
            let yi: i32 = y as i32;
            assert(xi as int == x as int && yi as int == y as int);
            if !contains_coord(out, x, y) {
                push_new_cell(out, (xi, yi));
            } else {
                proof {
                    assert(seq_cells(out@) =~= seq_cells(out@).insert(p));
                }
            }
            if xi > *max_x {
                *max_x = xi;
            }
            if yi > *max_y {
                *max_y = yi;
            }
        }
    }
}

/// Examines the whole neighbourhood of one live cell `c`: afterwards `out`
/// additionally holds every birth adjacent to `c`, and the rendering hint has
/// grown exactly enough to cover those births.
#[verifier::rlimit(100)]
fn process_cell_births(
    prev_board: &GameBoard,
    out: &mut Vec<Cell>,
    max_x: &mut i32,
    max_y: &mut i32,
    c: Cell,
)
    requires
        no_dup_cells(old(out)@),
        cell_in_range(c),
    ensures
        no_dup_cells(final(out)@),
        forall|p: (int, int)|
            (#[trigger] seq_cells(final(out)@).contains(p)) <==> (seq_cells(old(out)@).contains(p)
                || (born(prev_board.live(), p) && adjacent(p, cell_view(c)))),
        *final(max_x) as int >= *old(max_x) as int,
        *final(max_y) as int >= *old(max_y) as int,
        forall|p: (int, int)|
            (#[trigger] born(prev_board.live(), p)) && adjacent(p, cell_view(c))
                ==> p.0 <= *final(max_x) as int && p.1 <= *final(max_y) as int,
        *final(max_x) as int > *old(max_x) as int ==> exists|p: (int, int)|
            (#[trigger] born(prev_board.live(), p)) && adjacent(p, cell_view(c))
                && p.0 == *final(max_x) as int,
        *final(max_y) as int > *old(max_y) as int ==> exists|p: (int, int)|
            (#[trigger] born(prev_board.live(), p)) && adjacent(p, cell_view(c))
                && p.1 == *final(max_y) as int,
{
    let ghost s = prev_board.live();
    let ghost q = cell_view(c);
    let cx = c.0 as i64;
    let cy = c.1 as i64;
    consider_birth(prev_board, out, max_x, max_y, cx - 1, cy - 1);
    consider_birth(prev_board, out, max_x, max_y, cx, cy - 1);
    consider_birth(prev_board, out, max_x, max_y, cx + 1, cy - 1);
    consider_birth(prev_board, out, max_x, max_y, cx - 1, cy);
    consider_birth(prev_board, out, max_x, max_y, cx + 1, cy);
    consider_birth(prev_board, out, max_x, max_y, cx - 1, cy + 1);
    consider_birth(prev_board, out, max_x, max_y, cx, cy + 1);
    consider_birth(prev_board, out, max_x, max_y, cx + 1, cy + 1);
    proof {
        let p1 = (q.0 - 1, q.1 - 1);
        let p2 = (q.0, q.1 - 1);
        let p3 = (q.0 + 1, q.1 - 1);
        let p4 = (q.0 - 1, q.1);
        let p5 = (q.0 + 1, q.1);
        let p6 = (q.0 - 1, q.1 + 1);
        let p7 = (q.0, q.1 + 1);
        let p8 = (q.0 + 1, q.1 + 1);
        assert(adjacent(p1, q));
        assert(adjacent(p2, q));
        assert(adjacent(p3, q));
        assert(adjacent(p4, q));
        assert(adjacent(p5, q));
        assert(adjacent(p6, q));
        assert(adjacent(p7, q));
        assert(adjacent(p8, q));
        assert forall|p: (int, int)|
            (#[trigger] seq_cells(out@).contains(p)) <==> (seq_cells(old(out)@).contains(p) || (
            born(s, p) && adjacent(p, q))) by {
            if adjacent(p, q) {
                lemma_adjacent_enum(p, q);
            }
        }
        assert forall|p: (int, int)|
            (#[trigger] born(s, p)) && adjacent(p, q) implies p.0 <= *max_x as int && p.1 <= *max_y
            as int by {
            lemma_adjacent_enum(p, q);
        }
        if *max_x as int > *old(max_x) as int {
            assert((born(s, p1) && *max_x as int == p1.0) || (born(s, p2) && *max_x as int == p2.0)
                || (born(s, p3) && *max_x as int == p3.0) || (born(s, p4) && *max_x as int == p4.0)
                || (born(s, p5) && *max_x as int == p5.0) || (born(s, p6) && *max_x as int == p6.0)
                || (born(s, p7) && *max_x as int == p7.0) || (born(s, p8) && *max_x as int
                == p8.0));
            assert(exists|p: (int, int)|
                (#[trigger] born(s, p)) && adjacent(p, q) && p.0 == *max_x as int);
        }
        if *max_y as int > *old(max_y) as int {
            assert((born(s, p1) && *max_y as int == p1.1) || (born(s, p2) && *max_y as int == p2.1)
                || (born(s, p3) && *max_y as int == p3.1) || (born(s, p4) && *max_y as int == p4.1)
                || (born(s, p5) && *max_y as int == p5.1) || (born(s, p6) && *max_y as int == p6.1)
                || (born(s, p7) && *max_y as int == p7.1) || (born(s, p8) && *max_y as int
                == p8.1));
            assert(exists|p: (int, int)|
                (#[trigger] born(s, p)) && adjacent(p, q) && p.1 == *max_y as int);
        }
    }
}

/// Extending the examined prefix by one cell adds exactly the positions
/// adjacent to that cell.
proof fn lemma_adjacent_prefix_step(cells: Seq<Cell>, n: int, p: (int, int))
    requires
        0 <= n < cells.len(),
    ensures
        adjacent_to_prefix(cells, n + 1, p) <==> (adjacent_to_prefix(cells, n, p) || adjacent(
            p,
            cell_view(cells[n]),
        )),
{
    if adjacent_to_prefix(cells, n + 1, p) {
        let j = choose|j: int| 0 <= j < n + 1 && adjacent(p, cell_view(cells[j]));
        if j < n {
            assert(adjacent_to_prefix(cells, n, p));
        }
    }
    if adjacent_to_prefix(cells, n, p) {
        let j = choose|j: int| 0 <= j < n && adjacent(p, cell_view(cells[j]));
        assert(adjacent_to_prefix(cells, n + 1, p));
    }
    if adjacent(p, cell_view(cells[n])) {
        assert(adjacent_to_prefix(cells, n + 1, p));
    }
}

/// Computes the next generation. Every live cell with exactly two or three
/// live neighbours survives, every dead cell with exactly three live
/// neighbours is born, and everything else is dead afterwards. The rendering
/// hint never shrinks and grows exactly enough to cover the births. The input
/// board is only read; the result is a fresh, independent board.
#[verifier::rlimit(100)]
pub fn get_next_generation(prev_board: &GameBoard) -> (next: GameBoard)
    requires
        prev_board.wf(),
        prev_board.coords_in_range(),
    ensures
        next.wf(),
        next.live() == step(prev_board.live()),
        next.max_x as int >= prev_board.max_x as int,
        next.max_y as int >= prev_board.max_y as int,
        forall|p: (int, int)| #[trigger]
            born(prev_board.live(), p) ==> p.0 <= next.max_x as int && p.1 <= next.max_y as int,
        next.max_x as int > prev_board.max_x as int ==> exists|p: (int, int)|
            #[trigger] born(prev_board.live(), p) && p.0 == next.max_x as int,
        next.max_y as int > prev_board.max_y as int ==> exists|p: (int, int)|
            #[trigger] born(prev_board.live(), p) && p.1 == next.max_y as int,
{
    let ghost s = prev_board.live();
    let ghost cells = prev_board.board@;
    let mut new_max_x: i32 = prev_board.max_x;
    let mut new_max_y: i32 = prev_board.max_y;
    let mut new_live_cells: Vec<Cell> = Vec::new();

    let n = prev_board.board.len();

    // First pass: keep every live cell with exactly two or three live
    // neighbours.
    let mut i: usize = 0;
    while i < n
        invariant
            prev_board.wf(),
            s == prev_board.live(),
            cells == prev_board.board@,
            n == cells.len(),
            i <= n,
            no_dup_cells(new_live_cells@),
            forall|p: (int, int)|
                (#[trigger] seq_cells(new_live_cells@).contains(p)) <==> (survives(s, p)
                    && prefix_cells(cells, i as int).contains(p)),
        decreases n - i,
    {
        let c = prev_board.board[i];
        let ghost q = cell_view(c);
        proof {
            assert(cell_view(cells[i as int]) == q);
            assert(s.contains(q));
            lemma_prefix_cells_step(cells, i as int);
        }
        let live_n = count_live_neighbors(&prev_board.board, c.0 as i64, c.1 as i64);
        if live_n == 2 || live_n == 3 {
            proof {
                assert(survives(s, q));
                if seq_cells(new_live_cells@).contains(q) {
                    let j = choose|j: int| 0 <= j < i && cell_view(cells[j]) == q;
                    assert(cells[j] == cells[i as int]);
                    assert(false);
                }
            }
            push_new_cell(&mut new_live_cells, c);
        }
        proof {
            assert forall|p: (int, int)|
                (#[trigger] seq_cells(new_live_cells@).contains(p)) <==> (survives(s, p)
                    && prefix_cells(cells, i as int + 1).contains(p)) by {}
        }
        i += 1;
    }

    // Second pass: examine every dead neighbour of a live cell; the ones with
    // exactly three live neighbours are born, and the hint grows over them.
    let mut k: usize = 0;
    while k < n
        invariant
            prev_board.wf(),
            prev_board.coords_in_range(),
            s == prev_board.live(),
            cells == prev_board.board@,
            n == cells.len(),
            k <= n,
            no_dup_cells(new_live_cells@),
            forall|p: (int, int)|
                (#[trigger] seq_cells(new_live_cells@).contains(p)) <==> (survives(s, p) || (born(
                    s,
                    p,
                ) && adjacent_to_prefix(cells, k as int, p))),
            new_max_x as int >= prev_board.max_x as int,
            new_max_y as int >= prev_board.max_y as int,
            forall|p: (int, int)|
                (#[trigger] born(s, p)) && adjacent_to_prefix(cells, k as int, p) ==> p.0
                    <= new_max_x as int && p.1 <= new_max_y as int,
            new_max_x as int > prev_board.max_x as int ==> exists|p: (int, int)|
                (#[trigger] born(s, p)) && adjacent_to_prefix(cells, k as int, p) && p.0
                    == new_max_x as int,
            new_max_y as int > prev_board.max_y as int ==> exists|p: (int, int)|
                (#[trigger] born(s, p)) && adjacent_to_prefix(cells, k as int, p) && p.1
                    == new_max_y as int,
        decreases n - k,
    {
        let c = prev_board.board[k];
        let ghost q = cell_view(c);
        proof {
            assert(cell_view(cells[k as int]) == q);
            assert(s.contains(q));
            assert(cell_in_range(c));
        }
        let ghost mx0 = new_max_x;
        let ghost my0 = new_max_y;
        process_cell_births(prev_board, &mut new_live_cells, &mut new_max_x, &mut new_max_y, c);
        proof {
            assert forall|p: (int, int)|
                (#[trigger] seq_cells(new_live_cells@).contains(p)) <==> (survives(s, p) || (born(
                    s,
                    p,
                ) && adjacent_to_prefix(cells, k as int + 1, p))) by {
                lemma_adjacent_prefix_step(cells, k as int, p);
            }
            assert forall|p: (int, int)|
                (#[trigger] born(s, p)) && adjacent_to_prefix(cells, k as int + 1, p) implies p.0
                <= new_max_x as int && p.1 <= new_max_y as int by {
                lemma_adjacent_prefix_step(cells, k as int, p);
            }
            if new_max_x as int > prev_board.max_x as int {
                if new_max_x == mx0 {
                    let p = choose|p: (int, int)|
                        (#[trigger] born(s, p)) && adjacent_to_prefix(cells, k as int, p) && p.0
                            == mx0 as int;
                    lemma_adjacent_prefix_step(cells, k as int, p);
                    assert(born(s, p) && adjacent_to_prefix(cells, k as int + 1, p) && p.0
                        == new_max_x as int);
                } else {
                    let p = choose|p: (int, int)|
                        (#[trigger] born(s, p)) && adjacent(p, q) && p.0 == new_max_x as int;
                    lemma_adjacent_prefix_step(cells, k as int, p);
                    assert(born(s, p) && adjacent_to_prefix(cells, k as int + 1, p) && p.0
                        == new_max_x as int);
                }
                assert(exists|p: (int, int)|
                    (#[trigger] born(s, p)) && adjacent_to_prefix(cells, k as int + 1, p) && p.0
                        == new_max_x as int);
            }
            if new_max_y as int > prev_board.max_y as int {
                if new_max_y == my0 {
                    let p = choose|p: (int, int)|
                        (#[trigger] born(s, p)) && adjacent_to_prefix(cells, k as int, p) && p.1
                            == my0 as int;
                    lemma_adjacent_prefix_step(cells, k as int, p);
                    assert(born(s, p) && adjacent_to_prefix(cells, k as int + 1, p) && p.1
                        == new_max_y as int);
                } else {
                    let p = choose|p: (int, int)|
                        (#[trigger] born(s, p)) && adjacent(p, q) && p.1 == new_max_y as int;
                    lemma_adjacent_prefix_step(cells, k as int, p);
                    assert(born(s, p) && adjacent_to_prefix(cells, k as int + 1, p) && p.1
                        == new_max_y as int);
                }
                assert(exists|p: (int, int)|
                    (#[trigger] born(s, p)) && adjacent_to_prefix(cells, k as int + 1, p) && p.1
                        == new_max_y as int);
            }
        }
        k += 1;
    }

    proof {
        assert forall|p: (int, int)| #[trigger]
            born(s, p) implies adjacent_to_prefix(cells, n as int, p) by {
            lemma_live_neighbor_is_adjacent(s, p);
            let qq = choose|qq: (int, int)| s.contains(qq) && adjacent(p, qq);
            let j = choose|j: int| 0 <= j < cells.len() && cell_view(cells[j]) == qq;
            assert(adjacent(p, cell_view(cells[j])));
            assert(adjacent_to_prefix(cells, n as int, p));
        }
        assert(seq_cells(new_live_cells@) =~= step(s));
    }
    GameBoard { max_x: new_max_x, max_y: new_max_y, board: new_live_cells }
}

/// Law: with no live cells nothing survives and nothing is born, so a board
/// with an empty live set advances to a board with an empty live set; and
/// since no birth happens, the hint clauses of `get_next_generation` pin
/// `max_x` and `max_y` to their input values.
pub proof fn lemma_empty_board(s: Set<(int, int)>)
    requires
        s == Set::<(int, int)>::empty(),
    ensures
        step(s) == Set::<(int, int)>::empty(),
        forall|p: (int, int)| !(#[trigger] born(s, p)),
{
    assert forall|p: (int, int)| !(#[trigger] step(s).contains(p)) by {
        assert(live_neighbor_count(s, p) == 0);
    }
    assert(step(s) =~= Set::<(int, int)>::empty());
    assert forall|p: (int, int)| !(#[trigger] born(s, p)) by {
        assert(live_neighbor_count(s, p) == 0);
    }
}

/// Law: a lone live cell has no live neighbours, so it dies, and no dead cell
/// can reach three live neighbours; the board advances to an empty one.
pub proof fn lemma_isolated_cell_dies(s: Set<(int, int)>, c: (int, int))
    requires
        forall|q: (int, int)| #[trigger] s.contains(q) <==> q == c,
    ensures
        step(s) == Set::<(int, int)>::empty(),
{
    assert forall|p: (int, int)| !(#[trigger] step(s).contains(p)) by {
        if p == c {
            assert(live_neighbor_count(s, p) == 0);
        } else {
            assert(live_neighbor_count(s, p) <= 1);
        }
    }
    assert(step(s) =~= Set::<(int, int)>::empty());
}

/// Law: the next generation depends only on which cells are live, never on
/// the order in which a board happens to store them. Together with the
/// `ensures` of `get_next_generation` — the result's live set is exactly
/// `step` of the input's live set — two boards holding the same cells in any
/// two orders advance to the same live set.
pub proof fn lemma_order_independence(a: GameBoard, b: GameBoard)
    requires
        a.live() =~= b.live(),
    ensures
        step(a.live()) == step(b.live()),
{
}

} // verus!
