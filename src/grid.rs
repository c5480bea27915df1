//! The mathematical model of a board: a 4x4 grid of optional exponents,
//! read as lanes in the direction of a move.
use vstd::prelude::*;
use crate::lane::{compacted, slid, positive, lemma_compacted_idempotent, lemma_compacted_tiles};

verus! {

/// The direction of a move: the edge that tiles slide toward.
#[derive(Clone, Copy, PartialEq, Eq, Hash, Debug)]
pub enum Arrow {
    Up,
    Down,
    Left,
    Right,
}

/// A 4x4 grid of cells, indexed by row then column.
pub type Grid = Seq<Seq<Option<u8>>>;

/// The grid has four rows of four cells.
pub open spec fn shaped(g: Grid) -> bool {
    g.len() == 4 && forall|r: int| 0 <= r < 4 ==> (#[trigger] g[r]).len() == 4
}

/// Row of the `i`-th cell (counted from the edge) of lane `k`.
pub open spec fn lane_row(dir: Arrow, k: int, i: int) -> int {
    match dir {
        Arrow::Up => i,
        Arrow::Down => 3 - i,
        Arrow::Left => k,
        Arrow::Right => k,
    }
}

/// Column of the `i`-th cell (counted from the edge) of lane `k`.
pub open spec fn lane_col(dir: Arrow, k: int, i: int) -> int {
    match dir {
        Arrow::Up => k,
        Arrow::Down => k,
        Arrow::Left => i,
        Arrow::Right => 3 - i,
    }
}

/// The lane that cell `(r, c)` belongs to.
pub open spec fn lane_of(dir: Arrow, r: int, c: int) -> int {
    match dir {
        Arrow::Up | Arrow::Down => c,
        Arrow::Left | Arrow::Right => r,
    }
}

/// The distance of cell `(r, c)` from the edge of its lane.
pub open spec fn place_of(dir: Arrow, r: int, c: int) -> int {
    match dir {
        Arrow::Up => r,
        Arrow::Down => 3 - r,
        Arrow::Left => c,
        Arrow::Right => 3 - c,
    }
}

/// Lane `k` of the grid for a move toward `dir`, listed from the edge.
pub open spec fn lane(g: Grid, dir: Arrow, k: int) -> Seq<Option<u8>> {
    Seq::new(4, |i: int| g[lane_row(dir, k, i)][lane_col(dir, k, i)])
}

/// The grid with every lane packed toward `dir`.
pub open spec fn compacted_grid(g: Grid, dir: Arrow) -> Grid {
    Seq::new(
        4,
        |r: int| Seq::new(4, |c: int| compacted(lane(g, dir, lane_of(dir, r, c)))[place_of(dir, r, c)]),
    )
}

/// The grid after a move toward `dir`: every lane slid and merged.
pub open spec fn moved_grid(g: Grid, dir: Arrow) -> Grid {
    Seq::new(
        4,
        |r: int| Seq::new(4, |c: int| slid(lane(g, dir, lane_of(dir, r, c)))[place_of(dir, r, c)]),
    )
}

/// Every cell is occupied.
pub open spec fn full(g: Grid) -> bool {
    forall|r: int, c: int| 0 <= r < 4 && 0 <= c < 4 ==> (#[trigger] g[r][c]) is Some
}

/// Two horizontal neighbours hold the same tile.
pub open spec fn row_pair(g: Grid, r: int, c: int) -> bool {
    g[r][c] is Some && g[r][c] == g[r][c + 1]
}

/// Two vertical neighbours hold the same tile.
pub open spec fn col_pair(g: Grid, r: int, c: int) -> bool {
    g[r][c] is Some && g[r][c] == g[r + 1][c]
}

/// Some two neighbouring cells hold the same tile.
pub open spec fn mergeable(g: Grid) -> bool {
    (exists|r: int, c: int| 0 <= r < 4 && 0 <= c < 3 && #[trigger] row_pair(g, r, c))
    || (exists|r: int, c: int| 0 <= r < 3 && 0 <= c < 4 && #[trigger] col_pair(g, r, c))
}

/// The game is over: the grid is full and nothing can merge.
pub open spec fn lost(g: Grid) -> bool {
    full(g) && !mergeable(g)
}

/// Every tile holds a positive exponent.
pub open spec fn wf_grid(g: Grid) -> bool {
    forall|r: int, c: int|
        0 <= r < 4 && 0 <= c < 4 && (#[trigger] g[r][c]) is Some ==> g[r][c]->0 >= 1
}

/// The grid with cell `(r, c)` set to `v`.
pub open spec fn put_cell(g: Grid, r: int, c: int, v: Option<u8>) -> Grid {
    g.update(r, g[r].update(c, v))
}

/// `after` is `before` with one empty cell given a new tile of exponent 1 or 2.
pub open spec fn spawned(before: Grid, after: Grid) -> bool {
    exists|r: int, c: int|
        0 <= r < 4 && 0 <= c < 4 && before[r][c] is None && (#[trigger] put_cell(before, r, c, Some(1))
            == after || put_cell(before, r, c, Some(2)) == after)
}

/// The grid with no tile.
pub open spec fn empty_grid() -> Grid {
    Seq::new(4, |r: int| Seq::new(4, |c: int| None))
}

/// A grid of the start of a game: two distinct cells hold a tile of
/// exponent 1, every other cell is empty.
pub open spec fn starting(g: Grid) -> bool {
    exists|r1: int, c1: int, r2: int, c2: int|
        0 <= r1 < 4 && 0 <= c1 < 4 && 0 <= r2 < 4 && 0 <= c2 < 4 && (r1, c1) != (r2, c2)
            && #[trigger] put_cell(put_cell(empty_grid(), r1, c1, Some(1)), r2, c2, Some(1)) == g
}

/// Every cell is reached as some cell of its own lane.
pub proof fn lemma_cell_in_lane(g: Grid, dir: Arrow)
    ensures
        forall|r: int, c: int|
            0 <= r < 4 && 0 <= c < 4 ==> #[trigger] g[r][c] == lane(g, dir, lane_of(dir, r, c))[place_of(
                dir,
                r,
                c,
            )],
{
}

/// Cell `i` of lane `k` lies in lane `k` at place `i`.
pub proof fn lemma_lane_coords(dir: Arrow, k: int, i: int)
    ensures
        lane_of(dir, lane_row(dir, k, i), lane_col(dir, k, i)) == k,
        place_of(dir, lane_row(dir, k, i), lane_col(dir, k, i)) == i,
{
}

/// The lanes of a grid are all positive exactly when the grid is well formed.
pub proof fn lemma_wf_lanes(g: Grid, dir: Arrow)
    requires
        wf_grid(g),
    ensures
        forall|k: int| 0 <= k < 4 ==> positive(#[trigger] lane(g, dir, k)),
{
    assert forall|k: int| 0 <= k < 4 implies positive(#[trigger] lane(g, dir, k)) by {
        assert forall|i: int| 0 <= i < lane(g, dir, k).len() && lane(g, dir, k)[i] is Some implies lane(
            g,
            dir,
            k,
        )[i]->0 >= 1 by {
            assert(g[lane_row(dir, k, i)][lane_col(dir, k, i)] == lane(g, dir, k)[i]);
        }
    }
}

/// Lane `k` of the packed grid is lane `k` of the grid, packed.
pub proof fn lemma_lane_of_compacted(g: Grid, dir: Arrow, k: int)
    requires
        0 <= k < 4,
    ensures
        lane(compacted_grid(g, dir), dir, k) == compacted(lane(g, dir, k)),
{
    lemma_compacted_tiles(lane(g, dir, k));
    assert forall|i: int| 0 <= i < 4 implies lane(compacted_grid(g, dir), dir, k)[i] == compacted(
        lane(g, dir, k),
    )[i] by {
        lemma_lane_coords(dir, k, i);
    }
    assert(lane(compacted_grid(g, dir), dir, k) =~= compacted(lane(g, dir, k)));
}

/// Compaction is idempotent: once the tiles of every lane are packed
/// toward an edge, packing toward that edge again moves nothing.
pub proof fn law_compaction_idempotent(g: Grid, dir: Arrow)
    ensures
        compacted_grid(compacted_grid(g, dir), dir) == compacted_grid(g, dir),
{
    let once = compacted_grid(g, dir);
    assert forall|r: int, c: int| 0 <= r < 4 && 0 <= c < 4 implies compacted_grid(once, dir)[r][c]
        == once[r][c] by {
        let k = lane_of(dir, r, c);
        lemma_lane_of_compacted(g, dir, k);
        lemma_compacted_idempotent(lane(g, dir, k));
    }
    assert(compacted_grid(once, dir) =~~= once);
}

} // verus!
