//! The board and the moves played on it.
use vstd::prelude::*;
use crate::lane::{
    combine_pair, combine_pass, compacted, lemma_merge_pass, lemma_positive_kept,
    lemma_three_passes, raise, slid, slide_pair, slide_pass,
};
use crate::grid::{
    full, lane, lane_col, lane_of, lane_row, lemma_cell_in_lane, lemma_lane_coords, lemma_wf_lanes,
    lost, mergeable, col_pair, row_pair, compacted_grid, moved_grid, place_of, put_cell, shaped,
    spawned, wf_grid, empty_grid, starting, Arrow, Grid,
};
use crate::random::{choose_several, choose_one, chance};
use rand::rngs::ThreadRng;

verus! {

/// What one walk over the pairs of each lane does to a pair.
#[derive(Clone, Copy, PartialEq, Eq, Hash, Debug)]
enum Step {
    /// Move a tile into the empty cell next to it on the edge side.
    Slide,
    /// Merge two equal neighbouring tiles into the cell on the edge side.
    Combine,
}

/// One walk of `step` over a four-cell lane.
spec fn pass(step: Step, l: Seq<Option<u8>>) -> Seq<Option<u8>> {
    match step {
        Step::Slide => slide_pass(l),
        Step::Combine => combine_pass(l),
    }
}

/// A 4x4 board of tiles, each an exponent of two or empty.
#[derive(Clone, Copy, PartialEq, Eq, Hash, Debug)]
pub struct Board {
    board: [[Option<u8>; 4]; 4],
}

impl View for Board {
    type V = Grid;

    closed spec fn view(&self) -> Grid {
        Seq::new(4, |r: int| self.board[r]@)
    }
}

/// Exponent of the tile formed by merging two tiles of exponent `v`.
fn raise_exp(v: u8) -> (r: u8)
    ensures
        r == raise(v),
{
    if v < 255 {
        v + 1
    } else {
        255
    }
}

/// Row and column of the `i`-th cell of lane `k`.
fn lane_cell(dir: Arrow, k: usize, i: usize) -> (rc: (usize, usize))
    requires
        k < 4,
        i < 4,
    ensures
        rc.0 == lane_row(dir, k as int, i as int),
        rc.1 == lane_col(dir, k as int, i as int),
        rc.0 < 4,
        rc.1 < 4,
{
    match dir {
        Arrow::Up => (i, k),
        Arrow::Down => (3 - i, k),
        Arrow::Left => (k, i),
        Arrow::Right => (k, 3 - i),
    }
}

/// Applies `step` to the pair of cells `i` and `i + 1` of a lane.
fn step_at(step: Step, l: &mut [Option<u8>; 4], i: usize)
    requires
        i < 3,
    ensures
        final(l)@ == match step {
            Step::Slide => slide_pair(old(l)@, i as int),
            Step::Combine => combine_pair(old(l)@, i as int),
        },
{
    let near = l[i];
    let far = l[i + 1];
    match step {
        Step::Slide => {
            if near.is_none() && far.is_some() {
                l.set(i, far);
                l.set(i + 1, None);
            }
        },
        Step::Combine => {
            match (near, far) {
                (Some(a), Some(b)) => {
                    if a == b {
                        l.set(i, Some(raise_exp(a)));
                        l.set(i + 1, None);
                    }
                },
                _ => {},
            }
        },
    }
    assert(final(l)@ =~= match step {
        Step::Slide => slide_pair(old(l)@, i as int),
        Step::Combine => combine_pair(old(l)@, i as int),
    });
}

impl Board {
    proof fn lemma_shaped(&self)
        ensures
            shaped(self@),
    {
        assert forall|r: int| 0 <= r < 4 implies (#[trigger] self@[r]).len() == 4 by {
            assert(self@[r] == self.board[r]@);
        }
    }

    /// Builds a board from its rows of tiles.
    pub fn from_grid(grid: [[Option<u8>; 4]; 4]) -> (b: Board)
        ensures
            b@ == Seq::new(4, |r: int| grid[r]@),
    {
        Board { board: grid }
    }

    /// The rows of tiles of the board.
    pub fn grid(&self) -> (g: [[Option<u8>; 4]; 4])
        ensures
            Seq::new(4, |r: int| g[r]@) == self@,
    {
        self.board
    }

    fn get(&self, r: usize, c: usize) -> (v: Option<u8>)
        requires
            r < 4,
            c < 4,
        ensures
            v == self@[r as int][c as int],
    {
        self.board[r][c]
    }

    fn put(&mut self, r: usize, c: usize, v: Option<u8>)
        requires
            r < 4,
            c < 4,
        ensures
            final(self)@ == put_cell(old(self)@, r as int, c as int, v),
    {
        let mut row = self.board[r];
        row.set(c, v);
        self.board.set(r, row);
        assert(final(self)@ =~~= put_cell(old(self)@, r as int, c as int, v));
    }

    fn read_lane(&self, dir: Arrow, k: usize) -> (l: [Option<u8>; 4])
        requires
            k < 4,
        ensures
            l@ == lane(self@, dir, k as int),
    {
        let mut l: [Option<u8>; 4] = [None; 4];
        let mut i: usize = 0;
        while i < 4
            invariant
                i <= 4,
                k < 4,
                l@.len() == 4,
                forall|j: int| 0 <= j < i ==> l@[j] == #[trigger] lane(self@, dir, k as int)[j],
            decreases 4 - i,
        {
            let (r, c) = lane_cell(dir, k, i);
            l.set(i, self.get(r, c));
            i += 1;
        }
        assert(l@ =~= lane(self@, dir, k as int));
        l
    }

    fn write_lane(&mut self, dir: Arrow, k: usize, l: [Option<u8>; 4])
        requires
            k < 4,
        ensures
            shaped(final(self)@),
            forall|r: int, c: int|
                0 <= r < 4 && 0 <= c < 4 ==> #[trigger] final(self)@[r][c] == if lane_of(dir, r, c)
                    == k {
                    l@[place_of(dir, r, c)]
                } else {
                    old(self)@[r][c]
                },
    {
        let ghost before = self@;
        let mut i: usize = 0;
        while i < 4
            invariant
                i <= 4,
                k < 4,
                forall|r: int, c: int|
                    0 <= r < 4 && 0 <= c < 4 ==> #[trigger] self@[r][c] == if lane_of(dir, r, c)
                        == k && place_of(dir, r, c) < i {
                        l@[place_of(dir, r, c)]
                    } else {
                        before[r][c]
                    },
            decreases 4 - i,
        {
            let (r, c) = lane_cell(dir, k, i);
            proof {
                lemma_lane_coords(dir, k as int, i as int);
            }
            self.put(r, c, l[i]);
            i += 1;
        }
        proof {
            self.lemma_shaped();
        }
    }

    /// Walks the pairs of every lane for a move toward `dir`, applying
    /// `step` to each pair: sliding goes from the far pair to the edge,
    /// merging from the edge pair outward.
    fn scan(&mut self, dir: Arrow, step: Step)
        ensures
            shaped(final(self)@),
            forall|k: int| 0 <= k < 4 ==> #[trigger] lane(final(self)@, dir, k) == pass(step, lane(old(self)@, dir, k)),
    {
        let ghost before = self@;
        let mut k: usize = 0;
        while k < 4
            invariant
                k <= 4,
                forall|j: int| 0 <= j < k ==> #[trigger] lane(self@, dir, j) == pass(step, lane(before, dir, j)),
                forall|j: int| k <= j < 4 ==> #[trigger] lane(self@, dir, j) == lane(before, dir, j),
            decreases 4 - k,
        {
            let mut l = self.read_lane(dir, k);
            match step {
                Step::Slide => {
                    step_at(step, &mut l, 2);
                    step_at(step, &mut l, 1);
                    step_at(step, &mut l, 0);
                },
                Step::Combine => {
                    step_at(step, &mut l, 0);
                    step_at(step, &mut l, 1);
                    step_at(step, &mut l, 2);
                },
            }
            let ghost mid = self@;
            self.write_lane(dir, k, l);
            proof {
                assert forall|j: int| 0 <= j < 4 implies #[trigger] lane(self@, dir, j) == if j == k {
                    l@
                } else {
                    lane(mid, dir, j)
                } by {
                    assert forall|i: int| 0 <= i < 4 implies lane(self@, dir, j)[i] == (if j == k {
                        l@
                    } else {
                        lane(mid, dir, j)
                    })[i] by {
                        lemma_lane_coords(dir, j, i);
                    }
                    assert(lane(self@, dir, j) =~= if j == k {
                        l@
                    } else {
                        lane(mid, dir, j)
                    });
                }
            }
            k += 1;
        }
        proof {
            self.lemma_shaped();
        }
    }

    /// One sliding pass: every tile with an empty cell beside it on the
    /// edge side moves into it.
    pub fn squash_once(&mut self, direction: Arrow)
        ensures
            forall|k: int| 0 <= k < 4 ==> #[trigger] lane(final(self)@, direction, k) == slide_pass(lane(old(self)@, direction, k)),
    {
        self.scan(direction, Step::Slide);
    }

    /// Slides all tiles toward `direction`, keeping their order in each lane.
    pub fn squash(&mut self, direction: Arrow)
        ensures
            final(self)@ == compacted_grid(old(self)@, direction),
            forall|k: int| 0 <= k < 4 ==> #[trigger] lane(final(self)@, direction, k) == compacted(lane(old(self)@, direction, k)),
    {
        let ghost before = self@;
        self.squash_once(direction);
        self.squash_once(direction);
        self.squash_once(direction);
        proof {
            assert forall|k: int| 0 <= k < 4 implies #[trigger] lane(self@, direction, k) == compacted(lane(before, direction, k)) by {
                lemma_three_passes(lane(before, direction, k));
            }
            self.lemma_shaped();
            lemma_cell_in_lane(self@, direction);
            assert(self@ =~~= compacted_grid(before, direction));
        }
    }

    /// Plays the tile movement of a move toward `direction`: slide, merge
    /// equal neighbours once from the edge outward, slide again.
    pub fn merge(&mut self, direction: Arrow)
        ensures
            final(self)@ == moved_grid(old(self)@, direction),
            wf_grid(old(self)@) ==> wf_grid(final(self)@),
    {
        let ghost before = self@;
        self.squash(direction);
        self.scan(direction, Step::Combine);
        self.squash(direction);
        proof {
            assert forall|k: int| 0 <= k < 4 implies #[trigger] lane(self@, direction, k) == slid(lane(before, direction, k)) by {
                lemma_merge_pass(lane(before, direction, k));
            }
            self.lemma_shaped();
            lemma_cell_in_lane(self@, direction);
            assert(self@ =~~= moved_grid(before, direction));
            if wf_grid(before) {
                lemma_wf_lanes(before, direction);
                assert forall|r: int, c: int|
                    0 <= r < 4 && 0 <= c < 4 && (#[trigger] self@[r][c]) is Some implies self@[r][c]->0 >= 1 by {
                    let k = lane_of(direction, r, c);
                    lemma_positive_kept(lane(before, direction, k));
                }
            }
        }
    }

    /// Every cell holds a tile.
    pub fn is_full(&self) -> (r: bool)
        ensures
            r == full(self@),
    {
        let mut i: usize = 0;
        while i < 4
            invariant
                i <= 4,
                forall|r: int, c: int| 0 <= r < i && 0 <= c < 4 ==> (#[trigger] self@[r][c]) is Some,
            decreases 4 - i,
        {
            let mut j: usize = 0;
            while j < 4
                invariant
                    i < 4,
                    j <= 4,
                    forall|r: int, c: int| 0 <= r < i && 0 <= c < 4 ==> (#[trigger] self@[r][c]) is Some,
                    forall|c: int| 0 <= c < j ==> (#[trigger] self@[i as int][c]) is Some,
                decreases 4 - j,
            {
                if self.get(i, j).is_none() {
                    return false;
                }
                j += 1;
            }
            i += 1;
        }
        true
    }

    /// Some two horizontally or vertically neighbouring cells hold the same
    /// tile.
    pub fn is_mergable(&self) -> (r: bool)
        ensures
            r == mergeable(self@),
    {
        let mut x: usize = 0;
        while x < 4
            invariant
                x <= 4,
                forall|r: int, c: int| 0 <= r < x && 0 <= c < 3 ==> !#[trigger] row_pair(self@, r, c),
            decreases 4 - x,
        {
            let mut y: usize = 0;
            while y < 3
                invariant
                    x < 4,
                    y <= 3,
                    forall|r: int, c: int| 0 <= r < x && 0 <= c < 3 ==> !#[trigger] row_pair(self@, r, c),
                    forall|c: int| 0 <= c < y ==> !#[trigger] row_pair(self@, x as int, c),
                decreases 3 - y,
            {
                let left = self.get(x, y);
                let right = self.get(x, y + 1);
                if let (Some(a), Some(b)) = (left, right) {
                    if a == b {
                        assert(row_pair(self@, x as int, y as int));
                        return true;
                    }
                }
                y += 1;
            }
            x += 1;
        }
        let mut x: usize = 0;
        while x < 3
            invariant
                x <= 3,
                forall|r: int, c: int| 0 <= r < 4 && 0 <= c < 3 ==> !#[trigger] row_pair(self@, r, c),
                forall|r: int, c: int| 0 <= r < x && 0 <= c < 4 ==> !#[trigger] col_pair(self@, r, c),
            decreases 3 - x,
        {
            let mut y: usize = 0;
            while y < 4
                invariant
                    x < 3,
                    y <= 4,
                    forall|r: int, c: int| 0 <= r < 4 && 0 <= c < 3 ==> !#[trigger] row_pair(self@, r, c),
                    forall|r: int, c: int| 0 <= r < x && 0 <= c < 4 ==> !#[trigger] col_pair(self@, r, c),
                    forall|c: int| 0 <= c < y ==> !#[trigger] col_pair(self@, x as int, c),
                decreases 4 - y,
            {
                let above = self.get(x, y);
                let below = self.get(x + 1, y);
                if let (Some(a), Some(b)) = (above, below) {
                    if a == b {
                        assert(col_pair(self@, x as int, y as int));
                        return true;
                    }
                }
                y += 1;
            }
            x += 1;
        }
        false
    }

    /// The cells that hold no tile, in row order.
    fn empty_cells(&self) -> (v: Vec<(usize, usize)>)
        ensures
            v@.no_duplicates(),
            forall|n: int| 0 <= n < v@.len() ==> (#[trigger] v@[n]).0 < 4 && v@[n].1 < 4
                && self@[v@[n].0 as int][v@[n].1 as int] is None,
            forall|r: int, c: int| 0 <= r < 4 && 0 <= c < 4 && (#[trigger] self@[r][c]) is None
                ==> v@.contains((r as usize, c as usize)),
    {
        let mut v: Vec<(usize, usize)> = Vec::new();
        let mut i: usize = 0;
        while i < 4
            invariant
                i <= 4,
                forall|a: int, b: int| 0 <= a < b < v@.len() ==> (#[trigger] v@[a]).0 < (#[trigger] v@[b]).0
                    || (v@[a].0 == v@[b].0 && v@[a].1 < v@[b].1),
                forall|n: int| 0 <= n < v@.len() ==> (#[trigger] v@[n]).0 < i && v@[n].1 < 4
                    && self@[v@[n].0 as int][v@[n].1 as int] is None,
                forall|r: int, c: int| 0 <= r < i && 0 <= c < 4 && (#[trigger] self@[r][c]) is None
                    ==> v@.contains((r as usize, c as usize)),
            decreases 4 - i,
        {
            let mut j: usize = 0;
            while j < 4
                invariant
                    i < 4,
                    j <= 4,
                    forall|a: int, b: int| 0 <= a < b < v@.len() ==> (#[trigger] v@[a]).0 < (#[trigger] v@[b]).0
                        || (v@[a].0 == v@[b].0 && v@[a].1 < v@[b].1),
                    forall|n: int| 0 <= n < v@.len() ==> ((#[trigger] v@[n]).0 < i || (v@[n].0 == i && v@[n].1 < j))
                        && v@[n].1 < 4 && self@[v@[n].0 as int][v@[n].1 as int] is None,
                    forall|r: int, c: int| (0 <= r < i && 0 <= c < 4 || r == i && 0 <= c < j)
                        && (#[trigger] self@[r][c]) is None ==> v@.contains((r as usize, c as usize)),
                decreases 4 - j,
            {
                if self.get(i, j).is_none() {
                    let ghost prev = v@;
                    v.push((i, j));
                    proof {
                        assert(v@[prev.len() as int] == (i, j));
                        assert forall|r: int, c: int| (0 <= r < i && 0 <= c < 4 || r == i && 0 <= c <= j)
                            && (#[trigger] self@[r][c]) is None implies v@.contains((r as usize, c as usize)) by {
                            if r == i && c == j {
                                assert(v@[prev.len() as int] == (r as usize, c as usize));
                            } else {
                                let n = choose|n: int| 0 <= n < prev.len() && prev[n] == (r as usize, c as usize);
                                assert(v@[n] == prev[n]);
                            }
                        }
                    }
                }
                j += 1;
            }
            i += 1;
        }
        proof {
            assert forall|a: int, b: int| 0 <= a < v@.len() && 0 <= b < v@.len() && a != b implies v@[a] != v@[b] by {
                if a < b {
                    assert(v@[a].0 < v@[b].0 || (v@[a].0 == v@[b].0 && v@[a].1 < v@[b].1));
                } else {
                    assert(v@[b].0 < v@[a].0 || (v@[b].0 == v@[a].0 && v@[b].1 < v@[a].1));
                }
            }
        }
        v
    }

    /// Puts a new tile into the empty cell `(row, col)`: exponent 2 when
    /// `big`, else exponent 1.
    pub fn spawn_at(&mut self, row: usize, col: usize, big: bool)
        requires
            row < 4,
            col < 4,
            old(self)@[row as int][col as int] is None,
        ensures
            final(self)@ == put_cell(old(self)@, row as int, col as int, Some(if big { 2u8 } else { 1u8 })),
    {
        let v: u8 = if big { 2 } else { 1 };
        self.put(row, col, Some(v));
    }

    /// The board holding a tile of exponent 1 at each of two distinct cells
    /// and nothing else.
    pub fn with_tiles_at(first: (usize, usize), second: (usize, usize)) -> (b: Board)
        requires
            first.0 < 4 && first.1 < 4,
            second.0 < 4 && second.1 < 4,
            first != second,
        ensures
            b@ == put_cell(put_cell(empty_grid(), first.0 as int, first.1 as int, Some(1)), second.0 as int, second.1 as int, Some(1)),
            starting(b@),
    {
        let mut b = Board { board: [[None; 4]; 4] };
        assert(b@ =~~= empty_grid());
        b.put(first.0, first.1, Some(1));
        b.put(second.0, second.1, Some(1));
        assert(((first.0 as int, first.1 as int)) != ((second.0 as int, second.1 as int)));
        b
    }

    /// Starts a game: two distinct cells, chosen at random, hold a tile of
    /// exponent 1.
    pub fn new(rng: &mut ThreadRng) -> (b: Board)
        ensures
            starting(b@),
            wf_grid(b@),
    {
        let blank = Board { board: [[None; 4]; 4] };
        let cells = blank.empty_cells();
        proof {
            assert(blank@[0][0] is None && blank@[0][1] is None);
            assert(cells@.contains((0usize, 0usize)));
            assert(cells@.contains((0usize, 1usize)));
            if cells@.len() < 2 {
                let a = choose|n: int| 0 <= n < cells@.len() && cells@[n] == (0usize, 0usize);
                let b = choose|n: int| 0 <= n < cells@.len() && cells@[n] == (0usize, 1usize);
                assert(a == b);
            }
        }
        let picked = choose_several(rng, &cells, 2);
        let first = picked[0];
        let second = picked[1];
        proof {
            assert(cells@.contains(first));
            assert(cells@.contains(second));
            assert(picked@[0] != picked@[1]);
        }
        let b = Board::with_tiles_at(first, second);
        proof {
            let g = b@;
            assert forall|r: int, c: int| 0 <= r < 4 && 0 <= c < 4 && (#[trigger] g[r][c]) is Some implies g[r][c]->0 >= 1 by {
                assert(g[r][c] == Some(1u8));
            }
        }
        b
    }

    /// Spawns a tile on a random empty cell: exponent 2 one time in ten,
    /// else exponent 1. Returns whether a tile was placed; a full board is
    /// left as it is.
    pub fn gen_num(&mut self, rng: &mut ThreadRng) -> (r: bool)
        ensures
            r == !full(old(self)@),
            !r ==> final(self)@ == old(self)@,
            r ==> spawned(old(self)@, final(self)@),
            wf_grid(old(self)@) ==> wf_grid(final(self)@),
    {
        if self.is_full() {
            return false;
        }
        let cells = self.empty_cells();
        let ghost before = self@;
        match choose_one(rng, &cells) {
            Some((x, y)) => {
                let big = chance(rng, 1, 10);
                proof {
                    let n = choose|n: int| 0 <= n < cells@.len() && cells@[n] == (x, y);
                    assert(cells@[n] == (x, y));
                }
                self.spawn_at(x, y, big);
                proof {
                    assert(put_cell(before, x as int, y as int, Some(1)) == self@
                        || put_cell(before, x as int, y as int, Some(2)) == self@);
                }
                true
            },
            None => {
                proof {
                    let (r, c) = choose|r: int, c: int| 0 <= r < 4 && 0 <= c < 4 && !(before[r][c] is Some);
                    assert(before[r][c] is None);
                    assert(cells@.contains((r as usize, c as usize)));
                }
                false
            },
        }
    }

    /// Plays a move toward `direction`: slides and merges the tiles,
    /// spawns a new tile when a cell is free, and reports whether the game
    /// is now lost.
    pub fn play(&mut self, direction: Arrow, rng: &mut ThreadRng) -> (r: bool)
        ensures
            full(moved_grid(old(self)@, direction)) ==> final(self)@ == moved_grid(old(self)@, direction),
            !full(moved_grid(old(self)@, direction)) ==> spawned(moved_grid(old(self)@, direction), final(self)@),
            r == lost(final(self)@),
            wf_grid(old(self)@) ==> wf_grid(final(self)@),
    {
        self.merge(direction);
        self.gen_num(rng);
        self.is_lost()
    }

    /// The board is full and no two neighbouring tiles are equal.
    pub fn is_lost(&self) -> (r: bool)
        ensures
            r == lost(self@),
    {
        self.is_full() && !self.is_mergable()
    }
}

} // verus!
