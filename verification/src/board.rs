//! The minesweeper board engine: random mine placement, reveal with flood
//! fill and first-click relocation, chording, flagging, and the win/loss
//! rules.

use vstd::prelude::*;

use itertools::Itertools;
use rand::seq::SliceRandom;

use crate::counts::TilePred;
use crate::counts::count_p;
use crate::counts::count_true;
use crate::counts::lemma_all_safe_uncovered;
use crate::counts::lemma_count_mines_from_bools;
use crate::counts::lemma_count_p_bounds;
use crate::counts::lemma_count_p_complement;
use crate::counts::lemma_count_p_congruent;
use crate::counts::lemma_count_p_le;
use crate::counts::lemma_count_p_lt;
use crate::counts::lemma_count_p_none;
use crate::counts::lemma_count_p_other;
use crate::counts::lemma_count_p_update;
use crate::counts::lemma_count_p_witness;
use crate::counts::lemma_count_true_multiset;
use crate::counts::lemma_count_true_push;
use crate::grid::adj_flags;
use crate::grid::adj_mines;
use crate::grid::adjacent;
use crate::grid::flag_at;
use crate::grid::get_1d;
use crate::grid::get_1d_manhattan;
use crate::grid::get_2d;
use crate::grid::in_region;
use crate::grid::lemma_adj_mines_congruent;
use crate::grid::lemma_coords;
use crate::grid::lemma_flat_in_range;
use crate::grid::lemma_region_extend;
use crate::grid::lemma_region_same_but_start;
use crate::grid::frontier_reaches;
use crate::grid::lemma_last_uncovered;
use crate::grid::lemma_region_safe;
use crate::grid::lemma_region_start;
use crate::grid::lemma_region_uncover_start;
use crate::grid::lemma_zero_path_suffix;
use crate::grid::zero_path;
use crate::grid::mine_at;
use crate::tile::Outcome;
use crate::tile::PushState;
use crate::tile::State;
use crate::tile::Tile;
use crate::tile::revealed_tile;

verus! {

/// The two failures the board can report: an impossible geometry at
/// construction, or a coordinate outside the grid.
#[derive(PartialEq, Eq, Structural, Clone, Copy, Debug)]
pub enum BoardError {
    InvalidConfiguration,
    OutOfBounds,
}

/// The two sequences agree on every mine marker and adjacency count.
pub open spec fn same_mines(pre: Seq<Tile>, post: Seq<Tile>) -> bool {
    &&& post.len() == pre.len()
    &&& forall|j: int|
        0 <= j < pre.len() ==> (#[trigger] post[j]).mine == pre[j].mine
            && post[j].mines_surrounding == pre[j].mines_surrounding
}

/// Every state change from `pre` to `post` opens a covered tile.
pub open spec fn opened_only(pre: Seq<Tile>, post: Seq<Tile>) -> bool {
    &&& post.len() == pre.len()
    &&& forall|j: int|
        0 <= j < pre.len() && (#[trigger] post[j]).state != pre[j].state ==> pre[j].state
            == State::Covered && post[j].state == State::Uncovered
}

/// The states of `post` are those of `pre` as the end-of-game reveal shows
/// them; the mine markers are free to differ.
pub open spec fn revealed_states(pre: Seq<Tile>, post: Seq<Tile>) -> bool {
    &&& post.len() == pre.len()
    &&& forall|j: int|
        0 <= j < pre.len() ==> (#[trigger] post[j]).state == revealed_tile(pre[j]).state
}

/// `post` is `pre` as the end-of-game reveal shows it.
pub open spec fn revealed_all(pre: Seq<Tile>, post: Seq<Tile>) -> bool {
    &&& post.len() == pre.len()
    &&& forall|j: int| 0 <= j < pre.len() ==> #[trigger] post[j] == revealed_tile(pre[j])
}

/// Relies on rand's `SliceRandom::shuffle`: it permutes the slice in place,
/// so the entries form the same multiset afterwards.
#[verifier::external_body]
fn shuffle_flags(v: &mut Vec<bool>)
    ensures
        final(v)@.to_multiset() == old(v)@.to_multiset(),
        final(v)@.len() == old(v)@.len(),
{
    v.shuffle(&mut rand::thread_rng());
}

/// Relies on rand's `SliceRandom::choose`: on a non-empty slice it returns
/// `Some` of one of the slice's own elements.
#[verifier::external_body]
fn pick_random(v: &Vec<usize>) -> (r: usize)
    requires
        v@.len() > 0,
    ensures
        v@.contains(r),
{
    *v.choose(&mut rand::thread_rng()).unwrap()
}

/// Relies on itertools' `Itertools::unique`: it keeps one copy of each
/// distinct element and drops the rest.
#[verifier::external_body]
fn dedup_indices(v: &Vec<usize>) -> (r: Vec<usize>)
    ensures
        r@.no_duplicates(),
        forall|c: usize| #[trigger] r@.contains(c) <==> v@.contains(c),
{
    v.iter().cloned().unique().collect()
}

/// One summand of the Moore mine count: 1 exactly when the cell at offset
/// `(dx, dy)` from `(x, y)` lies on the grid and holds a mine.
fn probe_mine(tiles: &Vec<Tile>, w: usize, h: usize, x: usize, y: usize, dx: i32, dy: i32) -> (c:
    usize)
    requires
        tiles@.len() == w * h,
        w * h <= usize::MAX,
        w >= 1,
        h >= 1,
        x < w,
        y < h,
        -1 <= dx <= 1,
        -1 <= dy <= 1,
    ensures
        c == mine_at(tiles@, w as int, h as int, x + dx, y + dy),
{
    if dx == -1 && x == 0 {
        return 0;
    }
    if dy == -1 && y == 0 {
        return 0;
    }
    if dx == 1 && x + 1 >= w {
        return 0;
    }
    if dy == 1 && y + 1 >= h {
        return 0;
    }
    let nx = if dx < 0 {
        x - 1
    } else if dx > 0 {
        x + 1
    } else {
        x
    };
    let ny = if dy < 0 {
        y - 1
    } else if dy > 0 {
        y + 1
    } else {
        y
    };
    proof {
        lemma_flat_in_range(w as int, h as int, nx as int, ny as int);
    }
    if tiles[ny * w + nx].mine {
        1
    } else {
        0
    }
}

/// One summand of the Moore flag count, as `probe_mine` but for flags.
fn probe_flag(tiles: &Vec<Tile>, w: usize, h: usize, x: usize, y: usize, dx: i32, dy: i32) -> (c:
    usize)
    requires
        tiles@.len() == w * h,
        w * h <= usize::MAX,
        w >= 1,
        h >= 1,
        x < w,
        y < h,
        -1 <= dx <= 1,
        -1 <= dy <= 1,
    ensures
        c == flag_at(tiles@, w as int, h as int, x + dx, y + dy),
{
    if dx == -1 && x == 0 {
        return 0;
    }
    if dy == -1 && y == 0 {
        return 0;
    }
    if dx == 1 && x + 1 >= w {
        return 0;
    }
    if dy == 1 && y + 1 >= h {
        return 0;
    }
    let nx = if dx < 0 {
        x - 1
    } else if dx > 0 {
        x + 1
    } else {
        x
    };
    let ny = if dy < 0 {
        y - 1
    } else if dy > 0 {
        y + 1
    } else {
        y
    };
    proof {
        lemma_flat_in_range(w as int, h as int, nx as int, ny as int);
    }
    if tiles[ny * w + nx].state == State::Flagged {
        1
    } else {
        0
    }
}

/// The number of mines in the Moore neighbourhood of `(x, y)`.
fn count_adjacent_mines(tiles: &Vec<Tile>, w: usize, h: usize, x: usize, y: usize) -> (c: usize)
    requires
        tiles@.len() == w * h,
        w * h <= usize::MAX,
        w >= 1,
        h >= 1,
        x < w,
        y < h,
    ensures
        c == adj_mines(tiles@, w as int, h as int, x as int, y as int),
{
    let mut c: usize = 0;
    c += probe_mine(tiles, w, h, x, y, -1, -1);
    c += probe_mine(tiles, w, h, x, y, 0, -1);
    c += probe_mine(tiles, w, h, x, y, 1, -1);
    c += probe_mine(tiles, w, h, x, y, -1, 0);
    c += probe_mine(tiles, w, h, x, y, 1, 0);
    c += probe_mine(tiles, w, h, x, y, -1, 1);
    c += probe_mine(tiles, w, h, x, y, 0, 1);
    c += probe_mine(tiles, w, h, x, y, 1, 1);
    c
}

/// The number of flags in the Moore neighbourhood of `(x, y)`.
fn count_adjacent_flags(tiles: &Vec<Tile>, w: usize, h: usize, x: usize, y: usize) -> (c: usize)
    requires
        tiles@.len() == w * h,
        w * h <= usize::MAX,
        w >= 1,
        h >= 1,
        x < w,
        y < h,
    ensures
        c == adj_flags(tiles@, w as int, h as int, x as int, y as int),
{
    let mut c: usize = 0;
    c += probe_flag(tiles, w, h, x, y, -1, -1);
    c += probe_flag(tiles, w, h, x, y, 0, -1);
    c += probe_flag(tiles, w, h, x, y, 1, -1);
    c += probe_flag(tiles, w, h, x, y, -1, 0);
    c += probe_flag(tiles, w, h, x, y, 1, 0);
    c += probe_flag(tiles, w, h, x, y, -1, 1);
    c += probe_flag(tiles, w, h, x, y, 0, 1);
    c += probe_flag(tiles, w, h, x, y, 1, 1);
    c
}

/// The number of uncovered safe tiles, the quantity the reveal-based win
/// rule compares against.
fn count_uncovered_safe(tiles: &Vec<Tile>) -> (c: usize)
    ensures
        c == count_p(tiles@, TilePred::IsUncoveredSafe),
{
    let n = tiles.len();
    let mut c: usize = 0;
    let mut i: usize = 0;
    while i < n
        invariant
            i <= n,
            n == tiles@.len(),
            c == count_p(tiles@.take(i as int), TilePred::IsUncoveredSafe),
            c <= i,
        decreases n - i,
    {
        proof {
            assert(tiles@.take(i + 1).drop_last() =~= tiles@.take(i as int));
            assert(tiles@.take(i + 1).last() == tiles@[i as int]);
            lemma_count_p_bounds(tiles@.take(i as int), TilePred::IsUncoveredSafe);
        }
        let t = tiles[i];
        if t.state == State::Uncovered && !t.mine {
            c += 1;
        }
        i += 1;
    }
    proof {
        assert(tiles@.take(n as int) =~= tiles@);
    }
    c
}

/// The board: a row-major grid of tiles plus the game bookkeeping.
#[derive(Debug)]
pub struct Board {
    pub tiles: Vec<Tile>,
    pub width: usize,
    pub height: usize,
    pub mine_total: usize,
    pub flag_total: usize,
    pub flag_correct: usize,
    pub outcome: Outcome,
    pub first_uncover_pending: bool,
}

impl Board {
    /// The flat index of the cell in column `x`, row `y`.
    pub open spec fn pos_of(self, x: int, y: int) -> int {
        y * self.width + x
    }

    pub open spec fn in_bounds(self, x: int, y: int) -> bool {
        0 <= x < self.width && 0 <= y < self.height
    }

    /// Every mine carries a correct flag.
    pub open spec fn win_by_flags(self) -> bool {
        self.flag_correct == self.mine_total
    }

    /// Every safe tile has been uncovered.
    pub open spec fn win_by_reveal(self) -> bool {
        count_p(self.tiles@, TilePred::IsUncoveredSafe) == self.tiles@.len() - self.mine_total
    }

    /// Well-formedness: the geometry, the counters and the per-tile
    /// adjacency counts all agree, and the game-over bookkeeping holds.
    pub open spec fn wf(self) -> bool {
        &&& self.width >= 1
        &&& self.height >= 1
        &&& self.tiles@.len() == self.width * self.height
        &&& self.mine_total < self.width * self.height
        &&& self.mine_total == count_p(self.tiles@, TilePred::IsMine)
        &&& self.flag_total <= self.mine_total
        &&& self.flag_correct <= self.flag_total
        &&& (self.outcome == Outcome::Unresolved ==> self.flag_total == count_p(
            self.tiles@,
            TilePred::IsFlagged,
        ) && self.flag_correct == count_p(self.tiles@, TilePred::IsFlaggedMine))
        &&& (forall|j: int|
            0 <= j < self.tiles@.len() ==> (#[trigger] self.tiles@[j]).mines_surrounding
                == adj_mines(
                self.tiles@,
                self.width as int,
                self.height as int,
                j % (self.width as int),
                j / (self.width as int),
            ))
        &&& (self.outcome == Outcome::Lost ==> !self.first_uncover_pending)
        &&& (self.first_uncover_pending && self.outcome == Outcome::Unresolved ==> forall|j: int|
            0 <= j < self.tiles@.len() ==> (#[trigger] self.tiles@[j]).state != State::Uncovered)
        &&& (self.outcome != Outcome::Unresolved ==> forall|j: int|
            0 <= j < self.tiles@.len() ==> ((#[trigger] self.tiles@[j]).state == State::Uncovered
                || self.tiles@[j].state == State::FlagRevealed))
    }

    /// Recomputes every tile's adjacency count from the current mine layout.
    fn recompute_adjacency(&mut self)
        requires
            old(self).width >= 1,
            old(self).height >= 1,
            old(self).tiles@.len() == old(self).width * old(self).height,
        ensures
            final(self).width == old(self).width,
            final(self).height == old(self).height,
            final(self).mine_total == old(self).mine_total,
            final(self).flag_total == old(self).flag_total,
            final(self).flag_correct == old(self).flag_correct,
            final(self).outcome == old(self).outcome,
            final(self).first_uncover_pending == old(self).first_uncover_pending,
            final(self).tiles@.len() == old(self).tiles@.len(),
            forall|j: int|
                0 <= j < old(self).tiles@.len() ==> (#[trigger] final(self).tiles@[j]).mine == old(self).tiles@[j].mine && final(self).tiles@[j].state == old(self).tiles@[j].state,
            forall|j: int|
                0 <= j < old(self).tiles@.len() ==> (#[trigger] final(self).tiles@[j]).mines_surrounding == adj_mines(
                    final(self).tiles@,
                    old(self).width as int,
                    old(self).height as int,
                    j % (old(self).width as int),
                    j / (old(self).width as int),
                ),
    {
        let w = self.width;
        let h = self.height;
        let n = self.tiles.len();
        let mut i: usize = 0;
        while i < n
            invariant
                i <= n,
                w >= 1,
                h >= 1,
                n == w * h,
                self.width == w,
                self.height == h,
                self.mine_total == old(self).mine_total,
                self.flag_total == old(self).flag_total,
                self.flag_correct == old(self).flag_correct,
                self.outcome == old(self).outcome,
                self.first_uncover_pending == old(self).first_uncover_pending,
                self.tiles@.len() == n,
                old(self).tiles@.len() == n,
                forall|j: int|
                    0 <= j < n ==> (#[trigger] self.tiles@[j]).mine == old(self).tiles@[j].mine
                        && self.tiles@[j].state == old(self).tiles@[j].state,
                forall|j: int|
                    0 <= j < i ==> (#[trigger] self.tiles@[j]).mines_surrounding == adj_mines(
                        self.tiles@,
                        w as int,
                        h as int,
                        j % (w as int),
                        j / (w as int),
                    ),
            decreases n - i,
        {
            proof {
                lemma_coords(w as int, h as int, i as int);
            }
            let xy = get_2d(i, w);
            let c = count_adjacent_mines(&self.tiles, w, h, xy.0, xy.1);
            let ghost before = self.tiles@;
            let mut t = self.tiles[i];
            t.mines_surrounding = c;
            self.tiles[i] = t;
            proof {
                lemma_adj_mines_congruent(before, self.tiles@, w as int, h as int);
                assert forall|j: int| 0 <= j < i + 1 implies (#[trigger] self.tiles@[j]).mines_surrounding
                    == adj_mines(self.tiles@, w as int, h as int, j % (w as int), j / (w as int)) by {
                    lemma_coords(w as int, h as int, j);
                    assert(adj_mines(self.tiles@, w as int, h as int, j % (w as int), j / (w as int))
                        == adj_mines(before, w as int, h as int, j % (w as int), j / (w as int)));
                }
            }
            i += 1;
        }
    }

    /// Builds a `width` by `height` board carrying exactly `mine_num`
    /// randomly placed mines, all tiles covered.  Rejects a geometry without
    /// at least one safe tile.
    pub fn new(width: usize, height: usize, mine_num: usize) -> (r: Result<Board, BoardError>)
        ensures
            match r {
                Ok(b) => {
                    &&& b.wf()
                    &&& b.width == width
                    &&& b.height == height
                    &&& b.mine_total == mine_num
                    &&& b.flag_total == 0
                    &&& b.flag_correct == 0
                    &&& b.outcome == Outcome::Unresolved
                    &&& b.first_uncover_pending
                    &&& mine_num < width * height
                    &&& width * height <= usize::MAX
                    &&& count_p(b.tiles@, TilePred::IsMine) == mine_num
                    &&& forall|j: int|
                        0 <= j < b.tiles@.len() ==> (#[trigger] b.tiles@[j]).state
                            == State::Covered
                },
                Err(e) => {
                    &&& e == BoardError::InvalidConfiguration
                    &&& (mine_num >= width * height || width * height > usize::MAX)
                },
            },
    {
        let total = match width.checked_mul(height) {
            Some(t) => t,
            None => {
                return Err(BoardError::InvalidConfiguration);
            },
        };
        proof {
            assert(total == width * height);
        }
        if mine_num >= total {
            return Err(BoardError::InvalidConfiguration);
        }
        // lay out the mine markers, then shuffle them
        let mut mine_values: Vec<bool> = Vec::new();
        let mut i: usize = 0;
        while i < total
            invariant
                i <= total,
                mine_num < total,
                mine_values@.len() == i,
                count_true(mine_values@) == if i <= mine_num {
                    i as int
                } else {
                    mine_num as int
                },
            decreases total - i,
        {
            let ghost before = mine_values@;
            mine_values.push(i < mine_num);
            proof {
                lemma_count_true_push(before, i < mine_num);
            }
            i += 1;
        }
        let ghost unshuffled = mine_values@;
        shuffle_flags(&mut mine_values);
        proof {
            lemma_count_true_multiset(unshuffled);
            lemma_count_true_multiset(mine_values@);
        }
        // turn the markers into covered tiles
        let mut tiles: Vec<Tile> = Vec::new();
        let zero: usize = 0;
        let mut i2: usize = 0;
        while i2 < total
            invariant
                i2 <= total,
                zero == 0,
                tiles@.len() == i2,
                mine_values@.len() == total,
                count_true(mine_values@) == mine_num,
                forall|j: int|
                    0 <= j < i2 ==> (#[trigger] tiles@[j]).state == State::Covered && tiles@[j].mine
                        == mine_values@[j] && tiles@[j].mines_surrounding == 0,
            decreases total - i2,
        {
            let b = mine_values[i2];
            let ghost before_tiles = tiles@;
            tiles.push(Tile::new(&b, &zero));
            proof {
                assert forall|j: int| 0 <= j < i2 + 1 implies (#[trigger] tiles@[j]).state
                    == State::Covered && tiles@[j].mine == mine_values@[j]
                    && tiles@[j].mines_surrounding == 0 by {
                    if j < i2 {
                        assert(tiles@[j] == before_tiles[j]);
                    } else {
                        assert(tiles@[j].mine == b);
                    }
                }
            }
            i2 += 1;
        }
        let mut board = Board {
            tiles,
            width,
            height,
            mine_total: mine_num,
            flag_total: 0,
            flag_correct: 0,
            outcome: Outcome::Unresolved,
            first_uncover_pending: true,
        };
        proof {
            assert(total == width * height);
            if width == 0 || height == 0 {
                assert(width * height == 0) by (nonlinear_arith)
                    requires
                        width == 0 || height == 0,
                ;
            }
        }
        board.recompute_adjacency();
        proof {
            lemma_count_mines_from_bools(board.tiles@, mine_values@);
            lemma_count_p_none(board.tiles@, TilePred::IsFlagged);
            lemma_count_p_none(board.tiles@, TilePred::IsFlaggedMine);
        }
        Ok(board)
    }

    /// Writes `update` into the state of the tile in column `x`, row `y`.
    pub fn set_tile_state(&mut self, x: usize, y: usize, update: State)
        requires
            old(self).width >= 1,
            x < old(self).width,
            y < old(self).height,
            old(self).tiles@.len() == old(self).width * old(self).height,
        ensures
            final(self).tiles@ == old(self).tiles@.update(
                y * old(self).width + x,
                (Tile {
                    state: update,
                    mine: old(self).tiles@[y * old(self).width + x].mine,
                    mines_surrounding: old(self).tiles@[y * old(self).width
                        + x].mines_surrounding,
                }),
            ),
            final(self).width == old(self).width,
            final(self).height == old(self).height,
            final(self).mine_total == old(self).mine_total,
            final(self).flag_total == old(self).flag_total,
            final(self).flag_correct == old(self).flag_correct,
            final(self).outcome == old(self).outcome,
            final(self).first_uncover_pending == old(self).first_uncover_pending,
    {
        let n = self.tiles.len();
        proof {
            assert(n == old(self).width * old(self).height);
            lemma_flat_in_range(
                self.width as int,
                self.height as int,
                x as int,
                y as int,
            );
        }
        let i = get_1d(x, y, self.width);
        let mut t = self.tiles[i];
        t.state = update;
        self.tiles[i] = t;
    }

    /// The tile in column `x`, row `y`, or `None` when the coordinate is off
    /// the grid.
    pub fn get_tile(&self, x: usize, y: usize) -> (r: Option<&Tile>)
        requires
            self.width >= 1,
            self.tiles@.len() == self.width * self.height,
        ensures
            self.in_bounds(x as int, y as int) ==> (r matches Some(t) && *t == self.tiles@[y
                * self.width + x]),
            !self.in_bounds(x as int, y as int) ==> r is None,
    {
        if x < self.width && y < self.height {
            let n = self.tiles.len();
            proof {
                assert(n == self.width * self.height);
                lemma_flat_in_range(self.width as int, self.height as int, x as int, y as int);
            }
            Some(&self.tiles[y * self.width + x])
        } else {
            None
        }
    }

    /// Ends the game and reveals the whole board for display: flags stay
    /// visible as `FlagRevealed`, every other tile is shown `Uncovered`.
    pub fn end_game(&mut self, won: bool)
        requires
            old(self).wf(),
            !won ==> !old(self).first_uncover_pending,
        ensures
            final(self).wf(),
            final(self).outcome == (if won {
                Outcome::Won
            } else {
                Outcome::Lost
            }),
            final(self).width == old(self).width,
            final(self).height == old(self).height,
            final(self).mine_total == old(self).mine_total,
            final(self).flag_total == old(self).flag_total,
            final(self).flag_correct == old(self).flag_correct,
            final(self).first_uncover_pending == old(self).first_uncover_pending,
            revealed_all(old(self).tiles@, final(self).tiles@),
    {
        self.outcome = if won {
            Outcome::Won
        } else {
            Outcome::Lost
        };
        let n = self.tiles.len();
        let mut i: usize = 0;
        while i < n
            invariant
                i <= n,
                n == self.tiles@.len(),
                n == old(self).tiles@.len(),
                self.width == old(self).width,
                self.height == old(self).height,
                self.mine_total == old(self).mine_total,
                self.flag_total == old(self).flag_total,
                self.flag_correct == old(self).flag_correct,
                self.first_uncover_pending == old(self).first_uncover_pending,
                self.outcome == (if won {
                    Outcome::Won
                } else {
                    Outcome::Lost
                }),
                forall|j: int|
                    0 <= j < i ==> #[trigger] self.tiles@[j] == revealed_tile(old(self).tiles@[j]),
                forall|j: int| i <= j < n ==> #[trigger] self.tiles@[j] == old(self).tiles@[j],
            decreases n - i,
        {
            let t = self.tiles[i];
            let ns = if t.state == State::Flagged {
                State::FlagRevealed
            } else {
                State::Uncovered
            };
            self.tiles[i] = Tile { state: ns, mine: t.mine, mines_surrounding: t.mines_surrounding };
            i += 1;
        }
        proof {
            lemma_adj_mines_congruent(
                old(self).tiles@,
                self.tiles@,
                self.width as int,
                self.height as int,
            );
            lemma_count_p_congruent(
                self.tiles@,
                TilePred::IsMine,
                old(self).tiles@,
                TilePred::IsMine,
            );
        }
    }

    /// Opens every tile of the connected zero-adjacency region around the
    /// already-opened start cell, plus the covered border of that region,
    /// with an explicit deduplicated frontier.
    pub fn clear_zeros(&mut self, starting_pos: (usize, usize))
        requires
            old(self).width >= 1,
            old(self).height >= 1,
            old(self).tiles@.len() == old(self).width * old(self).height,
            starting_pos.0 < old(self).width,
            starting_pos.1 < old(self).height,
            old(self).tiles@[starting_pos.1 * old(self).width
                + starting_pos.0].mines_surrounding == 0,
            old(self).tiles@[starting_pos.1 * old(self).width + starting_pos.0].state
                == State::Uncovered,
        ensures
            final(self).width == old(self).width,
            final(self).height == old(self).height,
            final(self).mine_total == old(self).mine_total,
            final(self).flag_total == old(self).flag_total,
            final(self).flag_correct == old(self).flag_correct,
            final(self).outcome == old(self).outcome,
            final(self).first_uncover_pending == old(self).first_uncover_pending,
            same_mines(old(self).tiles@, final(self).tiles@),
            opened_only(old(self).tiles@, final(self).tiles@),
            forall|j: int|
                0 <= j < old(self).tiles@.len() && (#[trigger] final(self).tiles@[j]).state != old(self).tiles@[j].state ==> in_region(
                    old(self).tiles@,
                    old(self).width as int,
                    starting_pos.1 * old(self).width + starting_pos.0,
                    j,
                ),
            forall|j: int|
                0 <= j < old(self).tiles@.len() && in_region(
                    old(self).tiles@,
                    old(self).width as int,
                    starting_pos.1 * old(self).width + starting_pos.0,
                    j,
                ) ==> (#[trigger] final(self).tiles@[j]).state == State::Uncovered,
    {
        let w = self.width;
        let h = self.height;
        let n = self.tiles.len();
        proof {
            assert(n == w * h);
            lemma_flat_in_range(w as int, h as int, starting_pos.0 as int, starting_pos.1 as int);
        }
        let start = get_1d(starting_pos.0, starting_pos.1, w);
        proof {
            lemma_region_start(self.tiles@, w as int, start as int);
        }
        let ghost s0 = self.tiles@;
        let mut working: Vec<usize> = Vec::new();
        working.push(start);
        proof {
            assert(working@[0] == start);
            assert forall|j: int|
                0 <= j < n && in_region(s0, w as int, start as int, j) && self.tiles@[j].state
                    != State::Uncovered implies frontier_reaches(
                s0,
                w as int,
                self.tiles@,
                working@,
                j,
            ) by {
                let p = choose|p: Seq<int>|
                    zero_path(s0, w as int, p) && p[0] == start && p.last() == j;
                assert(zero_path(s0, w as int, p) && p[0] == working@[0] && p.last() == j);
                assert(forall|m: int|
                    1 <= m < p.len() ==> self.tiles@[#[trigger] p[m]].state == State::Covered);
            }
        }
        while working.len() > 0
            invariant
                w >= 1,
                h >= 1,
                n == w * h,
                self.width == w,
                self.height == h,
                self.mine_total == old(self).mine_total,
                self.flag_total == old(self).flag_total,
                self.flag_correct == old(self).flag_correct,
                self.outcome == old(self).outcome,
                self.first_uncover_pending == old(self).first_uncover_pending,
                self.tiles@.len() == n,
                s0 == old(self).tiles@,
                s0.len() == n,
                start < n,
                start == starting_pos.1 * w + starting_pos.0,
                same_mines(s0, self.tiles@),
                opened_only(s0, self.tiles@),
                self.tiles@[start as int].state == State::Uncovered,
                forall|j: int|
                    0 <= j < n && (#[trigger] self.tiles@[j]).state != s0[j].state ==> in_region(
                        s0,
                        w as int,
                        start as int,
                        j,
                    ),
                forall|k: int|
                    0 <= k < working@.len() ==> {
                        &&& (#[trigger] working@[k]) < n
                        &&& self.tiles@[working@[k] as int].state == State::Uncovered
                        &&& self.tiles@[working@[k] as int].mines_surrounding == 0
                        &&& in_region(s0, w as int, start as int, working@[k] as int)
                    },
                forall|j: int|
                    0 <= j < n && in_region(s0, w as int, start as int, j) ==> ((#[trigger] self.tiles@[j]).state
                        == State::Uncovered || frontier_reaches(
                        s0,
                        w as int,
                        self.tiles@,
                        working@,
                        j,
                    )),
            decreases 2 * count_p(self.tiles@, TilePred::IsCovered) + working@.len(),
        {
            let ghost tiles_entry = self.tiles@;
            let ghost working_entry = working@;
            // gather every neighbour of the current frontier
            let mut surroundings: Vec<usize> = Vec::new();
            let mut wi: usize = 0;
            #[verifier::loop_isolation(false)]
            while wi < working.len()
                invariant
                    wi <= working@.len(),
                    forall|c: usize|
                        #[trigger] surroundings@.contains(c) ==> c < n && (s0[c as int].state
                            == State::Covered ==> in_region(s0, w as int, start as int, c as int)),
                    forall|kk: int, c: int|
                        0 <= kk < wi && 0 <= c < n && adjacent(
                            w as int,
                            working@[kk] as int,
                            c,
                        ) ==> surroundings@.contains(c as usize),
                decreases working@.len() - wi,
            {
                let t = working[wi];
                let nbrs = get_1d_manhattan(t, w, h);
                let mut ni: usize = 0;
                #[verifier::loop_isolation(false)]
                while ni < nbrs.len()
                    invariant
                        ni <= nbrs@.len(),
                        forall|c: usize|
                            #[trigger] nbrs@.contains(c) ==> c < n && adjacent(
                                w as int,
                                t as int,
                                c as int,
                            ),
                        forall|j2: int|
                            0 <= j2 < n && adjacent(w as int, t as int, j2) ==> nbrs@.contains(
                                j2 as usize,
                            ),
                        forall|c: usize|
                            #[trigger] surroundings@.contains(c) ==> c < n && (s0[c as int].state
                                == State::Covered ==> in_region(
                                s0,
                                w as int,
                                start as int,
                                c as int,
                            )),
                        forall|kk: int, c: int|
                            0 <= kk < wi && 0 <= c < n && adjacent(
                                w as int,
                                working@[kk] as int,
                                c,
                            ) ==> surroundings@.contains(c as usize),
                        forall|m: int| 0 <= m < ni ==> surroundings@.contains(#[trigger] nbrs@[m]),
                    decreases nbrs@.len() - ni,
                {
                    let nb = nbrs[ni];
                    proof {
                        assert(nbrs@.contains(nbrs@[ni as int]));
                        if s0[nb as int].state == State::Covered {
                            lemma_region_extend(
                                s0,
                                w as int,
                                start as int,
                                t as int,
                                nb as int,
                            );
                        }
                    }
                    let ghost before = surroundings@;
                    surroundings.push(nb);
                    proof {
                        assert forall|c: usize| before.contains(c) implies #[trigger] surroundings@.contains(
                            c,
                        ) by {
                            let k = choose|k: int| 0 <= k < before.len() && before[k] == c;
                            assert(surroundings@[k] == c);
                        }
                        assert(surroundings@[before.len() as int] == nb);
                        assert(surroundings@.contains(nb));
                        assert forall|c: usize| #[trigger] surroundings@.contains(c) implies c < n
                            && (s0[c as int].state == State::Covered ==> in_region(
                            s0,
                            w as int,
                            start as int,
                            c as int,
                        )) by {
                            let k = choose|k: int|
                                0 <= k < surroundings@.len() && surroundings@[k] == c;
                            if k < before.len() {
                                assert(before[k] == c);
                                assert(before.contains(c));
                            } else {
                                assert(c == nb);
                            }
                        }
                    }
                    ni += 1;
                }
                proof {
                    assert forall|c: int|
                        0 <= c < n && adjacent(w as int, t as int, c) implies surroundings@.contains(
                        c as usize,
                    ) by {
                        assert(nbrs@.contains(c as usize));
                        let m = choose|m: int| 0 <= m < nbrs@.len() && nbrs@[m] == c as usize;
                        assert(surroundings@.contains(nbrs@[m]));
                    }
                }
                wi += 1;
            }
            // keep one copy of each neighbour, as the frontier is deduplicated
            let uniques = dedup_indices(&surroundings);
            // open the covered ones; the zero-count ones become the next frontier
            let ghost cov0 = count_p(self.tiles@, TilePred::IsCovered);
            let mut next: Vec<usize> = Vec::new();
            let mut si: usize = 0;
            #[verifier::loop_isolation(false)]
            while si < uniques.len()
                invariant
                    si <= uniques@.len(),
                    self.width == w,
                    self.height == h,
                    self.mine_total == old(self).mine_total,
                    self.flag_total == old(self).flag_total,
                    self.flag_correct == old(self).flag_correct,
                    self.outcome == old(self).outcome,
                    self.first_uncover_pending == old(self).first_uncover_pending,
                    self.tiles@.len() == n,
                    same_mines(s0, self.tiles@),
                    opened_only(s0, self.tiles@),
                    opened_only(tiles_entry, self.tiles@),
                    self.tiles@[start as int].state == State::Uncovered,
                    forall|j: int|
                        0 <= j < n && (#[trigger] self.tiles@[j]).state != s0[j].state
                            ==> in_region(s0, w as int, start as int, j),
                    forall|k: int|
                        0 <= k < si ==> (tiles_entry[uniques@[k] as int].state == State::Covered
                            ==> self.tiles@[uniques@[k] as int].state == State::Uncovered),
                    forall|c: int|
                        0 <= c < n && tiles_entry[c].state == State::Covered
                            && (#[trigger] self.tiles@[c]).state == State::Uncovered
                            && self.tiles@[c].mines_surrounding == 0 ==> next@.contains(c as usize),
                    forall|k: int|
                        0 <= k < next@.len() ==> {
                            &&& (#[trigger] next@[k]) < n
                            &&& self.tiles@[next@[k] as int].state == State::Uncovered
                            &&& self.tiles@[next@[k] as int].mines_surrounding == 0
                            &&& in_region(s0, w as int, start as int, next@[k] as int)
                        },
                    2 * count_p(self.tiles@, TilePred::IsCovered) + next@.len() <= 2 * cov0,
                decreases uniques@.len() - si,
            {
                let c0 = uniques[si];
                let ghost iter_tiles = self.tiles@;
                proof {
                    assert(uniques@.contains(uniques@[si as int]));
                }
                if self.tiles[c0].state == State::Covered {
                    proof {
                        // still covered now means never opened, so covered at entry
                        assert(self.tiles@[c0 as int].state == s0[c0 as int].state);
                        assert(tiles_entry[c0 as int].state == State::Covered);
                    }
                    let ghost before_tiles = self.tiles@;
                    let mut t2 = self.tiles[c0];
                    t2.state = State::Uncovered;
                    self.tiles[c0] = t2;
                    proof {
                        lemma_count_p_update(
                            before_tiles,
                            TilePred::IsCovered,
                            c0 as int,
                            t2,
                        );
                    }
                    if self.tiles[c0].mines_surrounding == 0 {
                        let ghost next_before = next@;
                        next.push(c0);
                        proof {
                            assert forall|c: usize| next_before.contains(c) implies #[trigger] next@.contains(
                                c,
                            ) by {
                                let k = choose|k: int|
                                    0 <= k < next_before.len() && next_before[k] == c;
                                assert(next@[k] == c);
                            }
                            assert(next@[next_before.len() as int] == c0);
                            assert(next@.contains(c0));
                        }
                    }
                }
                proof {
                    assert forall|k: int|
                        0 <= k < si + 1 && tiles_entry[uniques@[k] as int].state
                            == State::Covered implies self.tiles@[uniques@[k] as int].state
                        == State::Uncovered by {
                        if k < si {
                            assert(uniques@.contains(uniques@[k]));
                            assert(uniques@[k] < n);
                            assert(uniques@[k] != uniques@[si as int]);
                            assert(iter_tiles[uniques@[k] as int].state == State::Uncovered);
                            assert(self.tiles@[uniques@[k] as int]
                                == iter_tiles[uniques@[k] as int]);
                        } else {
                            assert(uniques@[k] == c0);
                            if iter_tiles[c0 as int].state == State::Covered {
                                assert(self.tiles@[c0 as int].state == State::Uncovered);
                            } else {
                                assert(self.tiles@[c0 as int] == iter_tiles[c0 as int]);
                                assert(iter_tiles[c0 as int].state == State::Uncovered);
                            }
                        }
                    }
                }
                si += 1;
            }
            proof {
                lemma_count_p_bounds(self.tiles@, TilePred::IsCovered);
            }
            working = next;
            proof {
                assert forall|j: int|
                    0 <= j < n && in_region(s0, w as int, start as int, j) && (#[trigger] self.tiles@[j]).state
                        != State::Uncovered implies frontier_reaches(
                    s0,
                    w as int,
                    self.tiles@,
                    working@,
                    j,
                ) by {
                    // not opened now means not opened at the frontier's entry either
                    assert(tiles_entry[j].state != State::Uncovered);
                    assert(frontier_reaches(s0, w as int, tiles_entry, working_entry, j));
                    let (k, p) = choose|k: int, p: Seq<int>|
                        #![trigger zero_path(s0, w as int, p), working_entry[k]]
                        {
                            &&& 0 <= k < working_entry.len()
                            &&& zero_path(s0, w as int, p)
                            &&& p[0] == working_entry[k]
                            &&& p.last() == j
                            &&& forall|m: int|
                                1 <= m < p.len() ==> tiles_entry[#[trigger] p[m]].state
                                    == State::Covered
                        };
                    // the walk has at least two cells, and its second cell
                    // was gathered and opened during this pass
                    assert(tiles_entry[p[0]].state == State::Uncovered);
                    assert(p.len() >= 2);
                    assert(adjacent(w as int, p[0], p[1]));
                    assert(surroundings@.contains(p[1] as usize));
                    assert(uniques@.contains(p[1] as usize));
                    let k1 = choose|k1: int| 0 <= k1 < uniques@.len() && uniques@[k1] == p[1] as usize;
                    assert(self.tiles@[p[1]].state == State::Uncovered);
                    // walk back from the end to the last cell opened so far
                    let m = lemma_last_uncovered(self.tiles@, p, p.len() - 1);
                    assert(m >= 1);
                    // the end of the walk is still covered, so the cut is proper
                    assert(j != start as int);
                    assert(s0[j].state == State::Covered);
                    assert(self.tiles@[j].state == State::Covered);
                    assert(m < p.len() - 1);
                    // the cut cell was opened in this pass with no mines around,
                    // so it sits on the new frontier
                    assert(tiles_entry[p[m]].state == State::Covered);
                    assert(self.tiles@[p[m]].state == State::Uncovered);
                    assert(s0[p[m]].mines_surrounding == 0);
                    assert(self.tiles@[p[m]].mines_surrounding == 0);
                    assert(working@.contains(p[m] as usize));
                    let k2 = choose|k2: int| 0 <= k2 < working@.len() && working@[k2] == p[m] as usize;
                    lemma_zero_path_suffix(s0, w as int, p, m);
                    let q = p.subrange(m, p.len() as int);
                    assert(q[0] == working@[k2]);
                    assert forall|mm: int| 1 <= mm < q.len() implies self.tiles@[#[trigger] q[mm]].state
                        == State::Covered by {
                        assert(q[mm] == p[m + mm]);
                    }
                    assert(zero_path(s0, w as int, q) && q.last() == j);
                }
            }
        }
        proof {
            assert forall|j: int|
                0 <= j < n && in_region(s0, w as int, start as int, j) implies (#[trigger] self.tiles@[j]).state
                == State::Uncovered by {
                if self.tiles@[j].state != State::Uncovered {
                    assert(frontier_reaches(s0, w as int, self.tiles@, working@, j));
                    assert(false);
                }
            }
        }
    }

    /// Opens the covered tile at `(x, y)`.  On the very first reveal a mine
    /// under the cursor is first moved to a random other safe cell; an
    /// opened mine otherwise loses the game; a zero-adjacency cell floods.
    #[verifier::rlimit(100)]
    fn uncover_tile(&mut self, x: usize, y: usize)
        requires
            old(self).wf(),
            old(self).outcome == Outcome::Unresolved,
            x < old(self).width,
            y < old(self).height,
            old(self).tiles@[y * old(self).width + x].state == State::Covered,
        ensures
            final(self).wf(),
            final(self).width == old(self).width,
            final(self).height == old(self).height,
            final(self).mine_total == old(self).mine_total,
            final(self).flag_total == old(self).flag_total,
            final(self).tiles@.len() == old(self).tiles@.len(),
            !final(self).first_uncover_pending,
            final(self).outcome != Outcome::Won,
            final(self).outcome == Outcome::Lost <==> (!old(self).first_uncover_pending && old(self).tiles@[y * old(self).width + x].mine),
            old(self).first_uncover_pending ==> final(self).outcome == Outcome::Unresolved,
            final(self).outcome == Outcome::Lost ==> revealed_all(
                old(self).tiles@,
                final(self).tiles@,
            ),
            final(self).outcome == Outcome::Unresolved ==> {
                &&& final(self).tiles@[y * old(self).width + x].state == State::Uncovered
                &&& !final(self).tiles@[y * old(self).width + x].mine
                &&& opened_only(old(self).tiles@, final(self).tiles@)
                &&& forall|j: int|
                    0 <= j < old(self).tiles@.len() && (#[trigger] final(self).tiles@[j]).state
                        != old(self).tiles@[j].state ==> !final(self).tiles@[j].mine
            },
            // the first-click relocation moves the mine to exactly one other,
            // previously safe cell
            (old(self).first_uncover_pending && old(self).tiles@[y * old(self).width + x].mine)
                ==> exists|r: int|
                0 <= r < old(self).tiles@.len() && r != y * old(self).width + x && !old(self).tiles@[r].mine && (#[trigger] final(self).tiles@[r]).mine && (forall|j: int|
                    0 <= j < old(self).tiles@.len() && j != y * old(self).width + x && j != r
                        ==> final(self).tiles@[j].mine == old(self).tiles@[j].mine),
            !(old(self).first_uncover_pending && old(self).tiles@[y * old(self).width + x].mine)
                ==> same_mines(old(self).tiles@, final(self).tiles@) && final(self).flag_correct
                == old(self).flag_correct,
            !old(self).tiles@[y * old(self).width + x].mine ==> forall|j: int|
                0 <= j < old(self).tiles@.len() && (#[trigger] final(self).tiles@[j]).state != old(self).tiles@[j].state ==> in_region(
                    old(self).tiles@,
                    old(self).width as int,
                    y * old(self).width + x,
                    j,
                ),
            !old(self).tiles@[y * old(self).width + x].mine ==> forall|j: int|
                0 <= j < old(self).tiles@.len() && in_region(
                    old(self).tiles@,
                    old(self).width as int,
                    y * old(self).width + x,
                    j,
                ) ==> (#[trigger] final(self).tiles@[j]).state == State::Uncovered,
    {
        let w = self.width;
        let h = self.height;
        let n = self.tiles.len();
        proof {
            assert(n == w * h);
            lemma_flat_in_range(w as int, h as int, x as int, y as int);
        }
        let pos = get_1d(x, y, w);
        let ghost s0 = self.tiles@;
        let ghost mut host: int = 0;
        let ghost mut relocated: Seq<Tile> = Seq::empty();
        if self.tiles[pos].mine && self.first_uncover_pending {
            // first-click safety: move this mine to a random other safe cell
            let mut t = self.tiles[pos];
            t.mine = false;
            self.tiles[pos] = t;
            proof {
                lemma_count_p_update(s0, TilePred::IsMine, pos as int, t);
                lemma_count_p_update(s0, TilePred::IsFlagged, pos as int, t);
                lemma_count_p_update(s0, TilePred::IsFlaggedMine, pos as int, t);
            }
            let ghost s1 = self.tiles@;
            let mut candidates: Vec<usize> = Vec::new();
            let mut j: usize = 0;
            while j < n
                invariant
                    j <= n,
                    n == self.tiles@.len(),
                    pos < n,
                    self.tiles@ == s1,
                    forall|k: int|
                        0 <= k < candidates@.len() ==> (#[trigger] candidates@[k]) < n
                            && !s1[candidates@[k] as int].mine && candidates@[k] != pos,
                    forall|m: int|
                        0 <= m < j && !(#[trigger] s1[m]).mine && m != pos
                            ==> candidates@.contains(m as usize),
                decreases n - j,
            {
                if !self.tiles[j].mine && j != pos {
                    let ghost before = candidates@;
                    candidates.push(j);
                    proof {
                        assert forall|m: int|
                            0 <= m < j + 1 && !(#[trigger] s1[m]).mine && m != pos implies
                            candidates@.contains(m as usize) by {
                            if m < j {
                                assert(before.contains(m as usize));
                                let k = choose|k: int| 0 <= k < before.len() && before[k] == m as usize;
                                assert(candidates@[k] == m as usize);
                            } else {
                                assert(candidates@[candidates@.len() - 1] == j);
                            }
                        }
                    }
                }
                j += 1;
            }
            proof {
                // at least one safe cell other than the clicked one exists
                lemma_count_p_complement(s1, TilePred::IsMine, TilePred::IsSafe);
                let jw = lemma_count_p_other(s1, TilePred::IsSafe, pos as int);
                assert(candidates@.contains(jw as usize));
            }
            let repl = pick_random(&candidates);
            proof {
                let k = choose|k: int| 0 <= k < candidates@.len() && candidates@[k] == repl;
                assert(repl < n && !s1[repl as int].mine && repl != pos);
            }
            let mut t2 = self.tiles[repl];
            t2.mine = true;
            self.tiles[repl] = t2;
            if t2.state == State::Flagged {
                proof {
                    lemma_count_p_lt(s1, TilePred::IsFlaggedMine, TilePred::IsFlagged, repl as int);
                }
                self.flag_correct += 1;
            }
            proof {
                lemma_count_p_update(s1, TilePred::IsMine, repl as int, t2);
                lemma_count_p_update(s1, TilePred::IsFlagged, repl as int, t2);
                lemma_count_p_update(s1, TilePred::IsFlaggedMine, repl as int, t2);
            }
            self.recompute_adjacency();
            proof {
                let s2 = s1.update(repl as int, t2);
                lemma_count_p_congruent(self.tiles@, TilePred::IsMine, s2, TilePred::IsMine);
                lemma_count_p_congruent(self.tiles@, TilePred::IsFlagged, s2, TilePred::IsFlagged);
                lemma_count_p_congruent(
                    self.tiles@,
                    TilePred::IsFlaggedMine,
                    s2,
                    TilePred::IsFlaggedMine,
                );
                host = repl as int;
                relocated = self.tiles@;
                assert(!relocated[pos as int].mine);
                assert(relocated[host].mine);
                assert(0 <= host < n && host != pos && !s0[host].mine);
                assert forall|j: int|
                    0 <= j < n && j != pos && j != host implies (#[trigger] relocated[j]).mine
                    == s0[j].mine by {
                    assert(relocated[j].mine == s2[j].mine);
                }
            }
        } else if self.tiles[pos].mine {
            self.end_game(false);
            return;
        }
        self.first_uncover_pending = false;
        let ghost sa = self.tiles@;
        let mut t3 = self.tiles[pos];
        t3.state = State::Uncovered;
        self.tiles[pos] = t3;
        proof {
            lemma_count_p_update(sa, TilePred::IsMine, pos as int, t3);
            lemma_count_p_update(sa, TilePred::IsFlagged, pos as int, t3);
            lemma_count_p_update(sa, TilePred::IsFlaggedMine, pos as int, t3);
            lemma_adj_mines_congruent(sa, self.tiles@, w as int, h as int);
        }
        let ghost sb = self.tiles@;
        proof {
            assert forall|i: int|
                0 <= i < sb.len() implies (#[trigger] sb[i]).mines_surrounding == adj_mines(
                sb,
                w as int,
                h as int,
                i % (w as int),
                i / (w as int),
            ) by {
                assert(sb[i].mines_surrounding == sa[i].mines_surrounding);
                assert(sa[i].mines_surrounding == adj_mines(
                    sa,
                    w as int,
                    h as int,
                    i % (w as int),
                    i / (w as int),
                ));
            }
        }
        if t3.mines_surrounding == 0 {
            self.clear_zeros((x, y));
            proof {
                lemma_count_p_congruent(
                    self.tiles@,
                    TilePred::IsMine,
                    sb,
                    TilePred::IsMine,
                );
                lemma_count_p_congruent(
                    self.tiles@,
                    TilePred::IsFlagged,
                    sb,
                    TilePred::IsFlagged,
                );
                lemma_count_p_congruent(
                    self.tiles@,
                    TilePred::IsFlaggedMine,
                    sb,
                    TilePred::IsFlaggedMine,
                );
                lemma_adj_mines_congruent(sb, self.tiles@, w as int, h as int);
            }
        }
        proof {
            if !s0[pos as int].mine {
                assert forall|j: int|
                    0 <= j < s0.len() && (#[trigger] self.tiles@[j]).state != s0[j].state implies
                    in_region(s0, w as int, pos as int, j) by {
                    if j == pos {
                        lemma_region_start(s0, w as int, pos as int);
                    } else {
                        lemma_region_same_but_start(s0, sb, w as int, pos as int, j);
                    }
                }
                assert forall|j: int|
                    0 <= j < s0.len() && in_region(s0, w as int, pos as int, j) implies (
                #[trigger] self.tiles@[j]).state == State::Uncovered by {
                    if j != pos {
                        let p = choose|p: Seq<int>|
                            zero_path(s0, w as int, p) && p[0] == pos && p.last() == j;
                        assert(p.len() >= 2);
                        assert(s0[pos as int].mines_surrounding == 0);
                        lemma_region_uncover_start(s0, sb, w as int, pos as int, j);
                    }
                }
            }
            // an opened tile is never a mine: it lies in the flood region of
            // a safe start under a correct adjacency labelling
            assert forall|j: int|
                0 <= j < s0.len() && (#[trigger] self.tiles@[j]).state != s0[j].state implies
                !self.tiles@[j].mine by {
                if j == pos {
                    assert(!sb[pos as int].mine);
                } else {
                    assert(sb[j].state == s0[j].state);
                    lemma_region_safe(sb, w as int, h as int, pos as int, j);
                    assert(!sb[j].mine);
                }
            }
            if old(self).first_uncover_pending && s0[pos as int].mine {
                assert(self.tiles@[host].mine);
                assert forall|j: int|
                    0 <= j < s0.len() && j != pos && j != host implies (#[trigger] self.tiles@[j]).mine
                    == s0[j].mine by {
                    assert(self.tiles@[j].mine == sb[j].mine);
                    assert(sb[j].mine == relocated[j].mine);
                }
            }
        }
    }

    /// The single command entry point: `Uncover` reveals (or chords on an
    /// open tile), `Flag` toggles a flag (or chords on an open tile).  A
    /// finished game ignores every command; a coordinate off the grid is an
    /// error.  After the command the win rule is re-evaluated: the game is
    /// won exactly when every mine is correctly flagged or every safe tile
    /// is uncovered.
    #[verifier::rlimit(100)]
    pub fn push_state(&mut self, x: usize, y: usize, update: PushState) -> (res: Result<
        (),
        BoardError,
    >)
        requires
            old(self).wf(),
        ensures
            final(self).wf(),
            final(self).width == old(self).width,
            final(self).height == old(self).height,
            final(self).mine_total == old(self).mine_total,
            final(self).tiles@.len() == old(self).tiles@.len(),
            // a finished game never changes again
            old(self).outcome != Outcome::Unresolved ==> *final(self) == *old(self) && res is Ok,
            // a coordinate off the grid is rejected and changes nothing
            res is Err <==> (old(self).outcome == Outcome::Unresolved && !old(self).in_bounds(
                x as int,
                y as int,
            )),
            res is Err ==> (res matches Err(BoardError::OutOfBounds) && *final(self) == *old(self)),
            // the safety rule: the very first command can never lose
            old(self).first_uncover_pending ==> final(self).outcome != Outcome::Lost,
            final(self).first_uncover_pending ==> old(self).first_uncover_pending,
            // the first reveal consumes the safety rule
            (old(self).outcome == Outcome::Unresolved && old(self).in_bounds(x as int, y as int)
                && old(self).tiles@[old(self).pos_of(x as int, y as int)].state == State::Covered
                && update == PushState::Uncover) ==> !final(self).first_uncover_pending,
            // the game is won exactly when, at rest, the flags or the
            // uncovered safe tiles are complete
            (old(self).outcome == Outcome::Unresolved && res is Ok) ==> (final(self).outcome
                == Outcome::Won <==> (final(self).outcome != Outcome::Lost && (final(self).win_by_flags() || final(self).win_by_reveal()))),
            // winning by a command that toggles no flag shows the board:
            // old flags stay visible, everything else is opened
            (old(self).outcome == Outcome::Unresolved && final(self).outcome == Outcome::Won && !(
            old(self).in_bounds(x as int, y as int) && update == PushState::Flag && (old(self).tiles@[old(self).pos_of(x as int, y as int)].state == State::Flagged || (old(self).tiles@[old(self).pos_of(x as int, y as int)].state == State::Covered
                && old(self).flag_total < old(self).mine_total)))) ==> revealed_states(
                old(self).tiles@,
                final(self).tiles@,
            ),
            // a loss reveals the whole board and keeps the flag counters
            (old(self).outcome == Outcome::Unresolved && final(self).outcome == Outcome::Lost)
                ==> revealed_all(old(self).tiles@, final(self).tiles@) && final(self).flag_total
                == old(self).flag_total && final(self).flag_correct == old(self).flag_correct
                && !old(self).first_uncover_pending,
            // revealing a covered safe tile (no relocation pending) opens it
            // and only tiles of its zero region
            (old(self).outcome == Outcome::Unresolved && old(self).in_bounds(x as int, y as int)
                && old(self).tiles@[old(self).pos_of(x as int, y as int)].state == State::Covered
                && update == PushState::Uncover && !old(self).tiles@[old(self).pos_of(x as int, y as int)].mine) ==> {
                &&& final(self).outcome != Outcome::Lost
                &&& same_mines(old(self).tiles@, final(self).tiles@)
                &&& final(self).flag_total == old(self).flag_total
                &&& final(self).flag_correct == old(self).flag_correct
                &&& (final(self).outcome == Outcome::Unresolved ==> opened_only(
                    old(self).tiles@,
                    final(self).tiles@,
                ) && final(self).tiles@[old(self).pos_of(x as int, y as int)].state
                    == State::Uncovered && (forall|j: int|
                    0 <= j < old(self).tiles@.len() && (#[trigger] final(self).tiles@[j]).state
                        != old(self).tiles@[j].state ==> in_region(
                        old(self).tiles@,
                        old(self).width as int,
                        old(self).pos_of(x as int, y as int),
                        j,
                    )) && (forall|j: int|
                    0 <= j < old(self).tiles@.len() && in_region(
                        old(self).tiles@,
                        old(self).width as int,
                        old(self).pos_of(x as int, y as int),
                        j,
                    ) ==> (#[trigger] final(self).tiles@[j]).state == State::Uncovered))
            },
            // revealing a covered mine after the first move loses
            (old(self).outcome == Outcome::Unresolved && old(self).in_bounds(x as int, y as int)
                && old(self).tiles@[old(self).pos_of(x as int, y as int)].state == State::Covered
                && update == PushState::Uncover && !old(self).first_uncover_pending && old(self).tiles@[old(self).pos_of(x as int, y as int)].mine) ==> final(self).outcome
                == Outcome::Lost,
            // the first reveal relocates any mine under the cursor
            (old(self).outcome == Outcome::Unresolved && old(self).in_bounds(x as int, y as int)
                && old(self).tiles@[old(self).pos_of(x as int, y as int)].state == State::Covered
                && update == PushState::Uncover && old(self).first_uncover_pending) ==> {
                &&& final(self).outcome != Outcome::Lost
                &&& !final(self).tiles@[old(self).pos_of(x as int, y as int)].mine
                &&& (final(self).outcome == Outcome::Unresolved ==> opened_only(
                    old(self).tiles@,
                    final(self).tiles@,
                ) && final(self).tiles@[old(self).pos_of(x as int, y as int)].state
                    == State::Uncovered)
                &&& (old(self).tiles@[old(self).pos_of(x as int, y as int)].mine
                    ==> exists|r: int|
                    0 <= r < old(self).tiles@.len() && r != old(self).pos_of(x as int, y as int)
                        && !old(self).tiles@[r].mine && (#[trigger] final(self).tiles@[r]).mine
                        && (forall|j: int|
                        0 <= j < old(self).tiles@.len() && j != old(self).pos_of(x as int, y as int)
                            && j != r ==> final(self).tiles@[j].mine == old(self).tiles@[j].mine))
            },
            // flagging a covered tile within the quota
            (old(self).outcome == Outcome::Unresolved && old(self).in_bounds(x as int, y as int)
                && old(self).tiles@[old(self).pos_of(x as int, y as int)].state == State::Covered
                && update == PushState::Flag && old(self).flag_total < old(self).mine_total) ==> {
                &&& final(self).flag_total == old(self).flag_total + 1
                &&& final(self).flag_correct == old(self).flag_correct + (if old(self).tiles@[old(self).pos_of(x as int, y as int)].mine {
                    1int
                } else {
                    0int
                })
                &&& final(self).outcome != Outcome::Lost
                &&& same_mines(old(self).tiles@, final(self).tiles@)
                &&& (final(self).outcome == Outcome::Unresolved ==> final(self).tiles@ == old(self).tiles@.update(
                    old(self).pos_of(x as int, y as int),
                    (Tile {
                        state: State::Flagged,
                        mine: old(self).tiles@[old(self).pos_of(x as int, y as int)].mine,
                        mines_surrounding: old(self).tiles@[old(self).pos_of(
                            x as int,
                            y as int,
                        )].mines_surrounding,
                    }),
                ))
                &&& (final(self).outcome == Outcome::Won ==> revealed_all(
                    old(self).tiles@.update(
                        old(self).pos_of(x as int, y as int),
                        (Tile {
                            state: State::Flagged,
                            mine: old(self).tiles@[old(self).pos_of(x as int, y as int)].mine,
                            mines_surrounding: old(self).tiles@[old(self).pos_of(
                                x as int,
                                y as int,
                            )].mines_surrounding,
                        }),
                    ),
                    final(self).tiles@,
                ))
            },
            // the flag quota: a flag attempt with all flags placed is a no-op
            (old(self).outcome == Outcome::Unresolved && old(self).in_bounds(x as int, y as int)
                && old(self).tiles@[old(self).pos_of(x as int, y as int)].state == State::Covered
                && update == PushState::Flag && old(self).flag_total == old(self).mine_total
                && !old(self).win_by_flags() && !old(self).win_by_reveal()) ==> *final(self)
                == *old(self),
            // unflagging is always allowed
            (old(self).outcome == Outcome::Unresolved && old(self).in_bounds(x as int, y as int)
                && old(self).tiles@[old(self).pos_of(x as int, y as int)].state == State::Flagged
                && update == PushState::Flag) ==> {
                &&& final(self).flag_total == old(self).flag_total - 1
                &&& final(self).flag_correct == old(self).flag_correct - (if old(self).tiles@[old(self).pos_of(x as int, y as int)].mine {
                    1int
                } else {
                    0int
                })
                &&& final(self).outcome != Outcome::Lost
                &&& same_mines(old(self).tiles@, final(self).tiles@)
                &&& (final(self).outcome == Outcome::Unresolved ==> final(self).tiles@ == old(self).tiles@.update(
                    old(self).pos_of(x as int, y as int),
                    (Tile {
                        state: State::Covered,
                        mine: old(self).tiles@[old(self).pos_of(x as int, y as int)].mine,
                        mines_surrounding: old(self).tiles@[old(self).pos_of(
                            x as int,
                            y as int,
                        )].mines_surrounding,
                    }),
                ))
                &&& (final(self).outcome == Outcome::Won ==> revealed_all(
                    old(self).tiles@.update(
                        old(self).pos_of(x as int, y as int),
                        (Tile {
                            state: State::Covered,
                            mine: old(self).tiles@[old(self).pos_of(x as int, y as int)].mine,
                            mines_surrounding: old(self).tiles@[old(self).pos_of(
                                x as int,
                                y as int,
                            )].mines_surrounding,
                        }),
                    ),
                    final(self).tiles@,
                ))
            },
            // revealing a flagged tile is a no-op
            (old(self).outcome == Outcome::Unresolved && old(self).in_bounds(x as int, y as int)
                && old(self).tiles@[old(self).pos_of(x as int, y as int)].state == State::Flagged
                && update == PushState::Uncover && !old(self).win_by_flags() && !old(self).win_by_reveal()) ==> *final(self) == *old(self),
            // chording with a mismatched flag count is a no-op
            (old(self).outcome == Outcome::Unresolved && old(self).in_bounds(x as int, y as int)
                && old(self).tiles@[old(self).pos_of(x as int, y as int)].state == State::Uncovered
                && adj_flags(old(self).tiles@, old(self).width as int, old(self).height as int, x as int, y as int)
                != old(self).tiles@[old(self).pos_of(x as int, y as int)].mines_surrounding
                && !old(self).win_by_flags() && !old(self).win_by_reveal()) ==> *final(self)
                == *old(self),
            // chording with a matching flag count onto a covered, unflagged
            // mine neighbour loses the game
            (old(self).outcome == Outcome::Unresolved && old(self).in_bounds(x as int, y as int)
                && old(self).tiles@[old(self).pos_of(x as int, y as int)].state == State::Uncovered
                && adj_flags(old(self).tiles@, old(self).width as int, old(self).height as int, x as int, y as int)
                == old(self).tiles@[old(self).pos_of(x as int, y as int)].mines_surrounding && (
            exists|j: int|
                0 <= j < old(self).tiles@.len() && adjacent(
                    old(self).width as int,
                    old(self).pos_of(x as int, y as int),
                    j,
                ) && (#[trigger] old(self).tiles@[j]).state == State::Covered && old(self).tiles@[j].mine)) ==> final(self).outcome == Outcome::Lost,
            // chording keeps the mines and the flag counters, and only opens
            // covered neighbours
            (old(self).outcome == Outcome::Unresolved && old(self).in_bounds(x as int, y as int)
                && old(self).tiles@[old(self).pos_of(x as int, y as int)].state
                == State::Uncovered) ==> {
                &&& same_mines(old(self).tiles@, final(self).tiles@)
                &&& final(self).flag_total == old(self).flag_total
                &&& final(self).flag_correct == old(self).flag_correct
                &&& (final(self).outcome == Outcome::Unresolved ==> opened_only(
                    old(self).tiles@,
                    final(self).tiles@,
                ))
            },
            // chording with a matching flag count opens every covered
            // neighbour of the tile
            (old(self).outcome == Outcome::Unresolved && old(self).in_bounds(x as int, y as int)
                && old(self).tiles@[old(self).pos_of(x as int, y as int)].state == State::Uncovered
                && adj_flags(old(self).tiles@, old(self).width as int, old(self).height as int, x as int, y as int)
                == old(self).tiles@[old(self).pos_of(x as int, y as int)].mines_surrounding
                && final(self).outcome == Outcome::Unresolved) ==> forall|j: int|
                0 <= j < old(self).tiles@.len() && adjacent(
                    old(self).width as int,
                    old(self).pos_of(x as int, y as int),
                    j,
                ) && old(self).tiles@[j].state == State::Covered ==> (#[trigger] final(self).tiles@[j]).state == State::Uncovered,
    {
        if self.outcome != Outcome::Unresolved {
            return Ok(());
        }
        if x >= self.width || y >= self.height {
            return Err(BoardError::OutOfBounds);
        }
        let w = self.width;
        let h = self.height;
        let n = self.tiles.len();
        proof {
            assert(n == w * h);
            lemma_flat_in_range(w as int, h as int, x as int, y as int);
        }
        let pos = get_1d(x, y, w);
        let t0 = self.tiles[pos];
        match (t0.state, update) {
            (State::Covered, PushState::Uncover) => {
                self.uncover_tile(x, y);
            },
            (State::Uncovered, _) => {
                proof {
                    // an open tile rules out a pending first reveal
                    assert(!self.first_uncover_pending);
                }
                let n0 = self.tiles.len();
                proof {
                    assert(n0 == w * h);
                }
                let flags = count_adjacent_flags(&self.tiles, w, h, x, y);
                if flags == t0.mines_surrounding {
                    let nbrs = get_1d_manhattan(pos, w, h);
                    let ghost s0 = old(self).tiles@;
                    let mut k: usize = 0;
                    while k < nbrs.len()
                        invariant
                            k <= nbrs@.len(),
                            self.wf(),
                            w >= 1,
                            h >= 1,
                            self.width == w,
                            self.height == h,
                            self.mine_total == old(self).mine_total,
                            self.flag_total == old(self).flag_total,
                            self.flag_correct == old(self).flag_correct,
                            self.tiles@.len() == s0.len(),
                            s0 == old(self).tiles@,
                            s0.len() == w * h,
                            !self.first_uncover_pending,
                            self.outcome != Outcome::Won,
                            forall|c: usize| #[trigger] nbrs@.contains(c) ==> c < s0.len(),
                            forall|j2: int|
                                0 <= j2 < s0.len() && adjacent(w as int, pos as int, j2)
                                    ==> nbrs@.contains(j2 as usize),
                            forall|m: int|
                                0 <= m < k && s0[nbrs@[m] as int].state == State::Covered
                                    && self.outcome == Outcome::Unresolved
                                    ==> self.tiles@[(#[trigger] nbrs@[m]) as int].state
                                    == State::Uncovered,
                            self.outcome == Outcome::Unresolved ==> same_mines(s0, self.tiles@)
                                && opened_only(s0, self.tiles@),
                            self.outcome == Outcome::Unresolved ==> forall|j: int|
                                0 <= j < s0.len() && (#[trigger] self.tiles@[j]).state
                                    != s0[j].state ==> !self.tiles@[j].mine,
                            self.outcome == Outcome::Unresolved ==> forall|m: int|
                                0 <= m < k ==> !(s0[(#[trigger] nbrs@[m]) as int].state
                                    == State::Covered && s0[nbrs@[m] as int].mine),
                            self.outcome == Outcome::Lost ==> revealed_all(s0, self.tiles@),
                            self.outcome == Outcome::Unresolved || self.outcome == Outcome::Lost,
                        decreases nbrs@.len() - k,
                    {
                        let c0 = nbrs[k];
                        let ghost prev_iter = self.tiles@;
                        let ghost outcome_iter = self.outcome;
                        proof {
                            assert(nbrs@.contains(nbrs@[k as int]));
                        }
                        if self.tiles[c0].state == State::Covered {
                            proof {
                                // a lost game has no covered tile left
                                if self.outcome == Outcome::Lost {
                                    assert(self.tiles@[c0 as int]
                                        == revealed_tile(s0[c0 as int]));
                                    assert(false);
                                }
                                lemma_coords(w as int, h as int, c0 as int);
                            }
                            let cxy = get_2d(c0, w);
                            let ghost prev = self.tiles@;
                            let ghost prev_outcome = self.outcome;
                            self.uncover_tile(cxy.0, cxy.1);
                            proof {
                                if self.outcome == Outcome::Lost {
                                    assert forall|j: int|
                                        0 <= j < s0.len() implies #[trigger] self.tiles@[j]
                                        == revealed_tile(s0[j]) by {
                                        assert(self.tiles@[j] == revealed_tile(prev[j]));
                                    }
                                }
                            }
                        }
                        proof {
                            assert forall|m: int|
                                0 <= m < k + 1 && s0[nbrs@[m] as int].state == State::Covered
                                    && self.outcome == Outcome::Unresolved implies self.tiles@[(
                            #[trigger] nbrs@[m]) as int].state == State::Uncovered by {
                                assert(nbrs@.contains(nbrs@[m]));
                                assert(outcome_iter == Outcome::Unresolved);
                                if m < k {
                                    assert(prev_iter[nbrs@[m] as int].state == State::Uncovered);
                                } else {
                                    assert(prev_iter[nbrs@[m] as int].state != State::Covered
                                        ==> prev_iter[nbrs@[m] as int].state == State::Uncovered);
                                }
                            }
                            assert forall|j: int|
                                0 <= j < s0.len() && self.outcome == Outcome::Unresolved && (
                            #[trigger] self.tiles@[j]).state != s0[j].state implies !self.tiles@[j].mine by {
                                assert(outcome_iter == Outcome::Unresolved);
                                if self.tiles@[j].state == prev_iter[j].state {
                                    assert(prev_iter[j].state != s0[j].state);
                                    assert(!prev_iter[j].mine);
                                }
                            }
                            assert forall|m: int|
                                0 <= m < k + 1 && self.outcome == Outcome::Unresolved implies !(s0[(
                            #[trigger] nbrs@[m]) as int].state == State::Covered && s0[nbrs@[m] as int].mine) by {
                                assert(nbrs@.contains(nbrs@[m]));
                                if s0[nbrs@[m] as int].state == State::Covered && s0[nbrs@[m] as int].mine {
                                    // the covered mine neighbour would now be
                                    // open, safe and a mine at once
                                    assert(self.tiles@[nbrs@[m] as int].state
                                        == State::Uncovered);
                                    assert(self.tiles@[nbrs@[m] as int].mine);
                                    assert(!self.tiles@[nbrs@[m] as int].mine);
                                }
                            }
                        }
                        k += 1;
                    }
                    proof {
                        if self.outcome == Outcome::Unresolved {
                            assert forall|j: int|
                                0 <= j < s0.len() && adjacent(w as int, pos as int, j)
                                    && s0[j].state == State::Covered implies (
                            #[trigger] self.tiles@[j]).state == State::Uncovered by {
                                assert(nbrs@.contains(j as usize));
                                let m = choose|m: int|
                                    0 <= m < nbrs@.len() && nbrs@[m] == j as usize;
                                assert(self.tiles@[nbrs@[m] as int].state == State::Uncovered);
                            }
                            assert forall|j: int|
                                0 <= j < s0.len() && adjacent(w as int, pos as int, j)
                                    && (#[trigger] s0[j]).state == State::Covered implies !s0[j].mine by {
                                assert(nbrs@.contains(j as usize));
                                let m = choose|m: int|
                                    0 <= m < nbrs@.len() && nbrs@[m] == j as usize;
                                assert(!(s0[nbrs@[m] as int].state == State::Covered
                                    && s0[nbrs@[m] as int].mine));
                            }
                        }
                    }
                }
            },
            (State::Flagged, PushState::Flag) => {
                proof {
                    lemma_count_p_witness(self.tiles@, TilePred::IsFlagged, pos as int);
                    if self.tiles@[pos as int].mine {
                        lemma_count_p_witness(self.tiles@, TilePred::IsFlaggedMine, pos as int);
                    }
                }
                let ghost before = self.tiles@;
                proof {
                    if !before[pos as int].mine {
                        lemma_count_p_lt(before, TilePred::IsFlaggedMine, TilePred::IsFlagged, pos as int);
                    }
                }
                self.flag_total -= 1;
                self.set_tile_state(x, y, State::Covered);
                if self.tiles[pos].mine {
                    self.flag_correct -= 1;
                }
                proof {
                    let nt = self.tiles@[pos as int];
                    lemma_count_p_update(before, TilePred::IsMine, pos as int, nt);
                    lemma_count_p_update(before, TilePred::IsFlagged, pos as int, nt);
                    lemma_count_p_update(before, TilePred::IsFlaggedMine, pos as int, nt);
                    lemma_adj_mines_congruent(before, self.tiles@, w as int, h as int);
                }
            },
            (State::Covered, PushState::Flag) => {
                if self.flag_total < self.mine_total {
                    let ghost before = self.tiles@;
                    self.flag_total += 1;
                    self.set_tile_state(x, y, State::Flagged);
                    if self.tiles[pos].mine {
                        proof {
                            lemma_count_p_le(before, TilePred::IsFlaggedMine, TilePred::IsFlagged);
                        }
                        self.flag_correct += 1;
                    }
                    proof {
                        let nt = self.tiles@[pos as int];
                        lemma_count_p_update(before, TilePred::IsMine, pos as int, nt);
                        lemma_count_p_update(before, TilePred::IsFlagged, pos as int, nt);
                        lemma_count_p_update(before, TilePred::IsFlaggedMine, pos as int, nt);
                        lemma_adj_mines_congruent(before, self.tiles@, w as int, h as int);
                    }
                }
            },
            _ => {},
        }
        // re-evaluate the win rule
        let ghost at_check = self.tiles@;
        let unc = count_uncovered_safe(&self.tiles);
        if self.outcome == Outcome::Unresolved {
            if self.flag_correct == self.mine_total || unc == self.tiles.len() - self.mine_total {
                let ghost won_by_reveal = unc == self.tiles@.len() - self.mine_total;
                self.end_game(true);
                proof {
                    if won_by_reveal {
                        lemma_all_safe_uncovered(at_check);
                        lemma_count_p_congruent(
                            self.tiles@,
                            TilePred::IsUncoveredSafe,
                            at_check,
                            TilePred::IsUncoveredSafe,
                        );
                    }
                    // the reveal shows the board as it stood at the evaluation
                    assert forall|j: int|
                        0 <= j < at_check.len() implies #[trigger] self.tiles@[j]
                        == revealed_tile(at_check[j]) by {}
                    if !(old(self).in_bounds(x as int, y as int) && update == PushState::Flag && (
                    old(self).tiles@[old(self).pos_of(x as int, y as int)].state == State::Flagged
                        || (old(self).tiles@[old(self).pos_of(x as int, y as int)].state
                        == State::Covered && old(self).flag_total < old(self).mine_total))) {
                        // no flag was toggled, so only covered tiles were
                        // opened on the way to the evaluation
                        assert(opened_only(old(self).tiles@, at_check));
                        assert forall|j: int|
                            0 <= j < old(self).tiles@.len() implies (#[trigger] self.tiles@[j]).state
                            == revealed_tile(old(self).tiles@[j]).state by {
                            assert(self.tiles@[j] == revealed_tile(at_check[j]));
                        }
                    }
                }
            }
        }
        proof {
            // carry the relocation witness through the end-of-game reveal
            if old(self).outcome == Outcome::Unresolved && old(self).in_bounds(x as int, y as int)
                && old(self).tiles@[old(self).pos_of(x as int, y as int)].state == State::Covered
                && update == PushState::Uncover && old(self).first_uncover_pending && old(self).tiles@[old(self).pos_of(x as int, y as int)].mine {
                let posg = old(self).pos_of(x as int, y as int);
                assert forall|j: int|
                    0 <= j < at_check.len() implies (#[trigger] self.tiles@[j]).mine
                    == at_check[j].mine by {}
                let r = choose|r: int|
                    0 <= r < old(self).tiles@.len() && r != posg && !old(self).tiles@[r].mine && (
                    #[trigger] at_check[r]).mine && (forall|j: int|
                        0 <= j < old(self).tiles@.len() && j != posg && j != r
                            ==> at_check[j].mine == old(self).tiles@[j].mine);
                assert(self.tiles@[r].mine);
                assert forall|j: int|
                    0 <= j < old(self).tiles@.len() && j != posg && j != r implies (
                #[trigger] self.tiles@[j]).mine == old(self).tiles@[j].mine by {
                    assert(at_check[j].mine == old(self).tiles@[j].mine);
                }
            }
        }
        Ok(())
    }
}

} // verus!
