//! Row-major grid coordinates, the Moore neighbourhood, and the
//! zero-adjacency region that a flood fill uncovers.

use vstd::prelude::*;

use crate::tile::State;
use crate::tile::Tile;

verus! {

/// Row-major index of the cell in column `x`, row `y`.
pub open spec fn flat(w: int, x: int, y: int) -> int {
    y * w + x
}

/// Whether `(x, y)` names a cell of a `w` by `h` grid.
pub open spec fn in_grid(w: int, h: int, x: int, y: int) -> bool {
    0 <= x < w && 0 <= y < h
}

/// Two distinct flat indices whose cells are at Chebyshev distance one:
/// the Moore neighbourhood.
pub open spec fn adjacent(w: int, i: int, j: int) -> bool {
    &&& i != j
    &&& -1 <= j % w - i % w <= 1
    &&& -1 <= j / w - i / w <= 1
}

pub proof fn lemma_flat_in_range(w: int, h: int, x: int, y: int)
    requires
        0 <= x < w,
        0 <= y < h,
    ensures
        0 <= y * w + x < w * h,
{
    assert(0 <= y * w + x < w * h) by (nonlinear_arith)
        requires
            0 <= x < w,
            0 <= y < h,
    ;
}

pub proof fn lemma_flat_coords(w: int, x: int, y: int)
    requires
        w >= 1,
        0 <= x < w,
        0 <= y,
    ensures
        (y * w + x) % w == x,
        (y * w + x) / w == y,
{
    vstd::arithmetic::div_mod::lemma_fundamental_div_mod_converse(y * w + x, w, y, x);
}

pub proof fn lemma_coords(w: int, h: int, j: int)
    requires
        w >= 1,
        0 <= j < w * h,
    ensures
        0 <= j % w < w,
        0 <= j / w < h,
        j == (j / w) * w + j % w,
{
    vstd::arithmetic::div_mod::lemma_fundamental_div_mod(j, w);
    vstd::arithmetic::div_mod::lemma_mod_bound(j, w);
    let q = j / w;
    let r = j % w;
    assert(q < h && q >= 0 && j == q * w + r) by (nonlinear_arith)
        requires
            j == w * q + r,
            0 <= r < w,
            0 <= j < w * h,
            w >= 1,
    ;
}

/// One cell of the Moore sum: 1 when `(x, y)` is on the grid and holds a mine.
pub open spec fn mine_at(s: Seq<Tile>, w: int, h: int, x: int, y: int) -> int {
    if in_grid(w, h, x, y) && s[y * w + x].mine {
        1
    } else {
        0
    }
}

/// The number of mines in the Moore neighbourhood of `(x, y)`.
pub open spec fn adj_mines(s: Seq<Tile>, w: int, h: int, x: int, y: int) -> int {
    mine_at(s, w, h, x - 1, y - 1) + mine_at(s, w, h, x, y - 1) + mine_at(s, w, h, x + 1, y - 1)
        + mine_at(s, w, h, x - 1, y) + mine_at(s, w, h, x + 1, y) + mine_at(s, w, h, x - 1, y + 1)
        + mine_at(s, w, h, x, y + 1) + mine_at(s, w, h, x + 1, y + 1)
}

/// One cell of the flag sum: 1 when `(x, y)` is on the grid and flagged.
pub open spec fn flag_at(s: Seq<Tile>, w: int, h: int, x: int, y: int) -> int {
    if in_grid(w, h, x, y) && s[y * w + x].state == State::Flagged {
        1
    } else {
        0
    }
}

/// The number of flags in the Moore neighbourhood of `(x, y)`.
pub open spec fn adj_flags(s: Seq<Tile>, w: int, h: int, x: int, y: int) -> int {
    flag_at(s, w, h, x - 1, y - 1) + flag_at(s, w, h, x, y - 1) + flag_at(s, w, h, x + 1, y - 1)
        + flag_at(s, w, h, x - 1, y) + flag_at(s, w, h, x + 1, y) + flag_at(s, w, h, x - 1, y + 1)
        + flag_at(s, w, h, x, y + 1) + flag_at(s, w, h, x + 1, y + 1)
}

/// The Moore mine counts read only the mine markers, so they agree on any two
/// sequences whose markers agree.
pub proof fn lemma_adj_mines_congruent(s1: Seq<Tile>, s2: Seq<Tile>, w: int, h: int)
    requires
        s1.len() == s2.len(),
        s1.len() == w * h,
        w >= 1,
        h >= 1,
        forall|j: int| 0 <= j < s1.len() ==> (#[trigger] s1[j]).mine == s2[j].mine,
    ensures
        forall|x: int, y: int|
            #[trigger] adj_mines(s1, w, h, x, y) == adj_mines(s2, w, h, x, y),
{
    assert forall|x: int, y: int|
        #[trigger] adj_mines(s1, w, h, x, y) == adj_mines(s2, w, h, x, y) by {
        assert forall|a: int, b: int|
            #[trigger] mine_at(s1, w, h, a, b) == mine_at(s2, w, h, a, b) by {
            if in_grid(w, h, a, b) {
                lemma_flat_in_range(w, h, a, b);
            }
        }
    }
}


/// A mine next to a cell forces that cell's Moore mine count up.
pub proof fn lemma_adj_mines_witness(s: Seq<Tile>, w: int, h: int, t: int, j: int)
    requires
        s.len() == w * h,
        w >= 1,
        h >= 1,
        0 <= t < w * h,
        0 <= j < w * h,
        adjacent(w, t, j),
        s[j].mine,
    ensures
        adj_mines(s, w, h, t % w, t / w) >= 1,
{
    lemma_coords(w, h, t);
    lemma_coords(w, h, j);
    let tx = t % w;
    let ty = t / w;
    let jx = j % w;
    let jy = j / w;
    assert(in_grid(w, h, jx, jy));
    assert(mine_at(s, w, h, jx, jy) == 1);
    assert(!(jx == tx && jy == ty));
    assert(mine_at(s, w, h, tx - 1, ty - 1) >= 0);
    assert(mine_at(s, w, h, tx, ty - 1) >= 0);
    assert(mine_at(s, w, h, tx + 1, ty - 1) >= 0);
    assert(mine_at(s, w, h, tx - 1, ty) >= 0);
    assert(mine_at(s, w, h, tx + 1, ty) >= 0);
    assert(mine_at(s, w, h, tx - 1, ty + 1) >= 0);
    assert(mine_at(s, w, h, tx, ty + 1) >= 0);
    assert(mine_at(s, w, h, tx + 1, ty + 1) >= 0);
    assert(adj_mines(s, w, h, tx, ty) >= 1);
}

/// Under a correct adjacency labelling, the flood region of a safe start
/// cell holds no mine: every region cell either is the start or borders an
/// interior cell whose count is zero.
pub proof fn lemma_region_safe(s: Seq<Tile>, w: int, h: int, start: int, j: int)
    requires
        s.len() == w * h,
        w >= 1,
        h >= 1,
        0 <= start < s.len(),
        !s[start].mine,
        forall|i: int|
            0 <= i < s.len() ==> (#[trigger] s[i]).mines_surrounding == adj_mines(
                s,
                w,
                h,
                i % w,
                i / w,
            ),
        in_region(s, w, start, j),
    ensures
        0 <= j < s.len(),
        !s[j].mine,
{
    let p = choose|p: Seq<int>| zero_path(s, w, p) && p[0] == start && p.last() == j;
    if p.len() == 1 {
        assert(j == start);
    } else {
        let t = p[p.len() - 2];
        assert(adjacent(w, t, p[p.len() - 2 + 1]));
        assert(s[t].mines_surrounding == 0);
        if s[j].mine {
            lemma_adj_mines_witness(s, w, h, t, j);
        }
    }
}

/// A walk from a zero-adjacency start: every step is a Moore step, every
/// interior cell has no adjacent mines, and every cell after the start is
/// still covered.
pub open spec fn zero_path(s: Seq<Tile>, w: int, p: Seq<int>) -> bool {
    &&& p.len() >= 1
    &&& forall|m: int| 0 <= m < p.len() ==> 0 <= #[trigger] p[m] < s.len()
    &&& forall|m: int| 0 <= m < p.len() - 1 ==> adjacent(w, #[trigger] p[m], p[m + 1])
    &&& forall|m: int| 0 <= m < p.len() - 1 ==> s[#[trigger] p[m]].mines_surrounding == 0
    &&& forall|m: int| 1 <= m < p.len() ==> s[#[trigger] p[m]].state == State::Covered
}

/// The cells a flood fill from `start` may uncover: the connected
/// zero-adjacency region through covered cells, plus its covered border.
pub open spec fn in_region(s: Seq<Tile>, w: int, start: int, j: int) -> bool {
    exists|p: Seq<int>| zero_path(s, w, p) && p[0] == start && p.last() == j
}

pub proof fn lemma_region_start(s: Seq<Tile>, w: int, start: int)
    requires
        0 <= start < s.len(),
    ensures
        in_region(s, w, start, start),
{
    let p = seq![start];
    assert(zero_path(s, w, p));
    assert(p[0] == start && p.last() == start);
}

/// The region grows across one Moore step from a zero cell to a covered cell.
pub proof fn lemma_region_extend(s: Seq<Tile>, w: int, start: int, t: int, n: int)
    requires
        in_region(s, w, start, t),
        0 <= t < s.len(),
        0 <= n < s.len(),
        s[t].mines_surrounding == 0,
        s[n].state == State::Covered,
        adjacent(w, t, n),
    ensures
        in_region(s, w, start, n),
{
    let p = choose|p: Seq<int>| zero_path(s, w, p) && p[0] == start && p.last() == t;
    let p2 = p.push(n);
    assert(p2.last() == n);
    assert(p2[0] == start);
    assert forall|m: int| 0 <= m < p2.len() - 1 implies adjacent(w, #[trigger] p2[m], p2[m + 1]) by {
        if m < p.len() - 1 {
            assert(p2[m] == p[m] && p2[m + 1] == p[m + 1]);
        } else {
            assert(p2[m] == p.last() && p2[m + 1] == n);
        }
    }
    assert forall|m: int| 0 <= m < p2.len() - 1 implies s[#[trigger] p2[m]].mines_surrounding
        == 0 by {
        if m < p.len() - 1 {
            assert(p2[m] == p[m]);
        } else {
            assert(p2[m] == t);
        }
    }
    assert(zero_path(s, w, p2));
}

/// Changing only the state of the start cell does not shrink the region:
/// any walk in the changed sequence is a walk in the original one.
pub proof fn lemma_region_same_but_start(
    s1: Seq<Tile>,
    s2: Seq<Tile>,
    w: int,
    start: int,
    j: int,
)
    requires
        s1.len() == s2.len(),
        0 <= start < s1.len(),
        forall|m: int| 0 <= m < s1.len() && m != start ==> s1[m] == #[trigger] s2[m],
        s1[start].mines_surrounding == s2[start].mines_surrounding,
        s2[start].state != State::Covered,
        in_region(s2, w, start, j),
    ensures
        in_region(s1, w, start, j),
{
    let p = choose|p: Seq<int>| zero_path(s2, w, p) && p[0] == start && p.last() == j;
    assert forall|m: int| 1 <= m < p.len() implies s1[#[trigger] p[m]].state
        == State::Covered by {
        assert(s2[p[m]].state == State::Covered);
        assert(p[m] != start);
    }
    assert forall|m: int| 0 <= m < p.len() - 1 implies s1[#[trigger] p[m]].mines_surrounding
        == 0 by {
        if p[m] != start {
            assert(s1[p[m]] == s2[p[m]]);
        }
    }
    assert(zero_path(s1, w, p));
}

/// A frontier cell of `working` still reaches `j`: some walk of the region
/// leaves a frontier cell and runs through cells that are covered right now.
pub open spec fn frontier_reaches(
    s0: Seq<Tile>,
    w: int,
    now: Seq<Tile>,
    working: Seq<usize>,
    j: int,
) -> bool {
    exists|k: int, p: Seq<int>|
        #![trigger zero_path(s0, w, p), working[k]]
        {
            &&& 0 <= k < working.len()
            &&& zero_path(s0, w, p)
            &&& p[0] == working[k]
            &&& p.last() == j
            &&& forall|m: int| 1 <= m < p.len() ==> now[#[trigger] p[m]].state == State::Covered
        }
}

/// The index of the last cell of the walk, up to `hi`, that is open now.
pub proof fn lemma_last_uncovered(now: Seq<Tile>, p: Seq<int>, hi: int) -> (m: int)
    requires
        0 <= hi < p.len(),
        forall|mm: int| 0 <= mm < p.len() ==> 0 <= #[trigger] p[mm] < now.len(),
        now[p[0]].state != State::Covered,
        forall|mm: int| hi < mm < p.len() ==> now[#[trigger] p[mm]].state == State::Covered,
    ensures
        0 <= m <= hi,
        now[p[m]].state != State::Covered,
        forall|mm: int| m < mm < p.len() ==> now[#[trigger] p[mm]].state == State::Covered,
    decreases hi,
{
    if now[p[hi]].state != State::Covered {
        hi
    } else {
        lemma_last_uncovered(now, p, hi - 1)
    }
}

/// The index of the last occurrence of `v` in the walk, up to `hi`.
pub proof fn lemma_last_occurrence(p: Seq<int>, v: int, hi: int) -> (m: int)
    requires
        0 <= hi < p.len(),
        p[0] == v,
        forall|mm: int| hi < mm < p.len() ==> #[trigger] p[mm] != v,
    ensures
        0 <= m <= hi,
        p[m] == v,
        forall|mm: int| m < mm < p.len() ==> #[trigger] p[mm] != v,
    decreases hi,
{
    if p[hi] == v {
        hi
    } else {
        lemma_last_occurrence(p, v, hi - 1)
    }
}

/// Every suffix of a zero walk is a zero walk.
pub proof fn lemma_zero_path_suffix(s: Seq<Tile>, w: int, p: Seq<int>, m: int)
    requires
        zero_path(s, w, p),
        0 <= m < p.len(),
    ensures
        zero_path(s, w, p.subrange(m, p.len() as int)),
        p.subrange(m, p.len() as int)[0] == p[m],
        p.subrange(m, p.len() as int).last() == p.last(),
        p.subrange(m, p.len() as int).len() == p.len() - m,
{
    let q = p.subrange(m, p.len() as int);
    assert forall|mm: int| 0 <= mm < q.len() implies 0 <= #[trigger] q[mm] < s.len() by {
        assert(q[mm] == p[m + mm]);
    }
    assert forall|mm: int| 0 <= mm < q.len() - 1 implies adjacent(w, #[trigger] q[mm], q[mm + 1]) by {
        assert(q[mm] == p[m + mm] && q[mm + 1] == p[m + mm + 1]);
    }
    assert forall|mm: int| 0 <= mm < q.len() - 1 implies s[#[trigger] q[mm]].mines_surrounding
        == 0 by {
        assert(q[mm] == p[m + mm]);
    }
    assert forall|mm: int| 1 <= mm < q.len() implies s[#[trigger] q[mm]].state == State::Covered by {
        assert(q[mm] == p[m + mm]);
    }
}

/// Opening the start cell keeps every other region cell reachable: a walk
/// may revisit the start, but from its last visit onward it is a walk in
/// the changed sequence too.
#[verifier::rlimit(60)]
pub proof fn lemma_region_uncover_start(s1: Seq<Tile>, s2: Seq<Tile>, w: int, start: int, j: int)
    requires
        s1.len() == s2.len(),
        0 <= start < s1.len(),
        forall|m: int| 0 <= m < s1.len() && m != start ==> s1[m] == #[trigger] s2[m],
        s1[start].mines_surrounding == s2[start].mines_surrounding,
        in_region(s1, w, start, j),
        j != start,
    ensures
        in_region(s2, w, start, j),
{
    let p = choose|p: Seq<int>| zero_path(s1, w, p) && p[0] == start && p.last() == j;
    assert(p.last() != start);
    let m = lemma_last_occurrence(p, start, p.len() - 1);
    lemma_zero_path_suffix(s1, w, p, m);
    let q = p.subrange(m, p.len() as int);
    assert forall|mm: int| 1 <= mm < q.len() implies s2[#[trigger] q[mm]].state
        == State::Covered by {
        assert(q[mm] == p[m + mm]);
        assert(p[m + mm] != start);
        assert(s2[q[mm]] == s1[q[mm]]);
    }
    assert forall|mm: int| 0 <= mm < q.len() - 1 implies s2[#[trigger] q[mm]].mines_surrounding
        == 0 by {
        assert(q[mm] == p[m + mm]);
        if q[mm] != start {
            assert(s2[q[mm]] == s1[q[mm]]);
        }
    }
    assert forall|mm: int| 0 <= mm < q.len() implies 0 <= #[trigger] q[mm] < s2.len() by {
        assert(q[mm] == p[m + mm]);
    }
    assert(zero_path(s2, w, q));
    assert(q[0] == start && q.last() == j);
}

/// The cell in column `x`, row `y` of a grid `width` cells wide.
pub fn get_1d(x: usize, y: usize, width: usize) -> (r: usize)
    requires
        y * width + x <= usize::MAX,
    ensures
        r == y * width + x,
{
    y * width + x
}

/// The column and row of the flat index `i` in a grid `width` cells wide.
pub fn get_2d(i: usize, width: usize) -> (r: (usize, usize))
    requires
        width >= 1,
    ensures
        r.0 == i as int % width as int,
        r.1 == i as int / width as int,
{
    (i % width, i / width)
}

/// The eight Moore offsets.
pub fn get_manhattan() -> (r: Vec<(i32, i32)>)
    ensures
        r@ =~= seq![
            (-1i32, -1i32),
            (-1i32, 0i32),
            (-1i32, 1i32),
            (0i32, -1i32),
            (0i32, 1i32),
            (1i32, -1i32),
            (1i32, 0i32),
            (1i32, 1i32),
        ],
{
    vec![(-1, -1), (-1, 0), (-1, 1), (0, -1), (0, 1), (1, -1), (1, 0), (1, 1)]
}

/// Appends the neighbour of `(x, y)` at offset `(dx, dy)` when that cell lies
/// on the grid, and otherwise leaves the list alone.
fn nbr_push(r: &mut Vec<usize>, w: usize, h: usize, x: usize, y: usize, dx: i32, dy: i32)
    requires
        w >= 1,
        h >= 1,
        x < w,
        y < h,
        -1 <= dx <= 1,
        -1 <= dy <= 1,
        w * h <= usize::MAX,
    ensures
        forall|c: usize|
            #[trigger] final(r)@.contains(c) ==> old(r)@.contains(c) || (in_grid(
                w as int,
                h as int,
                x + dx,
                y + dy,
            ) && c == flat(w as int, x + dx, y + dy)),
        forall|c: usize| #[trigger] old(r)@.contains(c) ==> final(r)@.contains(c),
        in_grid(w as int, h as int, x + dx, y + dy) ==> final(r)@.contains(
            flat(w as int, x + dx, y + dy) as usize,
        ),
        final(r)@.len() <= old(r)@.len() + 1,
        (old(r)@.no_duplicates() && (in_grid(w as int, h as int, x + dx, y + dy)
            ==> !old(r)@.contains(flat(w as int, x + dx, y + dy) as usize)))
            ==> final(r)@.no_duplicates(),
{
    if dx == -1 && x == 0 {
        return;
    }
    if dy == -1 && y == 0 {
        return;
    }
    if dx == 1 && x + 1 >= w {
        return;
    }
    if dy == 1 && y + 1 >= h {
        return;
    }
    let nx = if dx < 0 {
        x - 1
    } else if dx > 0 {
        x + 1
    } else {
        x
    };
    let ny = if dy < 0 {
        y - 1
    } else if dy > 0 {
        y + 1
    } else {
        y
    };
    proof {
        lemma_flat_in_range(w as int, h as int, nx as int, ny as int);
    }
    let idx = ny * w + nx;
    let ghost before = r@;
    r.push(idx);
    proof {
        assert(in_grid(w as int, h as int, x + dx, y + dy));
        assert(idx == flat(w as int, x + dx, y + dy));
        assert forall|c: usize| #[trigger] r@.contains(c) implies before.contains(c) || (in_grid(
            w as int,
            h as int,
            x + dx,
            y + dy,
        ) && c == flat(w as int, x + dx, y + dy)) by {
            let k = choose|k: int| 0 <= k < r@.len() && r@[k] == c;
            if k < before.len() {
                assert(before[k] == c);
            } else {
                assert(c == idx);
            }
        }
        assert forall|c: usize| #[trigger] before.contains(c) implies r@.contains(c) by {
            let k = choose|k: int| 0 <= k < before.len() && before[k] == c;
            assert(r@[k] == c);
        }
        assert(r@[before.len() as int] == idx);
        assert(r@.contains(idx));
        assert(flat(w as int, x + dx, y + dy) as usize == idx);
        if before.no_duplicates() && !before.contains(idx) {
            assert forall|i1: int, i2: int|
                0 <= i1 < r@.len() && 0 <= i2 < r@.len() && i1 != i2 implies r@[i1] != r@[i2] by {
                if i1 < before.len() && i2 < before.len() {
                    assert(before[i1] == r@[i1] && before[i2] == r@[i2]);
                } else if i1 < before.len() {
                    assert(before.contains(before[i1]));
                } else {
                    assert(before.contains(before[i2]));
                }
            }
            assert(r@.no_duplicates());
        }
    }
}

/// The flat indices of the Moore neighbours of the cell with flat index `i`,
/// clipped at all four grid edges.
pub fn get_1d_manhattan(i: usize, width: usize, height: usize) -> (r: Vec<usize>)
    requires
        width >= 1,
        height >= 1,
        i < width * height,
        width * height <= usize::MAX,
    ensures
        forall|c: usize|
            #[trigger] r@.contains(c) ==> c < width * height && adjacent(
                width as int,
                i as int,
                c as int,
            ),
        forall|j: int|
            0 <= j < width * height && adjacent(width as int, i as int, j) ==> r@.contains(
                j as usize,
            ),
        r@.no_duplicates(),
        r@.len() <= 8,
{
    proof {
        lemma_coords(width as int, height as int, i as int);
    }
    let (x, y) = get_2d(i, width);
    proof {
        let w = width as int;
        let h = height as int;
        if in_grid(w, h, x - 1, y - 1) {
            lemma_flat_coords(w, x - 1, y - 1);
            lemma_flat_in_range(w, h, x - 1, y - 1);
        }
        if in_grid(w, h, x - 1, y as int) {
            lemma_flat_coords(w, x - 1, y as int);
            lemma_flat_in_range(w, h, x - 1, y as int);
        }
        if in_grid(w, h, x - 1, y + 1) {
            lemma_flat_coords(w, x - 1, y + 1);
            lemma_flat_in_range(w, h, x - 1, y + 1);
        }
        if in_grid(w, h, x as int, y - 1) {
            lemma_flat_coords(w, x as int, y - 1);
            lemma_flat_in_range(w, h, x as int, y - 1);
        }
        if in_grid(w, h, x as int, y + 1) {
            lemma_flat_coords(w, x as int, y + 1);
            lemma_flat_in_range(w, h, x as int, y + 1);
        }
        if in_grid(w, h, x + 1, y - 1) {
            lemma_flat_coords(w, x + 1, y - 1);
            lemma_flat_in_range(w, h, x + 1, y - 1);
        }
        if in_grid(w, h, x + 1, y as int) {
            lemma_flat_coords(w, x + 1, y as int);
            lemma_flat_in_range(w, h, x + 1, y as int);
        }
        if in_grid(w, h, x + 1, y + 1) {
            lemma_flat_coords(w, x + 1, y + 1);
            lemma_flat_in_range(w, h, x + 1, y + 1);
        }
    }
    let mut r: Vec<usize> = Vec::new();
    nbr_push(&mut r, width, height, x, y, -1, -1);
    proof {
        assert(in_grid(width as int, height as int, x - 1, y as int) ==> !r@.contains(
            flat(width as int, x - 1, y as int) as usize,
        ));
    }
    nbr_push(&mut r, width, height, x, y, -1, 0);
    proof {
        assert(in_grid(width as int, height as int, x - 1, y + 1) ==> !r@.contains(
            flat(width as int, x - 1, y + 1) as usize,
        ));
    }
    nbr_push(&mut r, width, height, x, y, -1, 1);
    proof {
        assert(in_grid(width as int, height as int, x as int, y - 1) ==> !r@.contains(
            flat(width as int, x as int, y - 1) as usize,
        ));
    }
    nbr_push(&mut r, width, height, x, y, 0, -1);
    proof {
        assert(in_grid(width as int, height as int, x as int, y + 1) ==> !r@.contains(
            flat(width as int, x as int, y + 1) as usize,
        ));
    }
    nbr_push(&mut r, width, height, x, y, 0, 1);
    proof {
        assert(in_grid(width as int, height as int, x + 1, y - 1) ==> !r@.contains(
            flat(width as int, x + 1, y - 1) as usize,
        ));
    }
    nbr_push(&mut r, width, height, x, y, 1, -1);
    proof {
        assert(in_grid(width as int, height as int, x + 1, y as int) ==> !r@.contains(
            flat(width as int, x + 1, y as int) as usize,
        ));
    }
    nbr_push(&mut r, width, height, x, y, 1, 0);
    proof {
        assert(in_grid(width as int, height as int, x + 1, y + 1) ==> !r@.contains(
            flat(width as int, x + 1, y + 1) as usize,
        ));
    }
    nbr_push(&mut r, width, height, x, y, 1, 1);
    proof {
        let w = width as int;
        let h = height as int;
        assert forall|c: usize| #[trigger] r@.contains(c) implies c < width * height && adjacent(
            w,
            i as int,
            c as int,
        ) by {
            assert(exists|a: int, b: int|
                in_grid(w, h, a, b) && !(a == x && b == y) && -1 <= a - x <= 1 && -1 <= b - y <= 1
                    && c == #[trigger] flat(w, a, b));
            let (a, b) = choose|a: int, b: int|
                in_grid(w, h, a, b) && !(a == x && b == y) && -1 <= a - x <= 1 && -1 <= b - y <= 1
                    && c == flat(w, a, b);
            lemma_flat_coords(w, a, b);
            lemma_flat_in_range(w, h, a, b);
        }
        assert forall|j: int| 0 <= j < width * height && adjacent(w, i as int, j) implies
            r@.contains(j as usize) by {
            lemma_coords(w, h, j);
            let a = j % w;
            let b = j / w;
            let dx = a - x;
            let dy = b - y;
            assert(-1 <= dx <= 1 && -1 <= dy <= 1);
            assert(!(dx == 0 && dy == 0));
            assert(in_grid(w, h, x + dx, y + dy));
            assert(j as usize as int == flat(w, x + dx, y + dy));
        }
    }
    r
}

} // verus!
