//! The puzzle board: generation, empty-cell tracking, and move application.

use rand::seq::SliceRandom;
use vstd::multiset::Multiset;
use vstd::prelude::*;

verus! {

broadcast use vstd::seq_lib::group_to_multiset_ensures;

/// Absolute difference of two mathematical integers.
pub open spec fn dist(a: int, b: int) -> int {
    if a >= b {
        a - b
    } else {
        b - a
    }
}

/// The multiset `{0, 1, ..., n*n - 1}`: exactly the tile values (and the
/// empty marker `0`) that an `n`-by-`n` board must hold.
pub open spec fn tile_ms(n: int) -> Multiset<i16> {
    Seq::new((n * n) as nat, |i: int| i as i16).to_multiset()
}

/// The grid is `n` rows of `n` cells each.
pub open spec fn row_lens_ok(g: Seq<Seq<i16>>, n: int) -> bool {
    &&& g.len() == n
    &&& forall|r: int| 0 <= r < n ==> (#[trigger] g[r]).len() == n
}

/// The multiset of all cell values of a grid, row by row.
pub open spec fn grid_ms(g: Seq<Seq<i16>>) -> Multiset<i16>
    decreases g.len(),
{
    if g.len() == 0 {
        Multiset::empty()
    } else {
        grid_ms(g.drop_last()).add(g.last().to_multiset())
    }
}

/// Well-formed board state: an `n`-by-`n` grid holding each value in
/// `[0, n*n)` exactly once, with `e` pointing at the cell that holds `0`.
pub open spec fn wf_board(g: Seq<Seq<i16>>, n: int, e: (int, int)) -> bool {
    &&& 0 < n
    &&& n * n <= i16::MAX  // every tile label is a distinct i16 value
    &&& row_lens_ok(g, n)
    &&& grid_ms(g) == tile_ms(n)
    &&& 0 <= e.0 < n
    &&& 0 <= e.1 < n
    &&& g[e.0][e.1] == 0
}

/// A move target is legal when it lies on the board and is orthogonally
/// adjacent to the empty cell (Manhattan distance exactly one).
pub open spec fn is_legal(n: int, e: (int, int), t: (int, int)) -> bool {
    &&& 0 <= t.0 < n
    &&& 0 <= t.1 < n
    &&& dist(t.0, e.0) + dist(t.1, e.1) == 1
}

/// The grid with the values at cells `a` and `b` exchanged and every other
/// cell unchanged.
pub open spec fn swap_cells(g: Seq<Seq<i16>>, a: (int, int), b: (int, int)) -> Seq<Seq<i16>> {
    Seq::new(
        g.len(),
        |r: int|
            Seq::new(
                g[r].len(),
                |c: int|
                    if r == a.0 && c == a.1 {
                        g[b.0][b.1]
                    } else if r == b.0 && c == b.1 {
                        g[a.0][a.1]
                    } else {
                        g[r][c]
                    },
            ),
    )
}

/// One step of the board's transition relation: a legal target is swapped
/// with the empty cell and becomes the new empty cell; an illegal target
/// leaves the state exactly as it was.
pub open spec fn move_step(g: Seq<Seq<i16>>, e: (int, int), t: (int, int)) -> (Seq<Seq<i16>>, (
    int,
    int,
)) {
    if is_legal(g.len() as int, e, t) {
        (swap_cells(g, e, t), t)
    } else {
        (g, e)
    }
}

/// Exchanging two cells of one row leaves the row's multiset of values
/// unchanged.
proof fn lemma_seq_swap_ms(s: Seq<i16>, i: int, j: int)
    requires
        0 <= i < s.len(),
        0 <= j < s.len(),
        i != j,
    ensures
        s.update(i, s[j]).update(j, s[i]).to_multiset() == s.to_multiset(),
{
    let a = s[i];
    let b = s[j];
    let s1 = s.update(i, b);
    let s2 = s1.update(j, a);
    assert(s.contains(a));
    assert(s.to_multiset().count(a) > 0);
    assert(s1[j] == b);
    assert(s2.to_multiset() =~= s.to_multiset());
}

/// Replacing one row changes the grid's multiset exactly by that row's
/// multiset, stated count-wise so that no count can go negative.
proof fn lemma_grid_ms_update(g: Seq<Seq<i16>>, i: int, row: Seq<i16>)
    requires
        0 <= i < g.len(),
    ensures
        forall|v: i16|
            #[trigger] grid_ms(g.update(i, row)).count(v) + g[i].to_multiset().count(v) == grid_ms(
                g,
            ).count(v) + row.to_multiset().count(v),
    decreases g.len(),
{
    let gu = g.update(i, row);
    assert(grid_ms(gu) == grid_ms(gu.drop_last()).add(gu.last().to_multiset()));
    assert(grid_ms(g) == grid_ms(g.drop_last()).add(g.last().to_multiset()));
    if i == g.len() - 1 {
        assert(gu.drop_last() =~= g.drop_last());
        assert(gu.last() == row);
        assert(g.last() == g[i]);
        assert forall|v: i16|
            #[trigger] grid_ms(gu).count(v) + g[i].to_multiset().count(v) == grid_ms(g).count(v)
                + row.to_multiset().count(v) by {
            assert(grid_ms(gu).count(v) == grid_ms(g.drop_last()).count(v) + row.to_multiset().count(
                v,
            ));
            assert(grid_ms(g).count(v) == grid_ms(g.drop_last()).count(v)
                + g[i].to_multiset().count(v));
        }
    } else {
        lemma_grid_ms_update(g.drop_last(), i, row);
        assert(gu.drop_last() =~= g.drop_last().update(i, row));
        assert(gu.last() == g.last());
        assert(g.drop_last()[i] == g[i]);
        assert forall|v: i16|
            #[trigger] grid_ms(gu).count(v) + g[i].to_multiset().count(v) == grid_ms(g).count(v)
                + row.to_multiset().count(v) by {
            assert(grid_ms(g.drop_last().update(i, row)).count(v) + g.drop_last()[i].to_multiset().count(
                v,
            ) == grid_ms(g.drop_last()).count(v) + row.to_multiset().count(v));
            assert(grid_ms(gu).count(v) == grid_ms(gu.drop_last()).count(v)
                + g.last().to_multiset().count(v));
            assert(grid_ms(g).count(v) == grid_ms(g.drop_last()).count(v)
                + g.last().to_multiset().count(v));
        }
    }
}

/// Exchanging two distinct cells leaves the grid's multiset of values
/// unchanged.
proof fn lemma_swap_cells_ms(g: Seq<Seq<i16>>, n: int, a: (int, int), b: (int, int))
    requires
        row_lens_ok(g, n),
        0 <= a.0 < n,
        0 <= a.1 < n,
        0 <= b.0 < n,
        0 <= b.1 < n,
        a != b,
    ensures
        grid_ms(swap_cells(g, a, b)) == grid_ms(g),
{
    let gs = swap_cells(g, a, b);
    let va = g[a.0][a.1];
    let vb = g[b.0][b.1];
    if a.0 == b.0 {
        let row2 = g[a.0].update(a.1, vb).update(b.1, va);
        assert(gs =~= g.update(a.0, row2)) by {
            assert forall|r: int| 0 <= r < g.len() implies gs[r] =~= g.update(a.0, row2)[r] by {
                if r != a.0 {
                    assert(gs[r] =~= g[r]);
                }
            }
        }
        lemma_seq_swap_ms(g[a.0], a.1, b.1);
        lemma_grid_ms_update(g, a.0, row2);
        assert(grid_ms(gs) =~= grid_ms(g));
    } else {
        let row_a = g[a.0].update(a.1, vb);
        let row_b = g[b.0].update(b.1, va);
        let g1 = g.update(a.0, row_a);
        assert(gs =~= g1.update(b.0, row_b)) by {
            assert forall|r: int| 0 <= r < g.len() implies gs[r] =~= g1.update(b.0, row_b)[r] by {
                if r != a.0 && r != b.0 {
                    assert(gs[r] =~= g[r]);
                }
            }
        }
        assert(g[a.0].contains(va));
        assert(g[b.0].contains(vb));
        lemma_grid_ms_update(g, a.0, row_a);
        lemma_grid_ms_update(g1, b.0, row_b);
        assert(g1[b.0] == g[b.0]);
        assert(grid_ms(gs) =~= grid_ms(g));
    }
}

/// A value that stands at two distinct positions of a sequence occurs at
/// least twice in its multiset.
proof fn lemma_seq_two_count(s: Seq<i16>, i: int, j: int)
    requires
        0 <= i < s.len(),
        0 <= j < s.len(),
        i != j,
        s[i] == s[j],
    ensures
        s.to_multiset().count(s[i]) >= 2,
{
    let s1 = s.remove(i);
    let j2 = if j < i {
        j
    } else {
        j - 1
    };
    assert(s1[j2] == s[j]);
    assert(s1.contains(s[i]));
    assert(s1.to_multiset().count(s[i]) > 0);
}

/// The whole grid holds a value at least as often as any one of its rows.
proof fn lemma_grid_ms_row_count(g: Seq<Seq<i16>>, r: int, v: i16)
    requires
        0 <= r < g.len(),
    ensures
        grid_ms(g).count(v) >= g[r].to_multiset().count(v),
    decreases g.len(),
{
    if r < g.len() - 1 {
        lemma_grid_ms_row_count(g.drop_last(), r, v);
        assert(g.drop_last()[r] == g[r]);
    }
}

/// The whole grid holds a value at least as often as two of its rows
/// together.
proof fn lemma_grid_ms_two_rows_count(g: Seq<Seq<i16>>, r1: int, r2: int, v: i16)
    requires
        0 <= r1 < r2 < g.len(),
    ensures
        grid_ms(g).count(v) >= g[r1].to_multiset().count(v) + g[r2].to_multiset().count(v),
    decreases g.len(),
{
    if r2 == g.len() - 1 {
        lemma_grid_ms_row_count(g.drop_last(), r1, v);
        assert(g.drop_last()[r1] == g[r1]);
    } else {
        lemma_grid_ms_two_rows_count(g.drop_last(), r1, r2, v);
        assert(g.drop_last()[r1] == g[r1]);
        assert(g.drop_last()[r2] == g[r2]);
    }
}

/// A well-formed board holds `0` exactly once.
proof fn lemma_tile_ms_zero_count(n: int)
    requires
        0 < n,
        n * n <= i16::MAX,
    ensures
        tile_ms(n).count(0i16) == 1,
{
    let tiles = Seq::new((n * n) as nat, |k: int| k as i16);
    assert(1 <= n * n) by (nonlinear_arith)
        requires
            0 < n,
    {}
    assert(tiles.no_duplicates()) by {
        assert forall|i: int, j: int|
            0 <= i < tiles.len() && 0 <= j < tiles.len() && i != j implies tiles[i] != tiles[j] by {
            assert(tiles[i] == i as i16);
            assert(tiles[j] == j as i16);
        }
    }
    tiles.lemma_multiset_has_no_duplicates();
    assert(tiles[0] == 0i16);
    assert(tiles.contains(0i16));
    assert(tiles.to_multiset().count(0i16) > 0);
    assert(tiles.to_multiset().contains(0i16));
}

/// On a well-formed board `0` stands at exactly one cell, so the recorded
/// empty coordinate is the only cell that holds it.
pub proof fn lemma_empty_cell_unique(g: Seq<Seq<i16>>, n: int, e: (int, int), r: int, c: int)
    requires
        wf_board(g, n, e),
        0 <= r < n,
        0 <= c < n,
        g[r][c] == 0,
    ensures
        (r, c) == e,
{
    lemma_tile_ms_zero_count(n);
    if r == e.0 && c != e.1 {
        lemma_seq_two_count(g[r], c, e.1);
        lemma_grid_ms_row_count(g, r, 0i16);
    } else if r != e.0 {
        assert(g[r].contains(0i16));
        assert(g[e.0].contains(0i16));
        assert(g[r].to_multiset().count(0i16) > 0);
        assert(g[e.0].to_multiset().count(0i16) > 0);
        if r < e.0 {
            lemma_grid_ms_two_rows_count(g, r, e.0, 0i16);
        } else {
            lemma_grid_ms_two_rows_count(g, e.0, r, 0i16);
        }
    }
}

/// A move step keeps the board well formed: the grid stays `n`-by-`n`, keeps
/// the same multiset of values, and the recorded empty cell still holds `0`.
pub proof fn lemma_move_step_preserves_wf(g: Seq<Seq<i16>>, n: int, e: (int, int), t: (int, int))
    requires
        wf_board(g, n, e),
    ensures
        wf_board(move_step(g, e, t).0, n, move_step(g, e, t).1),
{
    if is_legal(n, e, t) {
        assert(t != e);
        lemma_swap_cells_ms(g, n, e, t);
        assert(swap_cells(g, e, t)[t.0][t.1] == 0);
    }
}

/// A move changes the state exactly when its target is in bounds and
/// Manhattan-adjacent to the empty cell; an illegal target leaves the state
/// bit for bit as it was.
pub proof fn lemma_adjacency_only_mutation(g: Seq<Seq<i16>>, n: int, e: (int, int), t: (int, int))
    requires
        wf_board(g, n, e),
    ensures
        is_legal(n, e, t) <==> move_step(g, e, t) != (g, e),
        is_legal(n, e, t) <==> move_step(g, e, t).0 != g,
{
    if is_legal(n, e, t) {
        assert(t != e);
        assert(move_step(g, e, t).1 == t);
        assert(g[t.0][t.1] != 0) by {
            if g[t.0][t.1] == 0 {
                lemma_empty_cell_unique(g, n, e, t.0, t.1);
            }
        }
        assert(move_step(g, e, t).0[t.0][t.1] == 0);
    }
}

/// When a move is legal, the value previously at the target now appears at
/// the old empty position, the target now holds `0`, no other cell changes,
/// and the target becomes the empty cell.
pub proof fn lemma_swap_correctness(g: Seq<Seq<i16>>, n: int, e: (int, int), t: (int, int))
    requires
        wf_board(g, n, e),
        is_legal(n, e, t),
    ensures
        move_step(g, e, t).1 == t,
        move_step(g, e, t).0[e.0][e.1] == g[t.0][t.1],
        move_step(g, e, t).0[t.0][t.1] == 0,
        forall|r: int, c: int|
            0 <= r < n && 0 <= c < n && (r, c) != e && (r, c) != t ==> move_step(g, e, t).0[r][c]
                == g[r][c],
        row_lens_ok(move_step(g, e, t).0, n),
{
}

/// Applying one illegal move leaves the state unchanged, so applying the
/// same illegal move any number of times never changes the state: the second
/// application below starts from the state the first one produced.
pub proof fn lemma_illegal_move_idempotent(g: Seq<Seq<i16>>, n: int, e: (int, int), t: (int, int))
    requires
        wf_board(g, n, e),
        !is_legal(n, e, t),
    ensures
        move_step(g, e, t) == (g, e),
        move_step(move_step(g, e, t).0, move_step(g, e, t).1, t) == (g, e),
{
}

/// Relies on rand's `SliceRandom::shuffle`: it permutes the slice in place
/// (a Fisher-Yates shuffle), so the length and the multiset of elements are
/// unchanged. Which permutation comes out is random.
#[verifier::external_body]
fn shuffle(values: &mut Vec<i16>)
    ensures
        final(values)@.len() == old(values)@.len(),
        final(values)@.to_multiset() == old(values)@.to_multiset(),
{
    values.shuffle(&mut rand::rng());
}

/// Absolute difference of two machine integers, matching `dist` on their
/// mathematical values.
fn abs_diff(a: usize, b: usize) -> (r: usize)
    ensures
        r as int == dist(a as int, b as int),
{
    if a >= b {
        a - b
    } else {
        b - a
    }
}

/// The mathematical view of a vector of rows: each row as its sequence of
/// cell values.
spec fn rows_view(b: Seq<Vec<i16>>) -> Seq<Seq<i16>> {
    Seq::new(b.len(), |i: int| b[i]@)
}

pub struct Puzzle {
    board: Vec<Vec<i16>>,
    empty_cell: (usize, usize),
}

impl Puzzle {
    /// The grid as a sequence of rows of cell values.
    pub closed spec fn grid(self) -> Seq<Seq<i16>> {
        rows_view(self.board@)
    }

    /// The side length of the board.
    pub open spec fn size(self) -> int {
        self.grid().len() as int
    }

    /// The coordinate of the cell that holds `0`.
    pub closed spec fn empty_pos(self) -> (int, int) {
        (self.empty_cell.0 as int, self.empty_cell.1 as int)
    }

    /// The board invariant: every operation establishes or preserves it.
    pub open spec fn wf(self) -> bool {
        wf_board(self.grid(), self.size(), self.empty_pos())
    }

    /// Create an `n`-by-`n` board: the values `0 .. n*n` are shuffled into a
    /// random order and laid out row by row, and the cell where `0` landed is
    /// recorded as the empty cell.
    pub fn new(n: i16) -> (r: Puzzle)
        requires
            0 < n,
            n * n <= i16::MAX,
        ensures
            r.wf(),
            r.size() == n,
    {
        let ghost ni: int = n as int;
        let nu = n as usize;
        let total = nu * nu;
        let mut values: Vec<i16> = Vec::new();
        let mut i: usize = 0;
        while i < total
            invariant
                total == ni * ni,
                ni * ni <= i16::MAX,
                values@.len() == i,
                i <= total,
                forall|j: int| 0 <= j < i ==> values@[j] == j as i16,
            decreases total - i,
        {
            values.push(i as i16);
            i = i + 1;
        }
        proof {
            assert(values@ =~= Seq::new((ni * ni) as nat, |k: int| k as i16));
        }
        shuffle(&mut values);
        let ghost vals = values@;
        let mut board: Vec<Vec<i16>> = Vec::new();
        let mut empty_cell: (usize, usize) = (0, 0);
        let mut found = false;
        let mut idx: usize = 0;
        let mut r: usize = 0;
        while r < nu
            invariant
                nu == ni,
                0 < ni,
                total == ni * ni,
                ni * ni <= i16::MAX,
                vals == values@,
                vals.len() == total,
                vals.to_multiset() == tile_ms(ni),
                r <= nu,
                idx == r * nu,
                idx <= total,
                board@.len() == r,
                forall|k: int| 0 <= k < r ==> (#[trigger] board@[k])@.len() == nu,
                grid_ms(rows_view(board@)) == vals.take(idx as int).to_multiset(),
                found ==> empty_cell.0 < r && empty_cell.1 < nu && board@[empty_cell.0 as int]@[empty_cell.1 as int]
                    == 0,
                !found ==> forall|j: int| 0 <= j < idx ==> vals[j] != 0,
            decreases nu - r,
        {
            proof {
                assert(idx + nu <= total) by (nonlinear_arith)
                    requires
                        idx == r * nu,
                        r < nu,
                        total == nu * nu,
                {}
            }
            let ghost idx0: int = idx as int;
            let mut row: Vec<i16> = Vec::new();
            let mut c: usize = 0;
            while c < nu
                invariant
                    nu == ni,
                    vals == values@,
                    vals.len() == total,
                    c <= nu,
                    0 <= idx0,
                    idx == idx0 + c,
                    idx0 + nu <= total,
                    r < nu,
                    row@ == vals.subrange(idx0, idx0 + c),
                    board@.len() == r,
                    forall|k: int| 0 <= k < r ==> (#[trigger] board@[k])@.len() == nu,
                    found ==> (empty_cell.0 < r && empty_cell.1 < nu && board@[empty_cell.0 as int]@[empty_cell.1 as int]
                        == 0) || (empty_cell.0 == r && empty_cell.1 < c && row@[empty_cell.1 as int]
                        == 0),
                    !found ==> forall|j: int| 0 <= j < idx ==> vals[j] != 0,
                decreases nu - c,
            {
                let v = values[idx];
                if v == 0 {
                    empty_cell = (r, c);
                    found = true;
                }
                row.push(v);
                proof {
                    assert(vals.subrange(idx0, idx0 + c + 1) =~= vals.subrange(idx0, idx0 + c).push(
                        vals[idx0 + c],
                    ));
                }
                idx = idx + 1;
                c = c + 1;
            }
            let ghost gmap0 = rows_view(board@);
            let ghost rowv = row@;
            board.push(row);
            proof {
                let gmap1 = rows_view(board@);
                assert(gmap1.drop_last() =~= gmap0);
                assert(gmap1.last() == rowv);
                assert(grid_ms(gmap1) == grid_ms(gmap0).add(rowv.to_multiset()));
                vstd::seq_lib::lemma_multiset_commutative(
                    vals.take(idx0),
                    vals.subrange(idx0, idx0 + nu as int),
                );
                assert(vals.take(idx0) + vals.subrange(idx0, idx0 + nu as int) =~= vals.take(
                    idx0 + nu as int,
                ));
                assert((r + 1) * nu == r * nu + nu) by (nonlinear_arith);
            }
            r = r + 1;
        }
        proof {
            assert(vals.take(idx as int) =~= vals);
            assert(found) by {
                if !found {
                    assert(forall|j: int| 0 <= j < vals.len() ==> vals[j] != 0);
                    assert(!vals.contains(0i16));
                    let tiles = Seq::new((ni * ni) as nat, |k: int| k as i16);
                    assert(1 <= ni * ni) by (nonlinear_arith)
                        requires
                            0 < ni,
                    {}
                    assert(tiles[0] == 0i16);
                    assert(tiles.contains(0i16));
                    assert(tiles.to_multiset().count(0i16) > 0);
                    assert(vals.to_multiset().count(0i16) == 0);
                }
            }
        }
        Puzzle { board, empty_cell }
    }

    /// Read access to the grid.
    pub fn get_board(&self) -> (r: &Vec<Vec<i16>>)
        ensures
            r@.len() == self.size(),
            forall|i: int| 0 <= i < self.size() ==> (#[trigger] r@[i])@ == self.grid()[i],
    {
        proof {
            assert(forall|i: int|
                0 <= i < self.size() ==> (#[trigger] self.board@[i])@ == self.grid()[i]);
        }
        &self.board
    }

    /// Slide the tile at `from` into the empty cell. A target that is out of
    /// bounds or not orthogonally adjacent to the empty cell is ignored: the
    /// call returns with the state exactly as it was.
    pub fn do_move(&mut self, from: (usize, usize))
        requires
            old(self).wf(),
        ensures
            final(self).wf(),
            final(self).size() == old(self).size(),
            final(self).grid() == move_step(
                old(self).grid(),
                old(self).empty_pos(),
                (from.0 as int, from.1 as int),
            ).0,
            final(self).empty_pos() == move_step(
                old(self).grid(),
                old(self).empty_pos(),
                (from.0 as int, from.1 as int),
            ).1,
    {
        let ghost g0 = self.grid();
        let ghost e0 = self.empty_pos();
        let ghost t0: (int, int) = (from.0 as int, from.1 as int);
        proof {
            lemma_move_step_preserves_wf(g0, self.size(), e0, t0);
            assert(g0.len() <= i16::MAX) by (nonlinear_arith)
                requires
                    0 < g0.len(),
                    g0.len() * g0.len() <= i16::MAX,
            {}
        }
        let n = self.board.len();
        if from.0 >= n || from.1 >= n
            || abs_diff(from.0, self.empty_cell.0) + abs_diff(from.1, self.empty_cell.1) != 1 {
            assert(!is_legal(g0.len() as int, e0, t0));
            return ;
        }
        assert(is_legal(g0.len() as int, e0, t0));
        let to = self.empty_cell;
        let moved = self.board[from.0][from.1];
        let zero_tile = self.board[to.0][to.1];
        self.board[from.0][from.1] = zero_tile;
        self.board[to.0][to.1] = moved;
        self.empty_cell = from;
        proof {
            let gs = swap_cells(g0, e0, t0);
            assert(self.grid() =~= gs) by {
                assert forall|r: int| 0 <= r < g0.len() implies self.grid()[r] =~= gs[r] by {
                    assert(self.grid()[r] == self.board@[r]@);
                }
            }
        }
    }

    /// The current coordinate of the empty cell.
    pub fn empty_cell(&self) -> (r: (usize, usize))
        ensures
            (r.0 as int, r.1 as int) == self.empty_pos(),
    {
        self.empty_cell
    }
}

} // verus!

