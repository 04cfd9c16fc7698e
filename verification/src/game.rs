//! The light-game board: a near-square grid of tiles, each off (0) or on
//! (1), toggled by the index a network chooses each tick.

use vstd::prelude::*;

verus! {

/// The playing field and the last chosen tile index with its repeat count.
pub struct Board {
    pub board: Vec<Vec<u8>>,
    pub last_chosen: (usize, usize),
}

/// Whether `r` is the integer square root of `n`, rounded down.
pub open spec fn is_isqrt(n: int, r: int) -> bool {
    0 <= r && r * r <= n < (r + 1) * (r + 1)
}

/// The rows of a board as sequences.
pub open spec fn rows_of(b: Seq<Vec<u8>>) -> Seq<Seq<u8>> {
    b.map_values(|r: Vec<u8>| r@)
}

/// How many tiles of one row are on (nonzero).
pub open spec fn row_nonzero(row: Seq<u8>) -> int
    decreases row.len(),
{
    if row.len() == 0 {
        0
    } else {
        row_nonzero(row.drop_last()) + (if row.last() != 0 {
            1int
        } else {
            0int
        })
    }
}

/// How many tiles of the whole board are on.
pub open spec fn count_nonzero(rows: Seq<Seq<u8>>) -> int
    decreases rows.len(),
{
    if rows.len() == 0 {
        0
    } else {
        count_nonzero(rows.drop_last()) + row_nonzero(rows.last())
    }
}

/// Whether every tile of the board is on.
pub open spec fn all_nonzero(rows: Seq<Seq<u8>>) -> bool {
    forall|p: int, q: int|
        0 <= p < rows.len() && 0 <= q < rows[p].len() ==> #[trigger] rows[p][q] != 0
}

proof fn lemma_row_nonzero_bounds(row: Seq<u8>)
    ensures
        0 <= row_nonzero(row) <= row.len(),
    decreases row.len(),
{
    if row.len() > 0 {
        lemma_row_nonzero_bounds(row.drop_last());
    }
}

proof fn lemma_row_prefix_mono(row: Seq<u8>, j: int)
    requires
        0 <= j <= row.len(),
    ensures
        row_nonzero(row.take(j)) <= row_nonzero(row),
    decreases row.len() - j,
{
    if j < row.len() {
        lemma_row_prefix_mono(row, j + 1);
        assert(row.take(j + 1).drop_last() =~= row.take(j));
    } else {
        assert(row.take(j) =~= row);
    }
}

proof fn lemma_count_nonneg(rows: Seq<Seq<u8>>)
    ensures
        count_nonzero(rows) >= 0,
    decreases rows.len(),
{
    if rows.len() > 0 {
        lemma_count_nonneg(rows.drop_last());
        lemma_row_nonzero_bounds(rows.last());
    }
}

proof fn lemma_count_prefix_mono(rows: Seq<Seq<u8>>, i: int)
    requires
        0 <= i <= rows.len(),
    ensures
        count_nonzero(rows.take(i)) <= count_nonzero(rows),
        count_nonzero(rows.take(i)) >= 0,
    decreases rows.len() - i,
{
    lemma_count_nonneg(rows.take(i));
    if i < rows.len() {
        lemma_count_prefix_mono(rows, i + 1);
        assert(rows.take(i + 1).drop_last() =~= rows.take(i));
        lemma_row_nonzero_bounds(rows[i]);
        assert(rows.take(i + 1).last() == rows[i]);
    } else {
        assert(rows.take(i) =~= rows);
    }
}

/// Whether the next candidate root still fits under `n`.
fn next_sq_leq(r: usize, n: usize) -> (b: bool)
    requires
        r <= 46340,
    ensures
        b == ((r as int + 1) * (r as int + 1) <= n as int),
{
    proof {
        assert((r as int + 1) * (r as int + 1) <= 46341 * 46341) by (nonlinear_arith)
            requires
                r as int <= 46340,
        ;
    }
    (r + 1) * (r + 1) <= n
}

/// The floor of the square root, by counting up.
fn isqrt(n: usize) -> (r: usize)
    requires
        n <= 0x7fff_ffff,
    ensures
        is_isqrt(n as int, r as int),
{
    let mut r: usize = 0;
    while next_sq_leq(r, n)
        invariant
            n <= 0x7fff_ffff,
            r * r <= n,
            r <= 46340,
        decreases 46341 - r,
    {
        r = r + 1;
        proof {
            assert(r <= 46340) by (nonlinear_arith)
                requires
                    r * r <= n,
                    n <= 0x7fff_ffff,
                    r >= 1,
            ;
        }
    }
    r
}

impl Board {
    /// A board of `size` tiles, all off, arranged in rows of the integer
    /// square root of `size`; tiles past the last full row are not kept.
    pub fn new(size: usize) -> (r: Board)
        requires
            size <= 0xff_ffff,
        ensures
            r.last_chosen == (0usize, 0usize),
            exists|sq: int|
                #[trigger] is_isqrt(size as int, sq) && r.board@.len() == (if sq == 0 {
                    0int
                } else {
                    size as int / sq
                }) && (forall|i: int|
                    0 <= i < r.board@.len() ==> (#[trigger] r.board@[i])@.len() == sq && (forall|
                        j: int,
                    |
                        0 <= j < r.board@[i]@.len() ==> r.board@[i]@[j] == 0)),
    {
        let sqrt_size = isqrt(size);
        let mut board: Vec<Vec<u8>> = Vec::new();
        if sqrt_size > 0 {
            let n_rows = size / sqrt_size;
            let mut i: usize = 0;
            while i < n_rows
                invariant
                    i <= n_rows,
                    board@.len() == i,
                    forall|p: int|
                        0 <= p < board@.len() ==> (#[trigger] board@[p])@.len() == sqrt_size && (
                        forall|q: int| 0 <= q < board@[p]@.len() ==> board@[p]@[q] == 0),
                decreases n_rows - i,
            {
                let mut tmp: Vec<u8> = Vec::new();
                let mut j: usize = 0;
                while j < sqrt_size
                    invariant
                        j <= sqrt_size,
                        tmp@.len() == j,
                        forall|q: int| 0 <= q < tmp@.len() ==> #[trigger] tmp@[q] == 0,
                    decreases sqrt_size - j,
                {
                    tmp.push(0);
                    j = j + 1;
                }
                board.push(tmp);
                i = i + 1;
            }
        }
        Board { board, last_chosen: (0, 0) }
    }

    /// Whether every tile is on, and how many are on; the board itself is
    /// left untouched.
    pub fn check_finish(&mut self) -> (r: (bool, u32))
        requires
            count_nonzero(rows_of(old(self).board@)) <= u32::MAX,
        ensures
            *final(self) == *old(self),
            r.0 == all_nonzero(rows_of(old(self).board@)),
            r.1 == count_nonzero(rows_of(old(self).board@)),
    {
        let ghost v = rows_of(self.board@);
        let mut total: u32 = 0;
        let mut res = true;
        let mut i: usize = 0;
        while i < self.board.len()
            invariant
                i <= v.len(),
                v == rows_of(self.board@),
                count_nonzero(v) <= u32::MAX,
                total == count_nonzero(v.take(i as int)),
                res == (forall|p: int, q: int|
                    0 <= p < i && 0 <= q < v[p].len() ==> #[trigger] v[p][q] != 0),
            decreases v.len() - i,
        {
            let ghost row = v[i as int];
            let mut j: usize = 0;
            while j < self.board[i].len()
                invariant
                    0 <= i < v.len(),
                    j <= row.len(),
                    v == rows_of(self.board@),
                    row == v[i as int],
                    count_nonzero(v) <= u32::MAX,
                    total == count_nonzero(v.take(i as int)) + row_nonzero(row.take(j as int)),
                    res == ((forall|p: int, q: int|
                        0 <= p < i && 0 <= q < v[p].len() ==> #[trigger] v[p][q] != 0) && (forall|
                        q: int,
                    |
                        0 <= q < j ==> #[trigger] row[q] != 0)),
                decreases row.len() - j,
            {
                proof {
                    lemma_count_prefix_mono(v, i as int);
                    lemma_row_prefix_mono(row, j as int + 1);
                    lemma_row_nonzero_bounds(row);
                    assert(count_nonzero(v.take(i as int + 1)) <= count_nonzero(v)) by {
                        lemma_count_prefix_mono(v, i as int + 1);
                    }
                    assert(v.take(i as int + 1).drop_last() =~= v.take(i as int));
                    assert(row.take(j as int + 1).drop_last() =~= row.take(j as int));
                }
                let col = self.board[i][j];
                if col == 0 {
                    res = false;
                } else {
                    total = total + 1;
                }
                j = j + 1;
            }
            proof {
                assert(row.take(row.len() as int) =~= row);
                assert(v.take(i as int + 1).drop_last() =~= v.take(i as int));
                assert(v.take(i as int + 1).last() == row);
            }
            i = i + 1;
        }
        proof {
            assert(v.take(v.len() as int) =~= v);
        }
        (res, total)
    }

    /// Toggles the tile at `index`, read as row `index / rows` and column
    /// `index % rows`; a tile holding anything else is left unchanged.
    /// Returns whether the tile is on afterwards.
    pub fn update_tile(&mut self, index: usize) -> (r: bool)
        requires
            old(self).board@.len() > 0,
            (index as int / old(self).board@.len() as int) < old(self).board@.len(),
            (index as int % old(self).board@.len() as int) < old(self).board@[index as int / old(self).board@.len() as int]@.len(),
        ensures
            ({
                let len = old(self).board@.len() as int;
                let row = index as int / len;
                let col = index as int % len;
                let oldv = old(self).board@[row]@[col];
                let newv: u8 = if oldv == 0 {
                    1
                } else if oldv == 1 {
                    0
                } else {
                    oldv
                };
                &&& final(self).board@.len() == old(self).board@.len()
                &&& (forall|p: int|
                    0 <= p < old(self).board@.len() && p != row ==> (#[trigger] final(self).board@[p])@ == old(self).board@[p]@)
                &&& final(self).board@[row]@ == old(self).board@[row]@.update(col, newv)
                &&& final(self).last_chosen == old(self).last_chosen
                &&& r == (newv == 1)
            }),
    {
        let len = self.board.len();
        let row = index / len;
        let col = index % len;
        let cur = self.board[row][col];
        let newv: u8 = if cur == 0 {
            1
        } else if cur == 1 {
            0
        } else {
            cur
        };
        let mut rowv = self.board.remove(row);
        rowv.set(col, newv);
        self.board.insert(row, rowv);
        proof {
            assert(self.board@.len() == old(self).board@.len());
            assert(self.board@[row as int]@ =~= old(self).board@[row as int]@.update(
                col as int,
                newv,
            ));
            assert forall|p: int|
                0 <= p < old(self).board@.len() && p != row as int implies (#[trigger] self.board@[p])@
                == old(self).board@[p]@ by {
                if p < row as int {
                    assert(self.board@[p] == old(self).board@[p]);
                } else {
                    assert(self.board@[p] == old(self).board@[p]);
                }
            }
        }
        newv == 1
    }
}

} // verus!
