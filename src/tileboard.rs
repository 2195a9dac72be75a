use crate::traits::{is_step, lemma_push_contains, path_between, State};
use rand::seq::SliceRandom;
use vstd::prelude::*;

verus! {

broadcast use vstd::array::group_array_axioms;

/// A cell of a board: its column and its row.
#[derive(Clone, Copy, PartialEq, Eq, Debug, Structural)]
pub struct Coord {
    pub column: usize,
    pub row: usize,
}

impl Coord {
    pub open spec fn spec_column(&self) -> usize {
        self.column
    }

    pub open spec fn spec_row(&self) -> usize {
        self.row
    }

    pub fn new(column: usize, row: usize) -> (r: Self)
        ensures
            r.spec_column() == column,
            r.spec_row() == row,
    {
        Coord { column, row }
    }

    pub fn column(&self) -> (r: usize)
        ensures
            r == self.spec_column(),
    {
        self.column
    }

    pub fn row(&self) -> (r: usize)
        ensures
            r == self.spec_row(),
    {
        self.row
    }
}

/// `a` with entry `i` replaced by `v`.
pub open spec fn array_set<T, const N: usize>(a: [T; N], i: int, v: T) -> [T; N] {
    vstd::array::spec_array_update(a, i, v)
}

/// A sliding-tile puzzle of `C` columns and `R` rows; tile `0` is the blank.
#[derive(Clone, Copy, Eq, Hash, Debug)]
pub struct TileBoard<const C: usize, const R: usize> {
    inner: [[usize; C]; R],
}

/// The tile that the solved board holds at row `y`, column `x`: tiles counted from 1 row by
/// row (saturating at `usize::MAX`), and the blank in the last cell.
pub open spec fn solved_tile(c: int, r: int, y: int, x: int) -> int {
    if y == r - 1 && x == c - 1 {
        0
    } else if y * c + x + 1 > usize::MAX {
        usize::MAX as int
    } else {
        y * c + x + 1
    }
}

/// Where tile `a` belongs on a solved board of `c` columns and `r` rows.
pub open spec fn home_of(c: int, r: int, a: int) -> Coord {
    if a == 0 {
        Coord { column: (c - 1) as usize, row: (r - 1) as usize }
    } else {
        Coord { column: ((a - 1) % c) as usize, row: ((a - 1) / c) as usize }
    }
}

/// The cell of row-major index `p` on a board of `c` columns.
pub open spec fn cell_of(c: int, p: int) -> Coord {
    Coord { column: (p % c) as usize, row: (p / c) as usize }
}

impl<const C: usize, const R: usize> TileBoard<C, R> {
    /// Every tile is smaller than the number of cells.
    #[verifier::type_invariant]
    spec fn inv(&self) -> bool {
        forall|y: int, x: int| 0 <= y < R && 0 <= x < C ==> (#[trigger] self.inner[y][x] as int) < C * R
    }

    /// The rows of the board.
    pub closed spec fn rows(&self) -> [[usize; C]; R] {
        self.inner
    }

    /// The tile at row-major index `p`.
    pub closed spec fn tile_at(&self, p: int) -> int {
        self.inner[p / C as int][p % C as int] as int
    }

    /// Row-major index of the last cell among the first `k` that holds tile `a`; 0 if none does.
    pub closed spec fn last_index(&self, a: int, k: int) -> int
        decreases k,
    {
        if k <= 0 {
            0
        } else if self.tile_at(k - 1) == a {
            k - 1
        } else {
            self.last_index(a, k - 1)
        }
    }

    /// Scanning column by column, each from the top: the last blank met before reaching row
    /// `j` of column `i`, as (column, row); (0, 0) if none was met.
    pub closed spec fn blank_upto(&self, i: int, j: int) -> (int, int)
        decreases i, j,
    {
        if j > 0 {
            if self.inner[j - 1][i] == 0 {
                (i, j - 1)
            } else {
                self.blank_upto(i, j - 1)
            }
        } else if i > 0 {
            self.blank_upto(i - 1, R as int)
        } else {
            (0, 0)
        }
    }

    /// The blank that `next` moves: the last one met scanning column by column.
    pub closed spec fn blank(&self) -> (int, int) {
        self.blank_upto(C as int, 0)
    }

    /// The board with the tiles at (x1, y1) and (x2, y2) exchanged.
    pub closed spec fn swapped(&self, x1: int, y1: int, x2: int, y2: int) -> Self {
        let v1 = self.inner[y1][x1];
        let v2 = self.inner[y2][x2];
        let g1 = array_set(self.inner, y1, array_set(self.inner[y1], x1, v2));
        let g2 = array_set(g1, y2, array_set(g1[y2], x2, v1));
        TileBoard { inner: g2 }
    }

    proof fn lemma_blank_in_range(&self, i: int, j: int)
        requires
            C > 0,
            R > 0,
            0 <= i <= C,
            0 <= j <= R,
            i < C || j == 0,
        ensures
            0 <= self.blank_upto(i, j).0 < C,
            0 <= self.blank_upto(i, j).1 < R,
        decreases i, j,
    {
        if j > 0 {
            if self.inner[j - 1][i] != 0 {
                self.lemma_blank_in_range(i, j - 1);
            }
        } else if i > 0 {
            self.lemma_blank_in_range(i - 1, R as int);
        }
    }

    /// A board with the given rows.
    pub fn from_rows(inner: [[usize; C]; R]) -> (r: Self)
        requires
            forall|y: int, x: int| 0 <= y < R && 0 <= x < C ==> (#[trigger] inner[y][x] as int) < C * R,
        ensures
            r.rows() == inner,
    {
        TileBoard { inner }
    }

    fn swap_cells(&self, x1: usize, y1: usize, x2: usize, y2: usize) -> (r: Self)
        requires
            x1 < C,
            x2 < C,
            y1 < R,
            y2 < R,
        ensures
            r == self.swapped(x1 as int, y1 as int, x2 as int, y2 as int),
    {
        proof {
            use_type_invariant(self);
        }
        let mut g = self.inner;
        let v1 = g[y1][x1];
        let v2 = g[y2][x2];
        let mut row = g[y1];
        row[x1] = v2;
        g[y1] = row;
        let mut row2 = g[y2];
        row2[x2] = v1;
        g[y2] = row2;
        proof {
            assert forall|y: int, x: int| 0 <= y < R && 0 <= x < C implies (#[trigger] g[y][x] as int)
                < C * R by {
                if y == y2 && x == x2 {
                } else if y == y1 && x == x1 {
                } else {
                }
            }
        }
        TileBoard { inner: g }
    }
}

impl<const C: usize, const R: usize> PartialEq for TileBoard<C, R> {
    fn eq(&self, other: &Self) -> (r: bool) {
        let mut j: usize = 0;
        while j < R
            invariant
                j <= R,
                forall|y: int| 0 <= y < j ==> self.inner[y] == other.inner[y],
            decreases R - j,
        {
            let mut i: usize = 0;
            while i < C
                invariant
                    j < R,
                    i <= C,
                    forall|x: int| 0 <= x < i ==> self.inner[j as int][x] == other.inner[j as int][x],
                decreases C - i,
            {
                if self.inner[j][i] != other.inner[j][i] {
                    return false;
                }
                i = i + 1;
            }
            assert(self.inner[j as int] =~= other.inner[j as int]);
            j = j + 1;
        }
        assert(self.inner =~= other.inner);
        true
    }
}

impl<const C: usize, const R: usize> vstd::std_specs::cmp::PartialEqSpecImpl for TileBoard<C, R> {
    open spec fn obeys_eq_spec() -> bool {
        true
    }

    open spec fn eq_spec(&self, other: &Self) -> bool {
        *self == *other
    }
}

impl<const C: usize, const R: usize> Default for TileBoard<C, R> {
    /// The solved board.
    fn default() -> (r: Self)
        ensures
            forall|y: int, x: int|
                0 <= y < R && 0 <= x < C ==> (#[trigger] r.rows()[y][x] as int) == solved_tile(
                    C as int,
                    R as int,
                    y,
                    x,
                ),
    {
        let mut inner: [[usize; C]; R] = vstd::array::array_fill_for_copy_types(
            vstd::array::array_fill_for_copy_types(0usize),
        );
        let mut v: usize = 1;
        let mut y: usize = 0;
        while y < R
            invariant
                y <= R,
                v as int == (if y * C + 1 > usize::MAX {
                    usize::MAX as int
                } else {
                    y * C + 1
                }),
                forall|yy: int, x: int|
                    0 <= yy < y && 0 <= x < C ==> (#[trigger] inner[yy][x] as int) == (if yy * C + x + 1
                        > usize::MAX {
                        usize::MAX as int
                    } else {
                        yy * C + x + 1
                    }),
            decreases R - y,
        {
            let mut row = inner[y];
            let mut x: usize = 0;
            while x < C
                invariant
                    y < R,
                    x <= C,
                    v as int == (if y * C + x + 1 > usize::MAX {
                        usize::MAX as int
                    } else {
                        y * C + x + 1
                    }),
                    forall|xx: int|
                        0 <= xx < x ==> (#[trigger] row[xx] as int) == (if y * C + xx + 1 > usize::MAX {
                            usize::MAX as int
                        } else {
                            y * C + xx + 1
                        }),
                decreases C - x,
            {
                row[x] = v;
                v = v.saturating_add(1);
                x = x + 1;
            }
            inner[y] = row;
            proof {
                assert(y * C + C == (y + 1) * C) by (nonlinear_arith);
            }
            y = y + 1;
        }
        let ghost counted = inner;
        if C > 0 && R > 0 {
            let mut last = inner[R - 1];
            last[C - 1] = 0;
            inner[R - 1] = last;
        }
        proof {
            assert forall|y: int, x: int| 0 <= y < R && 0 <= x < C implies (#[trigger] inner[y][x] as int)
                < C * R && inner[y][x] as int == solved_tile(C as int, R as int, y, x) by {
                if y == R - 1 && x == C - 1 {
                    assert(inner[y][x] == 0);
                    assert(C * R > 0) by (nonlinear_arith)
                        requires
                            C > 0,
                            R > 0,
                    ;
                } else {
                    assert(inner[y][x] == counted[y][x]);
                    assert(y * C + x + 1 < C * R) by (nonlinear_arith)
                        requires
                            0 <= y < R,
                            0 <= x < C,
                            !(y == R - 1 && x == C - 1),
                    ;
                }
            }
        }
        TileBoard { inner }
    }
}

impl<const C: usize, const R: usize> State for TileBoard<C, R> {
    type Point = Coord;

    /// Slide into the blank the tile to its left, to its right, above it, below it: each of
    /// those that exists.
    open spec fn successors(&self) -> Seq<Self> {
        if C == 0 || R == 0 {
            Seq::empty()
        } else {
            let (x, y) = self.blank();
            let s1 = if x > 0 {
                seq![self.swapped(x, y, x - 1, y)]
            } else {
                Seq::empty()
            };
            let s2 = if x + 1 < C {
                s1.push(self.swapped(x, y, x + 1, y))
            } else {
                s1
            };
            let s3 = if y > 0 {
                s2.push(self.swapped(x, y, x, y - 1))
            } else {
                s2
            };
            if y + 1 < R {
                s3.push(self.swapped(x, y, x, y + 1))
            } else {
                s3
            }
        }
    }

    /// For each tile `a`, in order: the cell where `a` belongs, and the cell where it lies.
    open spec fn spec_differences(&self) -> Seq<(Coord, Coord)> {
        let n = C * R;
        Seq::new(
            n as nat,
            |a: int| (home_of(C as int, R as int, a), cell_of(C as int, self.last_index(a, n))),
        )
    }

    fn next(&self) -> (r: Vec<Self>) {
        let mut x: usize = 0;
        let mut y: usize = 0;
        let mut i: usize = 0;
        while i < C
            invariant
                i <= C,
                (x as int, y as int) == self.blank_upto(i as int, 0),
            decreases C - i,
        {
            let mut j: usize = 0;
            while j < R
                invariant
                    i < C,
                    j <= R,
                    (x as int, y as int) == self.blank_upto(i as int, j as int),
                decreases R - j,
            {
                if self.inner[j][i] == 0 {
                    x = i;
                    y = j;
                }
                j = j + 1;
            }
            i = i + 1;
        }
        let mut res: Vec<Self> = Vec::new();
        if C == 0 || R == 0 {
            return res;
        }
        proof {
            self.lemma_blank_in_range(C as int, 0);
        }
        if x > 0 {
            res.push(self.swap_cells(x, y, x - 1, y));
        }
        if x + 1 < C {
            res.push(self.swap_cells(x, y, x + 1, y));
        }
        if y > 0 {
            res.push(self.swap_cells(x, y, x, y - 1));
        }
        if y + 1 < R {
            res.push(self.swap_cells(x, y, x, y + 1));
        }
        assert(res@ =~= self.successors());
        res
    }

    fn differences(&self) -> (r: Vec<(Coord, Coord)>) {
        proof {
            use_type_invariant(self);
        }
        let mut pos: Vec<usize> = Vec::new();
        let mut y: usize = 0;
        while y < R
            invariant
                y <= R,
                pos@.len() == y * C,
                forall|k: int| 0 <= k < pos@.len() ==> #[trigger] pos@[k] == 0,
            decreases R - y,
        {
            let mut x: usize = 0;
            while x < C
                invariant
                    y < R,
                    x <= C,
                    pos@.len() == y * C + x,
                    forall|k: int| 0 <= k < pos@.len() ==> #[trigger] pos@[k] == 0,
                decreases C - x,
            {
                pos.push(0);
                proof {
                    vstd::std_specs::vec::axiom_spec_len(&pos);
                }
                x = x + 1;
            }
            proof {
                assert(y * C + C == (y + 1) * C) by (nonlinear_arith);
            }
            y = y + 1;
        }
        let n = pos.len();
        assert(n == C * R) by (nonlinear_arith)
            requires
                n == R * C,
        ;
        let mut i: usize = 0;
        while i < n
            invariant
                n == C * R,
                pos@.len() == n,
                i <= n,
                forall|y: int, x: int| 0 <= y < R && 0 <= x < C ==> (#[trigger] self.inner[y][x] as int) < C * R,
                forall|a: int| 0 <= a < n ==> #[trigger] pos@[a] as int == self.last_index(a, i as int),
            decreases n - i,
        {
            assert(C > 0 && i / C < R && i % C < C) by (nonlinear_arith)
                requires
                    i < C * R,
            ;
            let val = self.inner[i / C][i % C];
            pos.set(val, i);
            i = i + 1;
        }
        let mut res: Vec<(Coord, Coord)> = Vec::new();
        let mut a: usize = 0;
        while a < n
            invariant
                n == C * R,
                pos@.len() == n,
                a <= n,
                forall|b: int| 0 <= b < n ==> #[trigger] pos@[b] as int == self.last_index(b, n as int),
                res@.len() == a,
                forall|b: int| 0 <= b < a ==> #[trigger] res@[b] == self.spec_differences()[b],
            decreases n - a,
        {
            assert(C > 0 && R > 0) by (nonlinear_arith)
                requires
                    a < C * R,
            ;
            let home = if a == 0 {
                Coord::new(C - 1, R - 1)
            } else {
                Coord::new((a - 1) % C, (a - 1) / C)
            };
            let p = pos[a];
            let found = Coord::new(p % C, p / C);
            res.push((home, found));
            a = a + 1;
        }
        assert(res@ =~= self.spec_differences());
        res
    }

    proof fn lemma_exact_copies() {
    }
}

/// Relies on rand's `SliceRandom::choose` with the thread-local generator: on a non-empty
/// slice it returns one of its elements.
#[verifier::external_body]
fn choose_move(options: &Vec<(usize, usize)>) -> (r: (usize, usize))
    requires
        options@.len() > 0,
    ensures
        options@.contains(r),
{
    *options.choose(&mut rand::thread_rng()).unwrap()
}

impl<const C: usize, const R: usize> TileBoard<C, R> {
    /// Every cell holds the tile of the solved board.
    pub open spec fn is_solved(&self) -> bool {
        forall|y: int, x: int|
            0 <= y < R && 0 <= x < C ==> (#[trigger] self.rows()[y][x] as int) == solved_tile(
                C as int,
                R as int,
                y,
                x,
            )
    }

    /// The only blank is at column `px`, row `py`.
    spec fn sole_blank(&self, px: int, py: int) -> bool {
        &&& 0 <= px < C
        &&& 0 <= py < R
        &&& self.inner[py][px] == 0
        &&& forall|y: int, x: int|
            0 <= y < R && 0 <= x < C && (y != py || x != px) ==> #[trigger] self.inner[y][x] != 0
    }

    proof fn lemma_sole_blank_found(&self, px: int, py: int, i: int, j: int)
        requires
            self.sole_blank(px, py),
            0 <= i <= C,
            0 <= j <= R,
            i < C || j == 0,
        ensures
            self.blank_upto(i, j) == (if px < i || (px == i && py < j) {
                (px, py)
            } else {
                (0int, 0int)
            }),
        decreases i, j,
    {
        if j > 0 {
            if self.inner[j - 1][i] != 0 {
                self.lemma_sole_blank_found(px, py, i, j - 1);
            }
        } else if i > 0 {
            self.lemma_sole_blank_found(px, py, i - 1, R as int);
        }
    }

    proof fn lemma_neighbor_is_successor(&self, x: int, y: int, cx: int, cy: int)
        requires
            C > 0,
            R > 0,
            self.blank() == (x, y),
            0 <= x < C,
            0 <= y < R,
            0 <= cx < C,
            0 <= cy < R,
            (cx == x - 1 && cy == y) || (cx == x + 1 && cy == y) || (cx == x && cy == y - 1) || (cx
                == x && cy == y + 1),
        ensures
            self.successors().contains(self.swapped(x, y, cx, cy)),
    {
        let t = self.swapped(x, y, cx, cy);
        let s1 = if x > 0 {
            seq![self.swapped(x, y, x - 1, y)]
        } else {
            Seq::empty()
        };
        let s2 = if x + 1 < C {
            s1.push(self.swapped(x, y, x + 1, y))
        } else {
            s1
        };
        let s3 = if y > 0 {
            s2.push(self.swapped(x, y, x, y - 1))
        } else {
            s2
        };
        let s4 = if y + 1 < R {
            s3.push(self.swapped(x, y, x, y + 1))
        } else {
            s3
        };
        assert(s4 == self.successors());
        if x > 0 {
            assert(s1[0] == self.swapped(x, y, x - 1, y));
        }
        lemma_push_contains(s1, self.swapped(x, y, x + 1, y));
        lemma_push_contains(s2, self.swapped(x, y, x, y - 1));
        lemma_push_contains(s3, self.swapped(x, y, x, y + 1));
        if cx == x - 1 {
            assert(s1.contains(t));
        }
    }

    /// A board reached from the solved one by exactly `shuffles` random slides of the blank.
    pub fn shuffled(shuffles: usize) -> (r: Self)
        requires
            C > 0,
            R > 0,
            shuffles == 0 || C > 1 || R > 1,
        ensures
            exists|start: Self, p: Seq<Self>|
                start.is_solved() && path_between(p, start, r) && p.len() == shuffles + 1,
            shuffles == 0 ==> r.is_solved(),
    {
        let mut res: TileBoard<C, R> = TileBoard::default();
        let ghost start = res;
        let ghost mut path: Seq<Self> = seq![res];
        let mut pos_x: usize = C - 1;
        let mut pos_y: usize = R - 1;
        proof {
            assert forall|y: int, x: int| 0 <= y < R && 0 <= x < C implies (#[trigger] start.inner[y][x] as int)
                == solved_tile(C as int, R as int, y, x) by {
                assert(start.rows()[y][x] == start.inner[y][x]);
            }
            assert(start.is_solved());
            assert forall|y: int, x: int|
                0 <= y < R && 0 <= x < C && (y != pos_y || x != pos_x) implies #[trigger] res.inner[y][x]
                != 0 by {
                assert(res.rows()[y][x] as int == solved_tile(C as int, R as int, y, x));
            }
            assert(res.rows()[pos_y as int][pos_x as int] as int == solved_tile(
                C as int,
                R as int,
                pos_y as int,
                pos_x as int,
            ));
            assert(path_between(path, start, res));
        }
        let mut n: usize = 0;
        while n < shuffles
            invariant
                C > 0,
                R > 0,
                shuffles == 0 || C > 1 || R > 1,
                n <= shuffles,
                res.sole_blank(pos_x as int, pos_y as int),
                start.is_solved(),
                path_between(path, start, res),
                path.len() == n + 1,
                n == 0 ==> res == start,
            decreases shuffles - n,
        {
            let mut move_options: Vec<(usize, usize)> = Vec::new();
            if pos_x > 0 {
                move_options.push((pos_x - 1, pos_y));
            }
            if pos_x + 1 < C {
                move_options.push((pos_x + 1, pos_y));
            }
            if pos_y > 0 {
                move_options.push((pos_x, pos_y - 1));
            }
            if pos_y + 1 < R {
                move_options.push((pos_x, pos_y + 1));
            }
            let (c_x, c_y) = choose_move(&move_options);
            proof {
                let k = choose|k: int| 0 <= k < move_options@.len() && move_options@[k] == (c_x, c_y);
                res.lemma_sole_blank_found(pos_x as int, pos_y as int, C as int, 0);
                assert(res.blank() == (pos_x as int, pos_y as int));
                res.lemma_neighbor_is_successor(pos_x as int, pos_y as int, c_x as int, c_y as int);
                assert(res.successors().contains(
                    res.swapped(pos_x as int, pos_y as int, c_x as int, c_y as int),
                ));
            }
            let next = res.swap_cells(pos_x, pos_y, c_x, c_y);
            proof {
                assert(is_step(res, next));
                let old_path = path;
                path = path.push(next);
                assert forall|i: int, j: int| 0 <= i && j == i + 1 && j < path.len() implies #[trigger] is_step(
                    path[i],
                    path[j],
                ) by {
                    if j < old_path.len() {
                        assert(is_step(old_path[i], old_path[j]));
                    }
                }
                assert forall|y: int, x: int|
                    0 <= y < R && 0 <= x < C && (y != c_y || x != c_x) implies #[trigger] next.inner[y][x]
                    != 0 by {
                    if y == pos_y && x == pos_x {
                        assert(res.inner[c_y as int][c_x as int] != 0);
                    } else {
                        assert(res.inner[y][x] != 0);
                    }
                }
            }
            res = next;
            pos_x = c_x;
            pos_y = c_y;
            n = n + 1;
        }
        res
    }
}

} // verus!
