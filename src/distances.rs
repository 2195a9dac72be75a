use crate::tileboard::Coord;
use crate::traits::Distance;
use vstd::prelude::*;

verus! {

/// Taxicab distance between two cells.
#[derive(Clone, PartialEq, Eq, PartialOrd, Ord, Hash)]
pub struct Manhattan;

/// Straight-line distance between two cells, halved and rounded down.
#[derive(Clone, PartialEq, Eq, PartialOrd, Ord, Hash)]
pub struct Euclidian;

/// `|a - b|`.
pub open spec fn gap(a: int, b: int) -> int {
    if a >= b {
        a - b
    } else {
        b - a
    }
}

/// `r` is the integer square root of `n`: the largest `r` with `r * r <= n`.
pub open spec fn is_isqrt(n: int, r: int) -> bool {
    0 <= r && r * r <= n < (r + 1) * (r + 1)
}

/// The integer square root of a non-negative `n`.
pub open spec fn isqrt(n: int) -> int {
    choose|r: int| is_isqrt(n, r)
}

proof fn lemma_isqrt_unique(n: int, r: int, s: int)
    requires
        is_isqrt(n, r),
        is_isqrt(n, s),
    ensures
        r == s,
{
    if r < s {
        assert((r + 1) * (r + 1) <= s * s) by (nonlinear_arith)
            requires
                0 <= r < s,
        ;
    } else if s < r {
        assert((s + 1) * (s + 1) <= r * r) by (nonlinear_arith)
            requires
                0 <= s < r,
        ;
    }
}

/// The integer square root of `n`, found by bisection.
fn isqrt_u128(n: u128) -> (r: u64)
    ensures
        r as int == isqrt(n as int),
{
    let mut lo: u128 = 0;
    let mut hi: u128 = 0x1_0000_0000_0000_0000;
    assert(hi * hi > u128::MAX) by (nonlinear_arith)
        requires
            hi == 0x1_0000_0000_0000_0000u128,
    ;
    while hi - lo > 1
        invariant
            lo < hi <= 0x1_0000_0000_0000_0000,
            lo * lo <= n,
            n < hi * hi,
        decreases hi - lo,
    {
        let mid = lo + (hi - lo) / 2;
        assert(mid * mid <= u128::MAX) by (nonlinear_arith)
            requires
                mid < 0x1_0000_0000_0000_0000u128,
        ;
        if mid * mid <= n {
            lo = mid;
        } else {
            hi = mid;
        }
    }
    proof {
        assert(is_isqrt(n as int, lo as int));
        lemma_isqrt_unique(n as int, lo as int, isqrt(n as int));
    }
    lo as u64
}

impl Distance for Manhattan {
    type Point = Coord;

    /// The column gap plus the row gap, saturating at `u64::MAX`.
    open spec fn spec_distance(a: Coord, b: Coord) -> int {
        let d = gap(a.spec_column() as int, b.spec_column() as int) + gap(
            a.spec_row() as int,
            b.spec_row() as int,
        );
        if d > u64::MAX {
            u64::MAX as int
        } else {
            d
        }
    }

    fn distance(a: Coord, b: Coord) -> (r: u64) {
        let (ac, bc) = (a.column(), b.column());
        let (ar, br) = (a.row(), b.row());
        let col_diff = if ac >= bc {
            ac - bc
        } else {
            bc - ac
        };
        let row_diff = if ar >= br {
            ar - br
        } else {
            br - ar
        };
        (col_diff as u64).saturating_add(row_diff as u64)
    }
}

impl Distance for Euclidian {
    type Point = Coord;

    /// Half the integer square root of the sum of the squared gaps (that sum saturating at
    /// `u128::MAX`), rounded down.
    open spec fn spec_distance(a: Coord, b: Coord) -> int {
        let dc = gap(a.spec_column() as int, b.spec_column() as int);
        let dr = gap(a.spec_row() as int, b.spec_row() as int);
        let sq = dc * dc + dr * dr;
        isqrt(if sq > u128::MAX {
            u128::MAX as int
        } else {
            sq
        }) / 2
    }

    fn distance(a: Coord, b: Coord) -> (r: u64) {
        let (ac, bc) = (a.column(), b.column());
        let (ar, br) = (a.row(), b.row());
        let col_diff = (if ac >= bc {
            ac - bc
        } else {
            bc - ac
        }) as u128;
        let row_diff = (if ar >= br {
            ar - br
        } else {
            br - ar
        }) as u128;
        assert(col_diff * col_diff <= u128::MAX && row_diff * row_diff <= u128::MAX) by (nonlinear_arith)
            requires
                col_diff <= u64::MAX,
                row_diff <= u64::MAX,
        ;
        let sq = (col_diff * col_diff).saturating_add(row_diff * row_diff);
        isqrt_u128(sq) / 2
    }
}

} // verus!
