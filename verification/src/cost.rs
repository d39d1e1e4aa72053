use vstd::prelude::*;
use crate::geom::abs1;

verus! {

/// Move and heuristic costs are kept in integers, in tenths of one
/// axis-aligned step: a straight move costs `AXIS_COST` and a diagonal move
/// `DIAG_COST`, the nearest integer to ten times the square root of two.
pub const AXIS_COST: u64 = 10;

/// Cost of one diagonal move, in tenths of an axis step.
pub const DIAG_COST: u64 = 14;

/// No heuristic value or accumulated path cost ever exceeds this bound on a
/// grid within `MAX_DIM`; it keeps every `u64` cost addition free of
/// overflow.
pub const H_BOUND: u64 = 0x200000;

/// The distance estimate used to order the frontier.  `Octile` is the one
/// consistent with diagonal movement; `Manhattan` with diagonals enabled,
/// or `Euclidean` with diagonals enabled, may overestimate and is reported
/// through `HeuristicInconsistency` rather than silently corrected.
#[derive(Clone, Copy, Debug, PartialEq, Eq, Structural)]
pub enum Heuristic {
    Manhattan,
    Euclidean,
    Octile,
}

/// Cost of the move between two adjacent cells: `AXIS_COST` along a row or
/// column, `DIAG_COST` across a corner.
pub open spec fn edge_cost_spec(r1: int, c1: int, r2: int, c2: int) -> int {
    if r1 == r2 || c1 == c2 {
        AXIS_COST as int
    } else {
        DIAG_COST as int
    }
}

/// `r` is the integer square root of `n`, rounded down.
pub open spec fn is_sqrt_floor(n: int, r: int) -> bool {
    0 <= r && r * r <= n && n < (r + 1) * (r + 1)
}

/// The integer square root of `n`, rounded down.
pub open spec fn spec_isqrt(n: int) -> int {
    choose|r: int| is_sqrt_floor(n, r)
}

/// The heuristic estimate, in tenths of an axis step, of the remaining cost
/// from `(r1, c1)` to `(r2, c2)`.
pub open spec fn h_spec(h: Heuristic, r1: int, c1: int, r2: int, c2: int) -> int {
    let dr = abs1(r1 - r2);
    let dc = abs1(c1 - c2);
    match h {
        Heuristic::Manhattan => 10 * (dr + dc),
        Heuristic::Euclidean => spec_isqrt(100 * (dr * dr + dc * dc)),
        Heuristic::Octile => if dr <= dc {
            14 * dr + 10 * (dc - dr)
        } else {
            14 * dc + 10 * (dr - dc)
        },
    }
}

/// A floor square root exists for every non-negative integer.
pub proof fn lemma_isqrt_exists(n: int)
    requires
        0 <= n,
    ensures
        is_sqrt_floor(n, spec_isqrt(n)),
    decreases n,
{
    if n == 0 {
        assert(is_sqrt_floor(0, 0));
    } else {
        lemma_isqrt_exists(n - 1);
        let r = spec_isqrt(n - 1);
        if (r + 1) * (r + 1) <= n {
            assert(n - 1 < (r + 1) * (r + 1));
            assert(n < (r + 2) * (r + 2)) by (nonlinear_arith)
                requires
                    0 <= r,
                    n <= (r + 1) * (r + 1),
            ;
            assert(is_sqrt_floor(n, r + 1));
        } else {
            assert(is_sqrt_floor(n, r));
        }
    }
    let w = choose|w: int| is_sqrt_floor(n, w);
    assert(is_sqrt_floor(n, w));
}

/// The floor square root is unique.
pub proof fn lemma_isqrt_unique(n: int, r1: int, r2: int)
    requires
        is_sqrt_floor(n, r1),
        is_sqrt_floor(n, r2),
    ensures
        r1 == r2,
{
    if r1 < r2 {
        assert((r1 + 1) * (r1 + 1) <= r2 * r2) by (nonlinear_arith)
            requires
                0 <= r1 + 1,
                r1 + 1 <= r2,
        ;
    }
    if r2 < r1 {
        assert((r2 + 1) * (r2 + 1) <= r1 * r1) by (nonlinear_arith)
            requires
                0 <= r2 + 1,
                r2 + 1 <= r1,
        ;
    }
}

/// Integer square root, rounded down.
pub fn isqrt(n: u64) -> (r: u64)
    requires
        n < 4398046511104,
    ensures
        is_sqrt_floor(n as int, r as int),
        r as int == spec_isqrt(n as int),
{
    let mut lo: u64 = 0;
    let mut hi: u64 = 4194304;
    assert(4194304int * 4194304int > n as int);
    while lo + 1 < hi
        invariant
            0 <= lo < hi <= 4194304,
            lo as int * lo as int <= n as int,
            hi as int * hi as int > n as int,
        decreases hi - lo,
    {
        let mid = lo + (hi - lo) / 2;
        assert(lo < mid < hi);
        assert(mid as int * mid as int <= 4194304int * 4194304int) by (nonlinear_arith)
            requires
                0 <= mid <= 4194304,
        ;
        if mid * mid <= n {
            lo = mid;
        } else {
            hi = mid;
        }
    }
    proof {
        assert(is_sqrt_floor(n as int, lo as int));
        lemma_isqrt_exists(n as int);
        lemma_isqrt_unique(n as int, lo as int, spec_isqrt(n as int));
    }
    lo
}

/// Heuristic values on a bounded grid stay below `H_BOUND`.
pub proof fn lemma_h_bound(h: Heuristic, r1: int, c1: int, r2: int, c2: int)
    requires
        0 <= r1 < 65536,
        0 <= c1 < 65536,
        0 <= r2 < 65536,
        0 <= c2 < 65536,
    ensures
        0 <= h_spec(h, r1, c1, r2, c2) < H_BOUND,
{
    let dr = abs1(r1 - r2);
    let dc = abs1(c1 - c2);
    assert(0 <= dr < 65536 && 0 <= dc < 65536);
    match h {
        Heuristic::Manhattan => {},
        Heuristic::Octile => {},
        Heuristic::Euclidean => {
            let n = 100 * (dr * dr + dc * dc);
            assert(dr * dr <= 65535 * 65535) by (nonlinear_arith)
                requires
                    0 <= dr < 65536,
            ;
            assert(dc * dc <= 65535 * 65535) by (nonlinear_arith)
                requires
                    0 <= dc < 65536,
            ;
            assert(0 <= dr * dr) by (nonlinear_arith);
            assert(0 <= dc * dc) by (nonlinear_arith);
            lemma_isqrt_exists(n);
            let r = spec_isqrt(n);
            assert(n <= 100 * (65535 * 65535 + 65535 * 65535));
            assert(100 * (65535 * 65535 + 65535 * 65535) < 0x200000 * 0x200000);
            if r >= 0x200000 {
                assert(r * r >= 0x200000 * 0x200000) by (nonlinear_arith)
                    requires
                        r >= 0x200000,
                ;
            }
        },
    }
}

/// The heuristic estimate between two cells, computed executably.
pub fn heuristic_cost(h: Heuristic, r1: usize, c1: usize, r2: usize, c2: usize) -> (v: u64)
    requires
        r1 < 65536,
        c1 < 65536,
        r2 < 65536,
        c2 < 65536,
    ensures
        v as int == h_spec(h, r1 as int, c1 as int, r2 as int, c2 as int),
        v < H_BOUND,
{
    proof {
        lemma_h_bound(h, r1 as int, c1 as int, r2 as int, c2 as int);
    }
    let dr: u64 = if r1 >= r2 {
        (r1 - r2) as u64
    } else {
        (r2 - r1) as u64
    };
    let dc: u64 = if c1 >= c2 {
        (c1 - c2) as u64
    } else {
        (c2 - c1) as u64
    };
    match h {
        Heuristic::Manhattan => 10 * (dr + dc),
        Heuristic::Euclidean => {
            assert(dr * dr <= 65535 * 65535) by (nonlinear_arith)
                requires
                    0 <= dr < 65536,
            ;
            assert(dc * dc <= 65535 * 65535) by (nonlinear_arith)
                requires
                    0 <= dc < 65536,
            ;
            let n = 100 * (dr * dr + dc * dc);
            assert(n as int <= 100 * (65535 * 65535 + 65535 * 65535));
            assert(100 * (65535 * 65535 + 65535 * 65535) < 4398046511104);
            isqrt(n)
        },
        Heuristic::Octile => {
            if dr <= dc {
                14 * dr + 10 * (dc - dr)
            } else {
                14 * dc + 10 * (dr - dc)
            }
        },
    }
}

} // verus!
