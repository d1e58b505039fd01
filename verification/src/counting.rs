//! Counting cells of a grid that satisfy a predicate, either over a prefix of
//! the flat cell array or over the neighbors of one cell, together with the
//! bookkeeping lemmas that relate such counts before and after a single-cell
//! update.

use vstd::prelude::*;
use crate::coords::is_nbr;

verus! {

/// Number of positions `j < upto` whose cell satisfies `f`.
pub open spec fn count_cells<T>(g: Seq<T>, upto: int, f: spec_fn(T) -> bool) -> int
    decreases upto,
{
    if upto <= 0 {
        0
    } else {
        count_cells(g, upto - 1, f) + if f(g[upto - 1]) {
            1int
        } else {
            0int
        }
    }
}

/// Number of positions `j < upto` that are neighbors of `at` and whose cell
/// satisfies `f`.
pub open spec fn count_adj<T>(
    g: Seq<T>,
    s: [usize; 6],
    w: [bool; 6],
    at: int,
    upto: int,
    f: spec_fn(T) -> bool,
) -> int
    decreases upto,
{
    if upto <= 0 {
        0
    } else {
        count_adj(g, s, w, at, upto - 1, f) + if is_nbr(s, w, at, upto - 1) && f(g[upto - 1]) {
            1int
        } else {
            0int
        }
    }
}

pub proof fn lemma_count_cells_bounds<T>(g: Seq<T>, upto: int, f: spec_fn(T) -> bool)
    requires
        0 <= upto,
    ensures
        0 <= count_cells(g, upto, f) <= upto,
    decreases upto,
{
    if upto > 0 {
        lemma_count_cells_bounds(g, upto - 1, f);
    }
}

pub proof fn lemma_count_adj_bounds<T>(
    g: Seq<T>,
    s: [usize; 6],
    w: [bool; 6],
    at: int,
    upto: int,
    f: spec_fn(T) -> bool,
)
    requires
        0 <= upto,
    ensures
        0 <= count_adj(g, s, w, at, upto, f) <= upto,
    decreases upto,
{
    if upto > 0 {
        lemma_count_adj_bounds(g, s, w, at, upto - 1, f);
    }
}

/// Neighbor counts grow with the prefix.
pub proof fn lemma_count_adj_mono<T>(
    g: Seq<T>,
    s: [usize; 6],
    w: [bool; 6],
    at: int,
    a: int,
    b: int,
    f: spec_fn(T) -> bool,
)
    requires
        0 <= a <= b,
    ensures
        count_adj(g, s, w, at, a, f) <= count_adj(g, s, w, at, b, f),
    decreases b - a,
{
    if a < b {
        lemma_count_adj_mono(g, s, w, at, a, b - 1, f);
    }
}

/// A neighbor-restricted count never exceeds the unrestricted count.
pub proof fn lemma_count_adj_le_cells<T>(
    g: Seq<T>,
    s: [usize; 6],
    w: [bool; 6],
    at: int,
    upto: int,
    f: spec_fn(T) -> bool,
)
    requires
        0 <= upto,
    ensures
        count_adj(g, s, w, at, upto, f) <= count_cells(g, upto, f),
    decreases upto,
{
    if upto > 0 {
        lemma_count_adj_le_cells(g, s, w, at, upto - 1, f);
    }
}

/// How a prefix count changes when one cell is replaced.
pub proof fn lemma_count_cells_update<T>(
    g: Seq<T>,
    p: int,
    v: T,
    upto: int,
    f: spec_fn(T) -> bool,
)
    requires
        0 <= p < g.len(),
        upto <= g.len(),
    ensures
        count_cells(g.update(p, v), upto, f) == count_cells(g, upto, f) + if p < upto && f(v)
            && !f(g[p]) {
            1int
        } else if p < upto && !f(v) && f(g[p]) {
            -1int
        } else {
            0int
        },
    decreases upto,
{
    if upto > 0 {
        lemma_count_cells_update(g, p, v, upto - 1, f);
    }
}

/// How a neighbor count changes when one cell is replaced.
pub proof fn lemma_count_adj_update<T>(
    g: Seq<T>,
    s: [usize; 6],
    w: [bool; 6],
    at: int,
    p: int,
    v: T,
    upto: int,
    f: spec_fn(T) -> bool,
)
    requires
        0 <= p < g.len(),
        upto <= g.len(),
    ensures
        count_adj(g.update(p, v), s, w, at, upto, f) == count_adj(g, s, w, at, upto, f) + if p
            < upto && is_nbr(s, w, at, p) && f(v) && !f(g[p]) {
            1int
        } else if p < upto && is_nbr(s, w, at, p) && !f(v) && f(g[p]) {
            -1int
        } else {
            0int
        },
    decreases upto,
{
    if upto > 0 {
        lemma_count_adj_update(g, s, w, at, p, v, upto - 1, f);
    }
}

/// Two grids whose cells agree under `f` on the prefix have the same count.
pub proof fn lemma_count_cells_congr<T>(g1: Seq<T>, g2: Seq<T>, upto: int, f: spec_fn(T) -> bool)
    requires
        forall|j: int| 0 <= j < upto ==> f(#[trigger] g1[j]) == f(#[trigger] g2[j]),
    ensures
        count_cells(g1, upto, f) == count_cells(g2, upto, f),
    decreases upto,
{
    if upto > 0 {
        lemma_count_cells_congr(g1, g2, upto - 1, f);
    }
}

/// Two grids whose cells agree under `f` on the prefix have the same
/// neighbor count.
pub proof fn lemma_count_adj_congr<T>(
    g1: Seq<T>,
    g2: Seq<T>,
    s: [usize; 6],
    w: [bool; 6],
    at: int,
    upto: int,
    f: spec_fn(T) -> bool,
)
    requires
        forall|j: int| 0 <= j < upto ==> f(#[trigger] g1[j]) == f(#[trigger] g2[j]),
    ensures
        count_adj(g1, s, w, at, upto, f) == count_adj(g2, s, w, at, upto, f),
    decreases upto,
{
    if upto > 0 {
        lemma_count_adj_congr(g1, g2, s, w, at, upto - 1, f);
    }
}

/// Two predicates that agree on every cell of the prefix count alike over
/// neighbors.
pub proof fn lemma_count_adj_pred_congr<T>(
    g: Seq<T>,
    s: [usize; 6],
    w: [bool; 6],
    at: int,
    upto: int,
    f: spec_fn(T) -> bool,
    h: spec_fn(T) -> bool,
)
    requires
        forall|j: int| 0 <= j < upto ==> f(#[trigger] g[j]) == h(g[j]),
    ensures
        count_adj(g, s, w, at, upto, f) == count_adj(g, s, w, at, upto, h),
    decreases upto,
{
    if upto > 0 {
        lemma_count_adj_pred_congr(g, s, w, at, upto - 1, f, h);
    }
}

/// A satisfied position inside the prefix makes the count positive.
pub proof fn lemma_count_cells_pos<T>(g: Seq<T>, upto: int, f: spec_fn(T) -> bool, i: int)
    requires
        0 <= i < upto,
        f(g[i]),
    ensures
        count_cells(g, upto, f) >= 1,
    decreases upto,
{
    lemma_count_cells_bounds(g, i, f);
    if i < upto - 1 {
        lemma_count_cells_pos(g, upto - 1, f, i);
    } else {
        lemma_count_cells_bounds(g, upto - 1, f);
    }
}

/// If no position in the prefix satisfies `f`, the count is zero.
pub proof fn lemma_count_cells_none<T>(g: Seq<T>, upto: int, f: spec_fn(T) -> bool)
    requires
        forall|j: int| 0 <= j < upto ==> !f(#[trigger] g[j]),
    ensures
        count_cells(g, upto, f) == 0,
    decreases upto,
{
    if upto > 0 {
        lemma_count_cells_none(g, upto - 1, f);
    }
}

/// If every position in the prefix satisfies `f`, the count is the prefix
/// length.
pub proof fn lemma_count_cells_all<T>(g: Seq<T>, upto: int, f: spec_fn(T) -> bool)
    requires
        0 <= upto,
        forall|j: int| 0 <= j < upto ==> f(#[trigger] g[j]),
    ensures
        count_cells(g, upto, f) == upto,
    decreases upto,
{
    if upto > 0 {
        lemma_count_cells_all(g, upto - 1, f);
    }
}

/// A zero neighbor count means no neighbor in the prefix satisfies `f`.
pub proof fn lemma_count_adj_none<T>(
    g: Seq<T>,
    s: [usize; 6],
    w: [bool; 6],
    at: int,
    upto: int,
    f: spec_fn(T) -> bool,
)
    requires
        count_adj(g, s, w, at, upto, f) == 0,
        0 <= upto,
    ensures
        forall|j: int| 0 <= j < upto && is_nbr(s, w, at, j) ==> !f(#[trigger] g[j]),
    decreases upto,
{
    if upto > 0 {
        lemma_count_adj_bounds(g, s, w, at, upto - 1, f);
        lemma_count_adj_none(g, s, w, at, upto - 1, f);
    }
}

/// Counting a predicate and its complement covers the whole prefix.
pub proof fn lemma_count_cells_complement<T>(
    g: Seq<T>,
    upto: int,
    f: spec_fn(T) -> bool,
    h: spec_fn(T) -> bool,
)
    requires
        0 <= upto,
        forall|j: int| 0 <= j < upto ==> f(#[trigger] g[j]) == !h(g[j]),
    ensures
        count_cells(g, upto, f) + count_cells(g, upto, h) == upto,
    decreases upto,
{
    if upto > 0 {
        lemma_count_cells_complement(g, upto - 1, f, h);
    }
}

} // verus!
