//! Coordinates on the six-axis grid: the linear layout of the dense cell
//! array, and the neighborhood relation between cells.
//!
//! A coordinate is one index per axis. Cells are stored in one flat array;
//! the first axis varies fastest. `lin` maps a coordinate to its position in
//! that array and `ax` recovers one axis index from a position.
//!
//! Two distinct cells are neighbors when their indices are adjacent on every
//! axis, where adjacency on an axis means a difference of at most one, or
//! being the two extreme indices of an axis that wraps. This is a set-based
//! notion: on very small wrapping axes, where a window around an index could
//! enumerate the same cell twice, each neighboring cell still counts exactly
//! once.

use vstd::prelude::*;
use vstd::arithmetic::div_mod::lemma_fundamental_div_mod;
use vstd::arithmetic::div_mod::lemma_fundamental_div_mod_converse_div;
use vstd::arithmetic::div_mod::lemma_fundamental_div_mod_converse_mod;
use vstd::arithmetic::div_mod::lemma_multiply_divide_lt;
use vstd::arithmetic::div_mod::lemma_div_pos_is_pos;
use vstd::arithmetic::div_mod::lemma_mod_bound;

verus! {

/// Number of independent axes of the board.
pub const DIMENSIONS_COUNT: usize = 6;

/// Every axis has at least one cell.
pub open spec fn size_ok(s: [usize; 6]) -> bool {
    forall|k: int| 0 <= k < 6 ==> 1 <= #[trigger] s[k]
}

/// Product of the axis extents from axis `k` up.
pub open spec fn prod_from(s: [usize; 6], k: int) -> int
    decreases 6 - k,
{
    if k >= 6 {
        1
    } else {
        s[k] as int * prod_from(s, k + 1)
    }
}

/// Total number of cells of a board with axis extents `s`.
pub open spec fn total_cells(s: [usize; 6]) -> int {
    prod_from(s, 0)
}

/// The coordinate lies strictly inside the board on every axis.
pub open spec fn in_bounds(s: [usize; 6], c: [usize; 6]) -> bool {
    forall|k: int| 0 <= k < 6 ==> #[trigger] c[k] < s[k]
}

/// Linear position of coordinate `c`, restricted to the axes from `k` up.
pub open spec fn lin_from(s: [usize; 6], c: [usize; 6], k: int) -> int
    decreases 6 - k,
{
    if k >= 6 {
        0
    } else {
        c[k] as int + s[k] as int * lin_from(s, c, k + 1)
    }
}

/// Linear position of coordinate `c` in the flat cell array.
pub open spec fn lin(s: [usize; 6], c: [usize; 6]) -> int {
    lin_from(s, c, 0)
}

/// What remains of linear position `i` once the first `k` axes are peeled off.
pub open spec fn rem(s: [usize; 6], i: int, k: int) -> int
    decreases k,
{
    if k <= 0 {
        i
    } else {
        rem(s, i, k - 1) / (s[k - 1] as int)
    }
}

/// Axis-`k` index of the cell at linear position `i`.
pub open spec fn ax(s: [usize; 6], i: int, k: int) -> int {
    rem(s, i, k) % (s[k] as int)
}

pub proof fn lemma_prod_from_pos(s: [usize; 6], k: int)
    requires
        size_ok(s),
        0 <= k,
    ensures
        prod_from(s, k) >= 1,
    decreases 6 - k,
{
    if k < 6 {
        lemma_prod_from_pos(s, k + 1);
        assert(s[k] as int * prod_from(s, k + 1) >= 1) by (nonlinear_arith)
            requires
                s[k] as int >= 1,
                prod_from(s, k + 1) >= 1,
        ;
    }
}

pub proof fn lemma_prod_from_le_total(s: [usize; 6], k: int)
    requires
        size_ok(s),
        0 <= k <= 6,
    ensures
        prod_from(s, k) <= total_cells(s),
    decreases k,
{
    if k > 0 {
        lemma_prod_from_le_total(s, k - 1);
        lemma_prod_from_pos(s, k);
        assert(prod_from(s, k) <= s[k - 1] as int * prod_from(s, k)) by (nonlinear_arith)
            requires
                s[k - 1] as int >= 1,
                prod_from(s, k) >= 1,
        ;
    }
}

pub proof fn lemma_lin_from_bounds(s: [usize; 6], c: [usize; 6], k: int)
    requires
        size_ok(s),
        in_bounds(s, c),
        0 <= k <= 6,
    ensures
        0 <= lin_from(s, c, k) < prod_from(s, k),
    decreases 6 - k,
{
    if k < 6 {
        lemma_lin_from_bounds(s, c, k + 1);
        assert(0 <= c[k] as int + s[k] as int * lin_from(s, c, k + 1) < s[k] as int * prod_from(
            s,
            k + 1,
        )) by (nonlinear_arith)
            requires
                0 <= (c[k] as int) < (s[k] as int),
                0 <= lin_from(s, c, k + 1) < prod_from(s, k + 1),
        ;
    }
}

proof fn lemma_rem_lin(s: [usize; 6], c: [usize; 6], k: int)
    requires
        size_ok(s),
        in_bounds(s, c),
        0 <= k <= 6,
    ensures
        rem(s, lin(s, c), k) == lin_from(s, c, k),
    decreases k,
{
    if k > 0 {
        lemma_rem_lin(s, c, k - 1);
        lemma_lin_from_bounds(s, c, k);
        assert(lin_from(s, c, k - 1) == c[k - 1] as int + s[k - 1] as int * lin_from(s, c, k));
        assert(s[k - 1] as int * lin_from(s, c, k) == lin_from(s, c, k) * (s[k - 1] as int)) by (nonlinear_arith);
        lemma_fundamental_div_mod_converse_div(
            lin_from(s, c, k - 1),
            s[k - 1] as int,
            lin_from(s, c, k),
            c[k - 1] as int,
        );
    }
}

/// Decoding a coordinate's linear position gives back the coordinate.
pub proof fn lemma_ax_lin(s: [usize; 6], c: [usize; 6])
    requires
        size_ok(s),
        in_bounds(s, c),
    ensures
        0 <= lin(s, c) < total_cells(s),
        forall|k: int| 0 <= k < 6 ==> #[trigger] ax(s, lin(s, c), k) == c[k] as int,
{
    lemma_lin_from_bounds(s, c, 0);
    assert forall|k: int| 0 <= k < 6 implies #[trigger] ax(s, lin(s, c), k) == c[k] as int by {
        lemma_rem_lin(s, c, k);
        lemma_lin_from_bounds(s, c, k + 1);
        assert(lin_from(s, c, k) == c[k] as int + s[k] as int * lin_from(s, c, k + 1));
        assert(s[k] as int * lin_from(s, c, k + 1) == lin_from(s, c, k + 1) * (s[k] as int)) by (nonlinear_arith);
        lemma_fundamental_div_mod_converse_mod(
            lin_from(s, c, k),
            s[k] as int,
            lin_from(s, c, k + 1),
            c[k] as int,
        );
    }
}

pub proof fn lemma_rem_bounds(s: [usize; 6], i: int, k: int)
    requires
        size_ok(s),
        0 <= i < total_cells(s),
        0 <= k <= 6,
    ensures
        0 <= rem(s, i, k) < prod_from(s, k),
    decreases k,
{
    if k == 0 {
    } else {
        lemma_rem_bounds(s, i, k - 1);
        lemma_div_pos_is_pos(rem(s, i, k - 1), s[k - 1] as int);
        lemma_multiply_divide_lt(rem(s, i, k - 1), s[k - 1] as int, prod_from(s, k));
    }
}

/// Every decoded axis index is in bounds for its axis.
pub proof fn lemma_ax_bounds(s: [usize; 6], i: int)
    requires
        size_ok(s),
        0 <= i < total_cells(s),
    ensures
        forall|k: int| 0 <= k < 6 ==> 0 <= #[trigger] ax(s, i, k) < s[k] as int,
{
    assert forall|k: int| 0 <= k < 6 implies 0 <= #[trigger] ax(s, i, k) < s[k] as int by {
        lemma_mod_bound(rem(s, i, k), s[k] as int);
    }
}

proof fn lemma_lin_decode_helper(s: [usize; 6], i: int, c: [usize; 6], k: int)
    requires
        size_ok(s),
        0 <= i < total_cells(s),
        forall|j: int| 0 <= j < 6 ==> c[j] as int == ax(s, i, j),
        0 <= k <= 6,
    ensures
        lin_from(s, c, k) == rem(s, i, k),
    decreases 6 - k,
{
    if k == 6 {
        lemma_rem_bounds(s, i, 6);
    } else {
        lemma_lin_decode_helper(s, i, c, k + 1);
        lemma_rem_bounds(s, i, k);
        lemma_fundamental_div_mod(rem(s, i, k), s[k] as int);
    }
}

/// Encoding the decoded axis indices of a linear position gives it back.
pub proof fn lemma_lin_decode(s: [usize; 6], i: int, c: [usize; 6])
    requires
        size_ok(s),
        0 <= i < total_cells(s),
        forall|j: int| 0 <= j < 6 ==> c[j] as int == ax(s, i, j),
    ensures
        in_bounds(s, c),
        lin(s, c) == i,
{
    lemma_ax_bounds(s, i);
    lemma_lin_decode_helper(s, i, c, 0);
}

/// Distinct in-bounds coordinates have distinct linear positions.
pub proof fn lemma_lin_injective(s: [usize; 6], c: [usize; 6], d: [usize; 6])
    requires
        size_ok(s),
        in_bounds(s, c),
        in_bounds(s, d),
        lin(s, c) == lin(s, d),
    ensures
        forall|k: int| 0 <= k < 6 ==> c[k] == d[k],
{
    lemma_ax_lin(s, c);
    lemma_ax_lin(s, d);
    assert forall|k: int| 0 <= k < 6 implies #[trigger] c[k] == d[k] by {
        assert(ax(s, lin(s, c), k) == c[k] as int);
        assert(ax(s, lin(s, d), k) == d[k] as int);
    }
}

proof fn lemma_lin_from_congr(s: [usize; 6], c: [usize; 6], d: [usize; 6], k: int)
    requires
        forall|j: int| 0 <= j < 6 ==> c[j] == d[j],
        0 <= k <= 6,
    ensures
        lin_from(s, c, k) == lin_from(s, d, k),
    decreases 6 - k,
{
    if k < 6 {
        lemma_lin_from_congr(s, c, d, k + 1);
    }
}

/// Adjacency of two in-bounds indices along one axis of extent `n`: they
/// differ by at most one, or they are the two ends of a wrapping axis.
pub open spec fn axis_adj(a: int, b: int, n: int, w: bool) -> bool {
    (a - 1 <= b <= a + 1) || (w && a == n - 1 && b == 0) || (w && a == 0 && b == n - 1)
}

/// The cells at linear positions `i` and `j` are distinct and adjacent on
/// every axis.
pub open spec fn is_nbr(s: [usize; 6], w: [bool; 6], i: int, j: int) -> bool {
    i != j && forall|k: int| 0 <= k < 6 ==> axis_adj(
        #[trigger] ax(s, i, k),
        ax(s, j, k),
        s[k] as int,
        w[k],
    )
}

/// The neighbor relation is symmetric.
pub proof fn lemma_is_nbr_symm(s: [usize; 6], w: [bool; 6], i: int, j: int)
    requires
        size_ok(s),
        0 <= i < total_cells(s),
        0 <= j < total_cells(s),
    ensures
        is_nbr(s, w, i, j) == is_nbr(s, w, j, i),
{
    lemma_ax_bounds(s, i);
    lemma_ax_bounds(s, j);
    if is_nbr(s, w, i, j) {
        assert forall|k: int| 0 <= k < 6 implies axis_adj(
            #[trigger] ax(s, j, k),
            ax(s, i, k),
            s[k] as int,
            w[k],
        ) by {
            assert(axis_adj(ax(s, i, k), ax(s, j, k), s[k] as int, w[k]));
        }
    }
    if is_nbr(s, w, j, i) {
        assert forall|k: int| 0 <= k < 6 implies axis_adj(
            #[trigger] ax(s, i, k),
            ax(s, j, k),
            s[k] as int,
            w[k],
        ) by {
            assert(axis_adj(ax(s, j, k), ax(s, i, k), s[k] as int, w[k]));
        }
    }
}

/// Linear position of the in-bounds coordinate `c`.
pub fn index_of(s: &[usize; 6], c: &[usize; 6]) -> (i: usize)
    requires
        size_ok(*s),
        in_bounds(*s, *c),
        total_cells(*s) <= 0x7fff_ffff,
    ensures
        i as int == lin(*s, *c),
        (i as int) < total_cells(*s),
{
    proof {
        lemma_lin_from_bounds(*s, *c, 0);
        lemma_lin_from_bounds(*s, *c, 1);
        lemma_lin_from_bounds(*s, *c, 2);
        lemma_lin_from_bounds(*s, *c, 3);
        lemma_lin_from_bounds(*s, *c, 4);
        lemma_lin_from_bounds(*s, *c, 5);
        lemma_prod_from_le_total(*s, 1);
        lemma_prod_from_le_total(*s, 2);
        lemma_prod_from_le_total(*s, 3);
        lemma_prod_from_le_total(*s, 4);
        lemma_prod_from_le_total(*s, 5);
        assert(lin_from(*s, *c, 6) == 0);
    }
    let mut acc: usize = c[5];
    assert(acc as int == lin_from(*s, *c, 5));
    proof {
        assert(acc as int * (s[4] as int) == s[4] as int * lin_from(*s, *c, 5)) by (nonlinear_arith)
            requires
                acc as int == lin_from(*s, *c, 5),
        ;
    }
    acc = acc * s[4] + c[4];
    assert(acc as int == lin_from(*s, *c, 4));
    proof {
        assert(acc as int * (s[3] as int) == s[3] as int * lin_from(*s, *c, 4)) by (nonlinear_arith)
            requires
                acc as int == lin_from(*s, *c, 4),
        ;
    }
    acc = acc * s[3] + c[3];
    assert(acc as int == lin_from(*s, *c, 3));
    proof {
        assert(acc as int * (s[2] as int) == s[2] as int * lin_from(*s, *c, 3)) by (nonlinear_arith)
            requires
                acc as int == lin_from(*s, *c, 3),
        ;
    }
    acc = acc * s[2] + c[2];
    assert(acc as int == lin_from(*s, *c, 2));
    proof {
        assert(acc as int * (s[1] as int) == s[1] as int * lin_from(*s, *c, 2)) by (nonlinear_arith)
            requires
                acc as int == lin_from(*s, *c, 2),
        ;
    }
    acc = acc * s[1] + c[1];
    assert(acc as int == lin_from(*s, *c, 1));
    proof {
        assert(acc as int * (s[0] as int) == s[0] as int * lin_from(*s, *c, 1)) by (nonlinear_arith)
            requires
                acc as int == lin_from(*s, *c, 1),
        ;
    }
    acc = acc * s[0] + c[0];
    assert(acc as int == lin_from(*s, *c, 0));
    acc
}

/// Coordinate of the cell at linear position `i`.
pub fn coords_of(s: &[usize; 6], i: usize) -> (c: [usize; 6])
    requires
        size_ok(*s),
        (i as int) < total_cells(*s),
    ensures
        forall|k: int| 0 <= k < 6 ==> #[trigger] c[k] as int == ax(*s, i as int, k),
        in_bounds(*s, c),
        lin(*s, c) == i as int,
{
    let mut r: usize = i;
    assert(r as int == rem(*s, i as int, 0));
    let c0: usize = r % s[0];
    r = r / s[0];
    assert(r as int == rem(*s, i as int, 1));
    let c1: usize = r % s[1];
    r = r / s[1];
    assert(r as int == rem(*s, i as int, 2));
    let c2: usize = r % s[2];
    r = r / s[2];
    assert(r as int == rem(*s, i as int, 3));
    let c3: usize = r % s[3];
    r = r / s[3];
    assert(r as int == rem(*s, i as int, 4));
    let c4: usize = r % s[4];
    r = r / s[4];
    assert(r as int == rem(*s, i as int, 5));
    let c5: usize = r % s[5];
    let c: [usize; 6] = [c0, c1, c2, c3, c4, c5];
    proof {
        assert(c[0] as int == ax(*s, i as int, 0));
        assert(c[1] as int == ax(*s, i as int, 1));
        assert(c[2] as int == ax(*s, i as int, 2));
        assert(c[3] as int == ax(*s, i as int, 3));
        assert(c[4] as int == ax(*s, i as int, 4));
        assert(c[5] as int == ax(*s, i as int, 5));
        lemma_lin_decode(*s, i as int, c);
    }
    c
}

/// Whether the cells at `c` and `d` are neighbors.
pub fn is_adjacent(s: &[usize; 6], w: &[bool; 6], c: &[usize; 6], d: &[usize; 6]) -> (r: bool)
    requires
        size_ok(*s),
        in_bounds(*s, *c),
        in_bounds(*s, *d),
        total_cells(*s) <= 0x7fff_ffff,
    ensures
        r == is_nbr(*s, *w, lin(*s, *c), lin(*s, *d)),
{
    proof {
        lemma_ax_lin(*s, *c);
        lemma_ax_lin(*s, *d);
        lemma_prod_from_le_total(*s, 1);
        lemma_prod_from_le_total(*s, 2);
        lemma_prod_from_le_total(*s, 3);
        lemma_prod_from_le_total(*s, 4);
        lemma_prod_from_le_total(*s, 5);
        assert forall|k: int| 0 <= k < 6 implies #[trigger] s[k] as int <= total_cells(*s) by {
            lemma_prod_from_pos(*s, k + 1);
            assert(s[k] as int <= s[k] as int * prod_from(*s, k + 1)) by (nonlinear_arith)
                requires
                    s[k] as int >= 1,
                    prod_from(*s, k + 1) >= 1,
            ;
            lemma_prod_from_le_total(*s, k);
        }
    }
    let same = c[0] == d[0] && c[1] == d[1] && c[2] == d[2] && c[3] == d[3] && c[4] == d[4] && c[5]
        == d[5];
    if same {
        proof {
            lemma_lin_from_congr(*s, *c, *d, 0);
        }
        return false;
    }
    proof {
        if lin(*s, *c) == lin(*s, *d) {
            lemma_lin_injective(*s, *c, *d);
        }
    }
    let mut adj = true;
    let mut k: usize = 0;
    while k < 6
        invariant
            0 <= k <= 6,
            size_ok(*s),
            in_bounds(*s, *c),
            in_bounds(*s, *d),
            forall|j: int| 0 <= j < 6 ==> #[trigger] s[j] as int <= total_cells(*s),
            total_cells(*s) <= 0x7fff_ffff,
            adj == forall|j: int|
                0 <= j < k ==> axis_adj(#[trigger] c[j] as int, d[j] as int, s[j] as int, w[j]),
        decreases 6 - k,
    {
        let a = c[k];
        let b = d[k];
        let ok = (b + 1 >= a && b <= a + 1) || (w[k] && a == s[k] - 1 && b == 0) || (w[k] && a == 0
            && b == s[k] - 1);
        proof {
            assert(ok == axis_adj(c[k as int] as int, d[k as int] as int, s[k as int] as int, w[k as int]));
        }
        adj = adj && ok;
        k = k + 1;
    }
    proof {
        lemma_ax_lin(*s, *c);
        lemma_ax_lin(*s, *d);
        if adj {
            assert forall|j: int| 0 <= j < 6 implies axis_adj(
                #[trigger] ax(*s, lin(*s, *c), j),
                ax(*s, lin(*s, *d), j),
                s[j] as int,
                w[j],
            ) by {
                assert(axis_adj(c[j] as int, d[j] as int, s[j] as int, w[j]));
            }
            assert(is_nbr(*s, *w, lin(*s, *c), lin(*s, *d)));
        } else {
            assert(exists|j: int|
                0 <= j < 6 && !axis_adj(
                    #[trigger] c[j] as int,
                    d[j] as int,
                    s[j] as int,
                    w[j],
                ));
            let j = choose|j: int|
                0 <= j < 6 && !axis_adj(#[trigger] c[j] as int, d[j] as int, s[j] as int, w[j]);
            assert(!axis_adj(ax(*s, lin(*s, *c), j), ax(*s, lin(*s, *d), j), s[j] as int, w[j]));
            assert(!is_nbr(*s, *w, lin(*s, *c), lin(*s, *d)));
        }
    }
    adj
}

} // verus!
