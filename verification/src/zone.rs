//! Zone topology: where a cell sits inside its base cell, the scanline order of its sub-zones,
//! its four edge neighbours, and whole-grid rasters with halos.
//!
//! ```text
//! position   (base, level, row, col)     row 0 at the top of the base cell, n = N^level
//! digit      d = N·row_i + col_i          one base-N digit of row and of col per level
//! scanline   index = row·N^k + col        a sub-zone at depth k inside its ancestor
//! raster     index = base·n² + row·n + col
//! ```
//! A cid's digits interleave its row and column, so every query here is integer arithmetic on
//! the cid, and none of it changes a root. The six base cells are laid out as rHEALPix lays them:
//! O, P, Q, R in one horizontal band that wraps, N above the band's column `north_square` and S
//! below column `south_square`. Crossing onto N or S away from its own column rotates the polar
//! square by the column offset in quarter turns. At each corner of a base cell only three base
//! cells meet, so the diagonal beyond a corner has no cell.

use vstd::prelude::*;
use vstd::arithmetic::power::*;
use vstd::arithmetic::div_mod::*;
use vstd::arithmetic::mul::*;
use crate::arith::{lemma_div_in_block, lemma_pow_pos, lemma_pow_succ};
use crate::error::{invalid, Error, Result};
use crate::hierarchy::{cid_space, upow, Cid, Hierarchy};
use crate::profile::{spec_valid, Profile};
use crate::tree::{covers, make_branch, wf_node, Node, Tree};
use crate::hash::Ctx;
use std::sync::Arc;

verus! {

/// The largest raster or halo index this module builds, in cells.
pub const MAX_RASTER_CELLS: u64 = 1073741824;

/// Where a cell sits in its base cell.
#[derive(Debug, Clone, Copy, PartialEq, Eq, Structural)]
pub struct Position {
    pub base: u32,
    pub level: u32,
    pub row: u64,
    pub col: u64,
}

/// `n` is the square root of `a`.
pub open spec fn is_sqrt(n: nat, a: nat) -> bool {
    n * n == a
}

/// `N` for a square aperture `A = N²`, if `A` is a square.
pub open spec fn spec_side(a: nat) -> Option<nat> {
    if exists|n: nat| #[trigger] is_sqrt(n, a) {
        Some(choose|n: nat| #[trigger] is_sqrt(n, a))
    } else {
        None
    }
}

/// The row of a cell inside its base cell, from its digits: one base-`n` digit per level.
pub open spec fn row_of(ds: Seq<u32>, n: nat) -> int
    decreases ds.len(),
{
    if ds.len() == 0 {
        0
    } else {
        row_of(ds.drop_last(), n) * n + ds.last() as int / n as int
    }
}

/// The column of a cell inside its base cell, from its digits.
pub open spec fn col_of(ds: Seq<u32>, n: nat) -> int
    decreases ds.len(),
{
    if ds.len() == 0 {
        0
    } else {
        col_of(ds.drop_last(), n) * n + ds.last() as int % n as int
    }
}

/// Where a cid sits in its base cell, for side `n`.
pub open spec fn spec_position(h: Hierarchy, c: int, n: nat) -> Position {
    Position {
        base: h.path_of(c)[0],
        level: h.spec_level(c) as u32,
        row: row_of(h.path_of(c).drop_first(), n) as u64,
        col: col_of(h.path_of(c).drop_first(), n) as u64,
    }
}

/// The `i`-th of the `l` base-`n` digits of `v`, most significant first.
pub open spec fn digit(v: int, n: nat, l: nat, i: int) -> int {
    (v / pow(n as int, (l - 1 - i) as nat)) % (n as int)
}

/// The digits of the cell at `(row, col)` of a base cell `l` levels down: row and column digits
/// interleaved, `d = n·row_i + col_i`.
pub open spec fn cell_digits(row: int, col: int, n: nat, l: nat) -> Seq<u32> {
    Seq::new(l, |i: int| (digit(row, n, l, i) * n + digit(col, n, l, i)) as u32)
}

/// The cid of the cell at `(row, col)` of base cell `base` at `level`.
pub open spec fn spec_cell_at(h: Hierarchy, base: u32, level: u32, row: int, col: int, n: nat) -> int {
    h.spec_cid(seq![base] + cell_digits(row, col, n, level as nat))
}

/// The square root of a square is unique.
proof fn lemma_square_unique(m: nat, n: nat)
    requires
        m * m == n * n,
    ensures
        m == n,
{
    if m < n {
        assert(m * m < n * n) by (nonlinear_arith)
            requires
                m < n,
        ;
    } else if n < m {
        assert(n * n < m * m) by (nonlinear_arith)
            requires
                n < m,
        ;
    }
}

/// `N` for a square aperture `A = N²`.
pub fn side(h: &Hierarchy) -> (r: Result<u64>)
    ensures
        r is Ok <==> spec_side(h.a as nat) is Some,
        r matches Ok(n) ==> n == spec_side(h.a as nat)->0 && n * n == h.a,
{
    let a = h.a as u64;
    // the largest n with n^2 <= a, by bisection over [0, 2^16]
    let mut lo: u64 = 0;
    let mut hi: u64 = 65536;
    while lo + 1 < hi
        invariant
            a == h.a,
            lo < hi <= 65536,
            lo * lo <= a,
            hi * hi > a,
        decreases hi - lo,
    {
        let mid = lo + (hi - lo) / 2;
        proof {
            assert(mid * mid <= 65536 * 65536) by (nonlinear_arith)
                requires
                    mid <= 65536,
            ;
        }
        if mid * mid <= a {
            lo = mid;
        } else {
            hi = mid;
        }
    }
    proof {
        assert(hi == lo + 1);
        if exists|n: nat| #[trigger] is_sqrt(n, a as nat) {
            let n = choose|n: nat| #[trigger] is_sqrt(n, a as nat);
            if n < lo {
                assert(n * n < lo * lo) by (nonlinear_arith)
                    requires
                        n < lo,
                ;
            } else if n > lo {
                assert(n * n >= hi * hi) by (nonlinear_arith)
                    requires
                        n >= hi,
                ;
            }
        }
    }
    if lo * lo != a {
        return invalid("aperture is not a square; cells have no row and column");
    }
    proof {
        assert(is_sqrt(lo as nat, a as nat));
        let n = choose|n: nat| #[trigger] is_sqrt(n, a as nat);
        lemma_square_unique(n, lo as nat);
    }
    Ok(lo)
}

/// `N^level`, the side of a base cell at `level` in cells, when it fits in 64 bits.
fn span(h: &Hierarchy, level: u32) -> (r: Result<u64>)
    requires
        h.valid(),
    ensures
        r is Ok <==> spec_side(h.a as nat) is Some && pow(spec_side(h.a as nat)->0 as int, level as nat) < cid_space(),
        r matches Ok(w) ==> w == pow(spec_side(h.a as nat)->0 as int, level as nat),
{
    let n = side(h)?;
    match crate::hierarchy::checked_upow(n, level) {
        Some(w) => Ok(w),
        None => invalid("level overflows"),
    }
}

/// The side of an aperture of at least 2 is at least 2 and at most the aperture.
proof fn lemma_side_bounds(n: nat, a: nat)
    requires
        n * n == a,
        a >= 2,
    ensures
        2 <= n <= a,
{
    if n < 2 {
        assert(n * n <= 1) by (nonlinear_arith)
            requires
                n < 2,
        ;
    }
    assert(n <= n * n) by (nonlinear_arith)
        requires
            n >= 2,
    ;
}

/// `x^k <= y^k` for `1 <= x <= y`.
proof fn lemma_pow_base_le(x: nat, y: nat, k: nat)
    requires
        1 <= x <= y,
    ensures
        pow(x as int, k) <= pow(y as int, k),
    decreases k,
{
    if k == 0 {
        reveal(pow);
    } else {
        lemma_pow_base_le(x, y, (k - 1) as nat);
        lemma_pow_succ(x as int, (k - 1) as nat);
        lemma_pow_succ(y as int, (k - 1) as nat);
        lemma_pow_pos(x as int, (k - 1) as nat);
        lemma_mul_inequality(x as int, y as int, pow(x as int, (k - 1) as nat));
        lemma_mul_inequality(pow(x as int, (k - 1) as nat), pow(y as int, (k - 1) as nat), y as int);
        lemma_mul_is_commutative(y as int, pow(x as int, (k - 1) as nat));
    }
}

/// Digits below `n²` give a row and a column below `n^len`.
pub proof fn lemma_row_col_bound(ds: Seq<u32>, n: nat)
    requires
        n >= 1,
        forall|i: int| 0 <= i < ds.len() ==> #[trigger] ds[i] < n * n,
    ensures
        0 <= row_of(ds, n) < pow(n as int, ds.len()),
        0 <= col_of(ds, n) < pow(n as int, ds.len()),
    decreases ds.len(),
{
    reveal(pow);
    if ds.len() > 0 {
        let q = ds.drop_last();
        lemma_row_col_bound(q, n);
        lemma_pow_succ(n as int, q.len());
        let l = ds.last() as int;
        assert(l < n * n);
        lemma_div_pos_is_pos(l, n as int);
        lemma_multiply_divide_lt(l, n as int, n as int);
        lemma_mod_bound(l, n as int);
        let (r, c, p) = (row_of(q, n), col_of(q, n), pow(n as int, q.len()));
        assert(r * n + l / (n as int) < p * n) by (nonlinear_arith)
            requires
                0 <= r < p,
                0 <= l / (n as int) < n,
        ;
        assert(c * n + l % (n as int) < p * n) by (nonlinear_arith)
            requires
                0 <= c < p,
                0 <= l % (n as int) < n,
        ;
        assert(0 <= r * n) by (nonlinear_arith)
            requires
                0 <= r,
        ;
        assert(0 <= c * n) by (nonlinear_arith)
            requires
                0 <= c,
        ;
        lemma_mul_is_commutative(p, n as int);
    }
}

/// The digits of a cell `l` levels down are those of its parent's cell one level up, then the
/// last row and column digits.
proof fn lemma_cell_digits_split(row: int, col: int, n: nat, l: nat)
    requires
        n >= 1,
        l >= 1,
        row >= 0,
        col >= 0,
    ensures
        cell_digits(row, col, n, l).drop_last() == cell_digits(row / (n as int), col / (n as int), n, (l - 1) as nat),
        cell_digits(row, col, n, l).last() == ((row % (n as int)) * n + col % (n as int)) as u32,
{
    let cd = cell_digits(row, col, n, l);
    let ce = cell_digits(row / (n as int), col / (n as int), n, (l - 1) as nat);
    assert forall|i: int| 0 <= i < l - 1 implies #[trigger] cd[i] == ce[i] by {
        let e = (l - 2 - i) as nat;
        lemma_pow_succ(n as int, e);
        lemma_pow_pos(n as int, e);
        lemma_div_denominator(row, n as int, pow(n as int, e));
        lemma_div_denominator(col, n as int, pow(n as int, e));
        assert((l - 1 - i) as nat == e + 1);
    }
    assert(cd.drop_last() =~= ce);
    reveal(pow);
    assert(pow(n as int, 0) == 1);
    assert(((l - 1 - (l - 1)) as nat) == 0);
}

/// The row and column read off the digits of the cell at `(row, col)` are `row` and `col`, and
/// its digits are below `n²`.
pub proof fn lemma_position_of_cell_digits(row: int, col: int, n: nat, l: nat)
    requires
        n >= 1,
        n * n <= u32::MAX,
        0 <= row < pow(n as int, l),
        0 <= col < pow(n as int, l),
    ensures
        row_of(cell_digits(row, col, n, l), n) == row,
        col_of(cell_digits(row, col, n, l), n) == col,
        forall|i: int| 0 <= i < l ==> #[trigger] cell_digits(row, col, n, l)[i] < n * n,
    decreases l,
{
    let cd = cell_digits(row, col, n, l);
    if l == 0 {
        reveal(pow);
        assert(cd.len() == 0);
    } else {
        lemma_cell_digits_split(row, col, n, l);
        lemma_pow_succ(n as int, (l - 1) as nat);
        lemma_mul_is_commutative(n as int, pow(n as int, (l - 1) as nat));
        lemma_multiply_divide_lt(row, n as int, pow(n as int, (l - 1) as nat));
        lemma_multiply_divide_lt(col, n as int, pow(n as int, (l - 1) as nat));
        lemma_div_pos_is_pos(row, n as int);
        lemma_div_pos_is_pos(col, n as int);
        lemma_position_of_cell_digits(row / (n as int), col / (n as int), n, (l - 1) as nat);
        let (rm, cm) = (row % (n as int), col % (n as int));
        lemma_mod_bound(row, n as int);
        lemma_mod_bound(col, n as int);
        let last = rm * n + cm;
        assert(rm * n <= last < (rm + 1) * n) by (nonlinear_arith)
            requires
                last == rm * n + cm,
                0 <= cm < n,
        ;
        assert(last < n * n) by (nonlinear_arith)
            requires
                last < (rm + 1) * n,
                0 <= rm < n,
        ;
        lemma_div_in_block(last, rm, n as int);
        assert(cd.last() as int == last);
        lemma_fundamental_div_mod(row, n as int);
        lemma_fundamental_div_mod(col, n as int);
        lemma_mul_is_commutative(n as int, row / (n as int));
        lemma_mul_is_commutative(n as int, col / (n as int));
        assert forall|i: int| 0 <= i < l implies #[trigger] cd[i] < n * n by {
            if i < l - 1 {
                assert(cd[i] == cd.drop_last()[i]);
            }
        }
    }
}

/// The cell at the row and column its digits give has those digits.
pub proof fn lemma_cell_digits_of_position(ds: Seq<u32>, n: nat)
    requires
        n >= 1,
        forall|i: int| 0 <= i < ds.len() ==> #[trigger] ds[i] < n * n,
    ensures
        cell_digits(row_of(ds, n), col_of(ds, n), n, ds.len()) == ds,
    decreases ds.len(),
{
    if ds.len() > 0 {
        let q = ds.drop_last();
        lemma_cell_digits_of_position(q, n);
        lemma_row_col_bound(q, n);
        let l = ds.last() as int;
        lemma_div_pos_is_pos(l, n as int);
        lemma_multiply_divide_lt(l, n as int, n as int);
        lemma_mod_bound(l, n as int);
        let (r, c) = (row_of(ds, n), col_of(ds, n));
        let (rq, cq) = (row_of(q, n), col_of(q, n));
        let (hi, lo) = (l / (n as int), l % (n as int));
        assert(rq * n <= r < (rq + 1) * n) by (nonlinear_arith)
            requires
                r == rq * n + hi,
                0 <= hi < n,
        ;
        assert(cq * n <= c < (cq + 1) * n) by (nonlinear_arith)
            requires
                c == cq * n + lo,
                0 <= lo < n,
        ;
        lemma_div_in_block(r, rq, n as int);
        lemma_div_in_block(c, cq, n as int);
        assert(r >= 0 && c >= 0) by (nonlinear_arith)
            requires
                r == rq * n + hi,
                c == cq * n + lo,
                rq >= 0,
                cq >= 0,
                hi >= 0,
                lo >= 0,
        ;
        lemma_cell_digits_split(r, c, n, ds.len());
        lemma_fundamental_div_mod(l, n as int);
        lemma_mul_is_commutative(n as int, hi);
        let cd = cell_digits(r, c, n, ds.len());
        assert(cd =~= cd.drop_last().push(cd.last()));
        assert(ds =~= q.push(ds.last()));
    }
}

/// Where `cid` sits in its base cell.
pub fn position(h: &Hierarchy, cid: Cid) -> (r: Result<Position>)
    requires
        h.valid(),
    ensures
        r is Ok <==> spec_side(h.a as nat) is Some && h.is_cid(cid as int) && h.fits(h.spec_level(cid as int)),
        r matches Ok(p) ==> p == spec_position(*h, cid as int, spec_side(h.a as nat)->0),
{
    let n = side(h)?;
    let path = h.path(cid)?;
    let ghost ds = path@.drop_first();
    proof {
        lemma_side_bounds(n as nat, h.a as nat);
        h.lemma_path_cid(cid as int);
        h.lemma_cid_digits(cid as int);
        assert forall|i: int| 0 <= i < ds.len() implies #[trigger] ds[i] < n * n by {
            assert(ds[i] == path@[i + 1]);
        }
        lemma_row_col_bound(ds, n as nat);
        lemma_pow_base_le(n as nat, h.a as nat, ds.len());
        crate::hierarchy::lemma_pow_le_cid(*h, cid as int);
    }
    let len = path.len();
    let mut row: u64 = 0;
    let mut col: u64 = 0;
    let mut j: usize = 1;
    while j < len
        invariant
            len == path@.len(),
            1 <= j <= len,
            n >= 1,
            ds == path@.drop_first(),
            forall|i: int| 0 <= i < ds.len() ==> #[trigger] ds[i] < n * n,
            pow(n as int, ds.len()) < cid_space(),
            row == row_of(ds.take(j - 1), n as nat),
            col == col_of(ds.take(j - 1), n as nat),
        decreases len - j,
    {
        let d = path[j] as u64;
        let ghost t = ds.take(j as int);
        proof {
            assert(t.drop_last() =~= ds.take(j - 1));
            assert(t.last() == path@[j as int]);
            assert forall|i: int| 0 <= i < t.len() implies #[trigger] t[i] < n * n by {
                assert(t[i] == ds[i]);
            }
            lemma_row_col_bound(t, n as nat);
            lemma_pow_increases(n as nat, t.len(), ds.len());
        }
        row = row * n + d / n;
        col = col * n + d % n;
        j = j + 1;
    }
    proof {
        assert(ds.take(len - 1) =~= ds);
    }
    Ok(Position { base: path[0], level: (len - 1) as u32, row, col })
}

/// The cid at `(row, col)` of base cell `base` at `level`.
pub fn cell_at(h: &Hierarchy, base: u32, level: u32, row: u64, col: u64) -> (r: Result<Cid>)
    requires
        h.valid(),
    ensures
        r is Ok <==> spec_side(h.a as nat) is Some && base < h.b && h.fits(level as nat)
            && row < pow(spec_side(h.a as nat)->0 as int, level as nat) && col < pow(spec_side(h.a as nat)->0 as int, level as nat),
        r matches Ok(c) ==> c == spec_cell_at(*h, base, level, row as int, col as int, spec_side(h.a as nat)->0)
            && h.is_cid(c as int)
            && spec_position(*h, c as int, spec_side(h.a as nat)->0) == (Position { base, level, row, col }),
{
    let n = side(h)?;
    let ghost sn = n as nat;
    proof {
        lemma_side_bounds(sn, h.a as nat);
        if h.fits(level as nat) {
            lemma_pow_base_le(sn, h.a as nat, level as nat);
            lemma_pow_pos(h.a as int, level as nat);
            lemma_mul_inequality(2, (h.a + h.b) as int, pow(h.a as int, level as nat));
        }
    }
    let width = span(h, level)?;
    if base >= h.b {
        return invalid("base out of range");
    }
    if row >= width || col >= width {
        return invalid("row or column outside the base cell");
    }
    let mut path: Vec<u32> = Vec::new();
    path.push(base);
    let mut i: u32 = 0;
    while i < level
        invariant
            n >= 1,
            sn == n,
            n * n == h.a,
            width == pow(n as int, level as nat),
            row < width,
            col < width,
            i <= level,
            path@ == seq![base] + cell_digits(row as int, col as int, sn, level as nat).take(i as int),
        decreases level - i,
    {
        let j = level - 1 - i;
        proof {
            lemma_pow_increases(sn, j as nat, level as nat);
            lemma_pow_pos(n as int, j as nat);
        }
        let p = upow(n, j);
        proof {
            lemma_mod_bound(row as int / p as int, n as int);
            lemma_mod_bound(col as int / p as int, n as int);
            assert((row / p % n) * n + col / p % n < n * n) by (nonlinear_arith)
                requires
                    row / p % n < n,
                    col / p % n < n,
            ;
        }
        let dgt = ((row / p % n) * n + col / p % n) as u32;
        path.push(dgt);
        proof {
            assert(path@ =~= seq![base] + cell_digits(row as int, col as int, sn, level as nat).take(i + 1));
        }
        i = i + 1;
    }
    proof {
        assert(cell_digits(row as int, col as int, sn, level as nat).take(level as int) =~= cell_digits(row as int, col as int, sn, level as nat));
        lemma_position_of_cell_digits(row as int, col as int, sn, level as nat);
        let p = path@;
        assert(h.valid_path(p)) by {
            assert forall|k: int| 1 <= k < p.len() implies #[trigger] p[k] < h.a by {
                assert(p[k] == cell_digits(row as int, col as int, sn, level as nat)[k - 1]);
            }
        }
    }
    let c = h.cid(path.as_slice())?;
    proof {
        let p = path@;
        h.lemma_cid_path(p);
        assert(p.drop_first() =~= cell_digits(row as int, col as int, sn, level as nat));
    }
    Ok(c)
}

/// The cell at the position of a cid is the cid.
pub proof fn lemma_cell_at_position(h: Hierarchy, c: int)
    requires
        h.valid(),
        h.is_cid(c),
        c < cid_space(),
        spec_side(h.a as nat) is Some,
    ensures
        spec_cell_at(h, spec_position(h, c, spec_side(h.a as nat)->0).base, spec_position(h, c, spec_side(h.a as nat)->0).level,
            spec_position(h, c, spec_side(h.a as nat)->0).row as int, spec_position(h, c, spec_side(h.a as nat)->0).col as int,
            spec_side(h.a as nat)->0) == c,
{
    let n = spec_side(h.a as nat)->0;
    h.lemma_path_cid(c);
    h.lemma_cid_digits(c);
    let p = h.path_of(c);
    let ds = p.drop_first();
    assert(is_sqrt(n, h.a as nat));
    lemma_side_bounds(n, h.a as nat);
    assert forall|i: int| 0 <= i < ds.len() implies #[trigger] ds[i] < n * n by {
        assert(ds[i] == p[i + 1]);
    }
    lemma_row_col_bound(ds, n);
    lemma_pow_base_le(n, h.a as nat, ds.len());
    crate::hierarchy::lemma_pow_le_cid(h, c);
    crate::arith::lemma_pow_base_mono(h.a as nat, ds.len());
    if ds.len() >= 64 {
        lemma_pow_increases(2, 64, ds.len());
        vstd::arithmetic::power2::lemma_pow2(64);
        vstd::arithmetic::power2::lemma2_to64();
    }
    lemma_cell_digits_of_position(ds, n);
    assert(seq![p[0]] + ds =~= p);
}

/// The row and column of concatenated digits: the first part's, scaled, plus the second's.
pub proof fn lemma_row_col_concat(p: Seq<u32>, q: Seq<u32>, n: nat)
    ensures
        row_of(p + q, n) == row_of(p, n) * pow(n as int, q.len()) + row_of(q, n),
        col_of(p + q, n) == col_of(p, n) * pow(n as int, q.len()) + col_of(q, n),
    decreases q.len(),
{
    reveal(pow);
    if q.len() == 0 {
        assert(p + q =~= p);
    } else {
        let q1 = q.drop_last();
        lemma_row_col_concat(p, q1, n);
        assert((p + q).drop_last() =~= p + q1);
        assert((p + q).last() == q.last());
        lemma_pow_succ(n as int, q1.len());
        let (r, c, w) = (row_of(p, n), col_of(p, n), pow(n as int, q1.len()));
        assert((r * w + row_of(q1, n)) * n == r * (w * n) + row_of(q1, n) * n) by (nonlinear_arith);
        assert((c * w + col_of(q1, n)) * n == c * (w * n) + col_of(q1, n) * n) by (nonlinear_arith);
    }
}

/// The digits of a descendant below those of its ancestor.
pub open spec fn rel_digits(h: Hierarchy, anc: int, c: int) -> Seq<u32> {
    h.path_of(c).subrange(h.spec_level(anc) + 1 as int, h.spec_level(c) + 1 as int)
}

/// The scanline index of a descendant among the sub-zones of its ancestor.
pub open spec fn spec_subzone_index(h: Hierarchy, anc: int, c: int, n: nat) -> int {
    row_of(rel_digits(h, anc, c), n) * pow(n as int, (h.spec_level(c) - h.spec_level(anc)) as nat) + col_of(rel_digits(h, anc, c), n)
}

/// A descendant's row and column are its ancestor's, scaled to its level, plus its row and
/// column inside the ancestor.
pub proof fn lemma_descendant_position(h: Hierarchy, anc: int, c: int, n: nat)
    requires
        h.valid(),
        n * n == h.a,
        h.is_cid(anc),
        h.is_cid(c),
        h.spec_is_ancestor(anc, c),
    ensures
        h.spec_level(anc) <= h.spec_level(c),
        h.path_of(c)[0] == h.path_of(anc)[0],
        row_of(h.path_of(c).drop_first(), n) == row_of(h.path_of(anc).drop_first(), n)
            * pow(n as int, (h.spec_level(c) - h.spec_level(anc)) as nat) + row_of(rel_digits(h, anc, c), n),
        col_of(h.path_of(c).drop_first(), n) == col_of(h.path_of(anc).drop_first(), n)
            * pow(n as int, (h.spec_level(c) - h.spec_level(anc)) as nat) + col_of(rel_digits(h, anc, c), n),
        0 <= row_of(rel_digits(h, anc, c), n) < pow(n as int, (h.spec_level(c) - h.spec_level(anc)) as nat),
        0 <= col_of(rel_digits(h, anc, c), n) < pow(n as int, (h.spec_level(c) - h.spec_level(anc)) as nat),
{
    lemma_side_bounds(n, h.a as nat);
    h.lemma_ancestor_path(anc, c);
    h.lemma_path_cid(anc);
    h.lemma_path_cid(c);
    let (la, lc) = (h.spec_level(anc), h.spec_level(c));
    let pc = h.path_of(c);
    let rel = rel_digits(h, anc, c);
    assert(pc.drop_first() =~= h.path_of(anc).drop_first() + rel);
    lemma_row_col_concat(h.path_of(anc).drop_first(), rel, n);
    assert forall|i: int| 0 <= i < rel.len() implies #[trigger] rel[i] < n * n by {
        assert(rel[i] == pc[la + 1 + i]);
    }
    lemma_row_col_bound(rel, n);
    assert(pc[0] == pc.take(la + 1 as int)[0]);
}

/// The scanline index of `cid` among the sub-zones of its ancestor `ancestor`.
pub fn subzone_index(h: &Hierarchy, ancestor: Cid, cid: Cid) -> (r: Result<u64>)
    requires
        h.valid(),
    ensures
        r is Ok <==> h.is_cid(ancestor as int) && h.is_cid(cid as int) && h.fits(h.spec_level(cid as int))
            && h.spec_is_ancestor(ancestor as int, cid as int) && spec_side(h.a as nat) is Some,
        r matches Ok(i) ==> i == spec_subzone_index(*h, ancestor as int, cid as int, spec_side(h.a as nat)->0),
{
    proof {
        if h.spec_is_ancestor(ancestor as int, cid as int) && h.fits(h.spec_level(cid as int)) {
            h.lemma_fits_mono(h.spec_level(ancestor as int), h.spec_level(cid as int));
        }
    }
    h.check(ancestor, None)?;
    h.check(cid, None)?;
    if !h.is_ancestor(ancestor, cid) {
        return invalid("not an ancestor");
    }
    let pa = position(h, ancestor)?;
    let pc = position(h, cid)?;
    let ghost n = spec_side(h.a as nat)->0;
    proof {
        assert(is_sqrt(n, h.a as nat));
        lemma_side_bounds(n, h.a as nat);
        lemma_descendant_position(*h, ancestor as int, cid as int, n);
        let k = (pc.level - pa.level) as nat;
        lemma_pow_base_le(n, h.a as nat, k);
        lemma_pow_increases(h.a as nat, k, pc.level as nat);
        crate::hierarchy::lemma_pow_le_cid(*h, cid as int);
    }
    let width = span(h, pc.level - pa.level)?;
    proof {
        let (rr, rc) = (row_of(rel_digits(*h, ancestor as int, cid as int), n), col_of(rel_digits(*h, ancestor as int, cid as int), n));
        lemma_descendant_position(*h, ancestor as int, cid as int, n);
        lemma_pow_base_le(n, h.a as nat, (pc.level - pa.level) as nat);
        assert(rr * width + rc < width * width) by (nonlinear_arith)
            requires
                0 <= rr < width,
                0 <= rc < width,
        ;
        vstd::arithmetic::power::lemma_pow_adds(n as int, (pc.level - pa.level) as nat, (pc.level - pa.level) as nat);
        assert(pow(n as int, (pc.level - pa.level) as nat) * pow(n as int, (pc.level - pa.level) as nat) <= pow(h.a as int, (pc.level - pa.level) as nat)) by {
            lemma_pow_square(n, (pc.level - pa.level) as nat);
        }
        lemma_pow_increases(h.a as nat, (pc.level - pa.level) as nat, pc.level as nat);
        crate::hierarchy::lemma_pow_le_cid(*h, cid as int);
        lemma_path_row_col_bound(*h, cid as int, n);
        lemma_path_row_col_bound(*h, ancestor as int, n);
        let w = width as int;
        assert(pa.row * w <= pc.row) by (nonlinear_arith)
            requires
                pc.row == pa.row * w + rr,
                rr >= 0,
        ;
        assert(pa.col * w <= pc.col) by (nonlinear_arith)
            requires
                pc.col == pa.col * w + rc,
                rc >= 0,
        ;
    }
    Ok((pc.row - pa.row * width) * width + (pc.col - pa.col * width))
}

/// The row and column of a cid fit its level, and 64 bits.
pub proof fn lemma_path_row_col_bound(h: Hierarchy, c: int, n: nat)
    requires
        h.valid(),
        n * n == h.a,
        h.is_cid(c),
        c < cid_space(),
    ensures
        0 <= row_of(h.path_of(c).drop_first(), n) < pow(n as int, h.spec_level(c)),
        0 <= col_of(h.path_of(c).drop_first(), n) < pow(n as int, h.spec_level(c)),
        pow(n as int, h.spec_level(c)) <= pow(h.a as int, h.spec_level(c)),
        pow(h.a as int, h.spec_level(c)) < cid_space(),
        h.spec_level(c) < 64,
{
    lemma_side_bounds(n, h.a as nat);
    h.lemma_path_cid(c);
    let p = h.path_of(c);
    let ds = p.drop_first();
    assert forall|i: int| 0 <= i < ds.len() implies #[trigger] ds[i] < n * n by {
        assert(ds[i] == p[i + 1]);
    }
    lemma_row_col_bound(ds, n);
    lemma_pow_base_le(n, h.a as nat, ds.len());
    crate::hierarchy::lemma_pow_le_cid(h, c);
    crate::arith::lemma_pow_base_mono(h.a as nat, ds.len());
    if ds.len() >= 64 {
        lemma_pow_increases(2, 64, ds.len());
        vstd::arithmetic::power2::lemma_pow2(64);
        vstd::arithmetic::power2::lemma2_to64();
    }
}

/// `(n^k)^2 == (n^2)^k`.
pub proof fn lemma_pow_square(n: nat, k: nat)
    ensures
        pow(n as int, k) * pow(n as int, k) == pow((n * n) as int, k),
    decreases k,
{
    reveal(pow);
    if k > 0 {
        lemma_pow_square(n, (k - 1) as nat);
        lemma_pow_succ(n as int, (k - 1) as nat);
        lemma_pow_succ((n * n) as int, (k - 1) as nat);
        let p = pow(n as int, (k - 1) as nat);
        assert((n * p) * (n * p) == (n * n) * (p * p)) by (nonlinear_arith);
    }
}

/// A power of a side of at least 2 that fits in 64 bits has an exponent below 64.
pub proof fn lemma_small_exponent(n: nat, k: nat)
    requires
        n >= 2,
        pow(n as int, k) < cid_space(),
    ensures
        k < 64,
{
    crate::arith::lemma_pow_base_mono(n, k);
    if k >= 64 {
        lemma_pow_increases(2, 64, k);
        vstd::arithmetic::power2::lemma_pow2(64);
        vstd::arithmetic::power2::lemma2_to64();
    }
}

/// Facts on the sides of sub-zones `depth` levels below a cell at level `la`: `w = n^depth`,
/// `w² = A^depth`, and `n^la · w = n^(la + depth) <= A^(la + depth)`.
proof fn lemma_sub_block(h: Hierarchy, n: nat, la: nat, depth: nat)
    requires
        h.valid(),
        n * n == h.a,
    ensures
        pow(n as int, depth) * pow(n as int, depth) == pow(h.a as int, depth),
        pow(n as int, la) * pow(n as int, depth) == pow(n as int, la + depth),
        pow(n as int, la + depth) <= pow(h.a as int, la + depth),
        pow(h.a as int, depth) <= pow(h.a as int, la + depth),
        pow(n as int, depth) >= 1,
        pow(n as int, la) >= 1,
        h.fits(la + depth) ==> pow(h.a as int, la + depth) < cid_space(),
{
    lemma_side_bounds(n, h.a as nat);
    lemma_pow_square(n, depth);
    lemma_pow_adds(n as int, la, depth);
    lemma_pow_base_le(n, h.a as nat, la + depth);
    lemma_pow_increases(h.a as nat, depth, la + depth);
    lemma_pow_pos(n as int, depth);
    lemma_pow_pos(n as int, la);
    lemma_pow_pos(h.a as int, la + depth);
    lemma_mul_inequality(2, (h.a + h.b) as int, pow(h.a as int, la + depth));
}

/// The sub-zone of `ancestor` at relative `depth` with scanline index `index`.
pub fn subzone_at(h: &Hierarchy, ancestor: Cid, depth: u32, index: u64) -> (r: Result<Cid>)
    requires
        h.valid(),
    ensures
        r is Ok <==> spec_side(h.a as nat) is Some && h.is_cid(ancestor as int)
            && pow(spec_side(h.a as nat)->0 as int, depth as nat) < cid_space()
            && index < pow(spec_side(h.a as nat)->0 as int, depth as nat) * pow(spec_side(h.a as nat)->0 as int, depth as nat)
            && h.fits(h.spec_level(ancestor as int) + depth as nat),
        r matches Ok(c) ==> {
            let n = spec_side(h.a as nat)->0;
            let pa = spec_position(*h, ancestor as int, n);
            let w = pow(n as int, depth as nat);
            &&& c == spec_cell_at(*h, pa.base, (pa.level + depth) as u32, pa.row * w + index as int / w, pa.col * w + index as int % w, n)
            &&& h.is_cid(c as int)
            &&& h.spec_level(c as int) == pa.level + depth
        },
{
    proof {
        if h.fits(h.spec_level(ancestor as int) + depth as nat) {
            h.lemma_fits_mono(h.spec_level(ancestor as int), h.spec_level(ancestor as int) + depth as nat);
        }
    }
    let pa = position(h, ancestor)?;
    let ghost n = spec_side(h.a as nat)->0;
    proof {
        assert(is_sqrt(n, h.a as nat));
        lemma_side_bounds(n, h.a as nat);
        lemma_path_row_col_bound(*h, ancestor as int, n);
        lemma_sub_block(*h, n, pa.level as nat, depth as nat);
    }
    let width = span(h, depth)?;
    proof {
        lemma_small_exponent(n, depth as nat);
    }
    let limit = match width.checked_mul(width) {
        Some(x) => x,
        None => u64::MAX,
    };
    if index >= limit {
        proof {
            if h.fits(h.spec_level(ancestor as int) + depth as nat) {
                assert(width * width < cid_space());
            }
        }
        return invalid("index outside the sub-zones");
    }
    let ghost w = width as int;
    let (row, col) = match (pa.row.checked_mul(width), pa.col.checked_mul(width)) {
        (Some(row), Some(col)) => (row, col),
        _ => {
            proof {
                if h.fits(h.spec_level(ancestor as int) + depth as nat) {
                    assert(pa.row * w < pow(n as int, pa.level as nat) * w) by (nonlinear_arith)
                        requires
                            pa.row < pow(n as int, pa.level as nat),
                            w >= 1,
                    ;
                    assert(pa.col * w < pow(n as int, pa.level as nat) * w) by (nonlinear_arith)
                        requires
                            pa.col < pow(n as int, pa.level as nat),
                            w >= 1,
                    ;
                }
            }
            return invalid("depth below the ancestor overflows");
        },
    };
    proof {
        lemma_div_pos_is_pos(index as int, w);
        lemma_multiply_divide_lt(index as int, w, w);
        lemma_mod_bound(index as int, w);
        assert(row + index / width < (pa.row + 1) * w) by (nonlinear_arith)
            requires
                row == pa.row * w,
                index / width < w,
        ;
        assert(col + index % width < (pa.col + 1) * w) by (nonlinear_arith)
            requires
                col == pa.col * w,
                index % width < w,
        ;
        assert((pa.row + 1) * w <= pow(n as int, pa.level as nat) * w) by (nonlinear_arith)
            requires
                pa.row < pow(n as int, pa.level as nat),
                w >= 1,
        ;
        assert((pa.col + 1) * w <= pow(n as int, pa.level as nat) * w) by (nonlinear_arith)
            requires
                pa.col < pow(n as int, pa.level as nat),
                w >= 1,
        ;
    }
    let r_row = match row.checked_add(index / width) {
        Some(x) => x,
        None => {
            return invalid("depth below the ancestor overflows");
        },
    };
    let r_col = match col.checked_add(index % width) {
        Some(x) => x,
        None => {
            return invalid("depth below the ancestor overflows");
        },
    };
    let r = cell_at(h, pa.base, pa.level + depth, r_row, r_col);
    proof {
        h.lemma_path_cid(ancestor as int);
        if h.fits(h.spec_level(ancestor as int) + depth as nat) {
            assert(width * width < cid_space());
        }
        if let Ok(c) = r {
            lemma_path_row_col_bound(*h, c as int, n);
        }
    }
    r
}

/// Every sub-zone of `ancestor` at relative `depth`, in scanline order.
pub fn subzones(h: &Hierarchy, ancestor: Cid, depth: u32) -> (r: Result<Vec<Cid>>)
    requires
        h.valid(),
    ensures
        r is Ok <==> spec_side(h.a as nat) is Some && h.is_cid(ancestor as int)
            && pow(spec_side(h.a as nat)->0 as int, depth as nat) < cid_space()
            && pow(spec_side(h.a as nat)->0 as int, depth as nat) * pow(spec_side(h.a as nat)->0 as int, depth as nat) <= MAX_RASTER_CELLS
            && h.fits(h.spec_level(ancestor as int) + depth as nat),
        r matches Ok(v) ==> {
            let n = spec_side(h.a as nat)->0;
            let pa = spec_position(*h, ancestor as int, n);
            let w = pow(n as int, depth as nat);
            &&& v@.len() == w * w
            &&& forall|i: int| 0 <= i < v@.len() ==> #[trigger] v@[i]
                == spec_cell_at(*h, pa.base, (pa.level + depth) as u32, pa.row * w + i / w, pa.col * w + i % w, n)
        },
{
    let width = span(h, depth)?;
    let count = match width.checked_mul(width) {
        Some(c) => {
            if c <= MAX_RASTER_CELLS {
                c
            } else {
                return invalid("depth has too many sub-zones");
            }
        },
        None => return invalid("depth has too many sub-zones"),
    };
    proof {
        assert(is_sqrt(spec_side(h.a as nat)->0, h.a as nat));
        lemma_side_bounds(spec_side(h.a as nat)->0, h.a as nat);
        crate::arith::lemma_pow_pos(spec_side(h.a as nat)->0 as int, depth as nat);
        assert(count >= 1) by (nonlinear_arith)
            requires
                count == width * width,
                width >= 1,
        ;
    }
    let mut out: Vec<Cid> = Vec::new();
    let mut i: u64 = 0;
    while i < count
        invariant
            h.valid(),
            spec_side(h.a as nat) is Some,
            width == pow(spec_side(h.a as nat)->0 as int, depth as nat),
            count == width * width,
            count <= MAX_RASTER_CELLS,
            i <= count,
            i > 0 ==> h.is_cid(ancestor as int) && h.fits(h.spec_level(ancestor as int) + depth as nat),
            out@.len() == i,
            forall|j: int| 0 <= j < i ==> #[trigger] out@[j] == ({
                let n = spec_side(h.a as nat)->0;
                let pa = spec_position(*h, ancestor as int, n);
                let w = pow(n as int, depth as nat);
                spec_cell_at(*h, pa.base, (pa.level + depth) as u32, pa.row * w + j / w, pa.col * w + j % w, n)
            }),
        decreases count - i,
    {
        let c = subzone_at(h, ancestor, depth, i)?;
        out.push(c);
        i = i + 1;
    }
    Ok(out)
}

/// The side of a raster at `level` and its number of cells, when it is no larger than
/// `MAX_RASTER_CELLS`.
fn raster_len(h: &Hierarchy, level: u32) -> (r: Result<(u64, usize)>)
    requires
        h.valid(),
    ensures
        r is Ok <==> spec_side(h.a as nat) is Some && pow(spec_side(h.a as nat)->0 as int, level as nat) < cid_space()
            && pow(spec_side(h.a as nat)->0 as int, level as nat) * pow(spec_side(h.a as nat)->0 as int, level as nat) * h.b <= MAX_RASTER_CELLS,
        r matches Ok((w, t)) ==> w == pow(spec_side(h.a as nat)->0 as int, level as nat) && t == w * w * h.b && w >= 1,
{
    let n = span(h, level)?;
    proof {
        assert(is_sqrt(spec_side(h.a as nat)->0, h.a as nat));
        lemma_side_bounds(spec_side(h.a as nat)->0, h.a as nat);
        crate::arith::lemma_pow_pos(spec_side(h.a as nat)->0 as int, level as nat);
    }
    let sq = match n.checked_mul(n) {
        Some(x) => x,
        None => {
            proof {
                assert(n * n * h.b >= n * n) by (nonlinear_arith)
                    requires
                        h.b >= 1,
                ;
            }
            return invalid("raster is too large");
        },
    };
    let total = match sq.checked_mul(h.b as u64) {
        Some(t) => t,
        None => return invalid("raster is too large"),
    };
    if total > MAX_RASTER_CELLS {
        return invalid("raster is too large");
    }
    Ok((n, total as usize))
}

/// The index of a cid in the raster at its level: `base·n² + row·n + col`.
pub open spec fn raster_slot(h: Hierarchy, c: int) -> int {
    let n = spec_side(h.a as nat)->0;
    let p = spec_position(h, c, n);
    let w = pow(n as int, p.level as nat);
    p.base * w * w + p.row * w + p.col
}

/// The raster index of each cid in the raster at its level; all cids must share one level.
pub fn raster_index(h: &Hierarchy, cids: &[Cid]) -> (r: Result<Vec<u64>>)
    requires
        h.valid(),
    ensures
        r is Ok <==> cids@.len() == 0 || ({
            let l = h.spec_level(cids@[0] as int);
            &&& spec_side(h.a as nat) is Some
            &&& h.fits(l)
            &&& pow(spec_side(h.a as nat)->0 as int, l) < cid_space()
            &&& pow(spec_side(h.a as nat)->0 as int, l) * pow(spec_side(h.a as nat)->0 as int, l) * h.b <= MAX_RASTER_CELLS
            &&& forall|i: int| 0 <= i < cids@.len() ==> h.is_cid(#[trigger] cids@[i] as int) && h.spec_level(cids@[i] as int) == l
        }),
        r matches Ok(v) ==> v@.len() == cids@.len() && forall|i: int| 0 <= i < cids@.len() ==> #[trigger] v@[i] == raster_slot(*h, cids@[i] as int),
{
    if cids.len() == 0 {
        return Ok(Vec::new());
    }
    let level = h.check(cids[0], None)?;
    let (n, _total) = raster_len(h, level)?;
    let ghost sn = spec_side(h.a as nat)->0;
    let mut out: Vec<u64> = Vec::new();
    let m = cids.len();
    let mut i: usize = 0;
    while i < m
        invariant
            h.valid(),
            m == cids@.len(),
            m >= 1,
            i <= m,
            spec_side(h.a as nat) is Some,
            sn == spec_side(h.a as nat)->0,
            level == h.spec_level(cids@[0] as int),
            n == pow(sn as int, level as nat),
            n >= 1,
            n * n * h.b <= MAX_RASTER_CELLS,
            out@.len() == i,
            forall|j: int| 0 <= j < i ==> h.is_cid(#[trigger] cids@[j] as int) && h.spec_level(cids@[j] as int) == level,
            forall|j: int| 0 <= j < i ==> #[trigger] out@[j] == ({
                let p = spec_position(*h, cids@[j] as int, sn);
                let w = pow(sn as int, p.level as nat);
                p.base * w * w + p.row * w + p.col
            }),
        decreases m - i,
    {
        let c = cids[i];
        let p = position(h, c)?;
        if p.level != level {
            return invalid("cids of two levels have no common raster");
        }
        proof {
            assert(is_sqrt(sn, h.a as nat));
            lemma_path_row_col_bound(*h, c as int, sn);
            h.lemma_path_cid(c as int);
            assert(p.base < h.b);
            let nn = n as int;
            assert(p.base * nn * nn + p.row * nn + p.col < (p.base + 1) * nn * nn) by (nonlinear_arith)
                requires
                    p.row < nn,
                    p.col < nn,
            ;
            assert((p.base + 1) * nn * nn <= nn * nn * h.b) by (nonlinear_arith)
                requires
                    p.base + 1 <= h.b,
                    nn >= 1,
            ;
            assert(p.base * nn <= p.base * nn * nn) by (nonlinear_arith)
                requires
                    p.base >= 0,
                    nn >= 1,
            ;
        }
        out.push(p.base as u64 * n * n + p.row * n + p.col);
        i = i + 1;
    }
    Ok(out)
}

/// The cid at every position of the raster at `level`, in raster order.
pub fn raster_cells(h: &Hierarchy, level: u32) -> (r: Result<Vec<Cid>>)
    requires
        h.valid(),
    ensures
        r is Ok <==> spec_side(h.a as nat) is Some && pow(spec_side(h.a as nat)->0 as int, level as nat) < cid_space()
            && pow(spec_side(h.a as nat)->0 as int, level as nat) * pow(spec_side(h.a as nat)->0 as int, level as nat) * h.b <= MAX_RASTER_CELLS
            && h.fits(level as nat),
        r matches Ok(v) ==> {
            let n = spec_side(h.a as nat)->0;
            let w = pow(n as int, level as nat);
            &&& v@.len() == w * w * h.b
            &&& forall|b: int, row: int, col: int| 0 <= b < h.b && 0 <= row < w && 0 <= col < w
                ==> #[trigger] v@[b * w * w + row * w + col] == spec_cell_at(*h, b as u32, level, row, col, n)
                    && spec_position(*h, v@[b * w * w + row * w + col] as int, n) == (Position { base: b as u32, level, row: row as u64, col: col as u64 })
        },
{
    let (n, total) = raster_len(h, level)?;
    let ghost sn = spec_side(h.a as nat)->0;
    let ghost w = n as int;
    let mut out: Vec<Cid> = Vec::new();
    let mut b: u32 = 0;
    while b < h.b
        invariant
            h.valid(),
            spec_side(h.a as nat) is Some,
            sn == spec_side(h.a as nat)->0,
            n == pow(sn as int, level as nat),
            w == n,
            n >= 1,
            total == n * n * h.b,
            b <= h.b,
            b > 0 ==> h.fits(level as nat),
            out@.len() == b * w * w,
            forall|bb: int, row: int, col: int| 0 <= bb < b && 0 <= row < w && 0 <= col < w
                ==> #[trigger] out@[bb * w * w + row * w + col] == spec_cell_at(*h, bb as u32, level, row, col, sn)
                    && spec_position(*h, out@[bb * w * w + row * w + col] as int, sn) == (Position { base: bb as u32, level, row: row as u64, col: col as u64 }),
        decreases h.b - b,
    {
        let mut row: u64 = 0;
        while row < n
            invariant
                h.valid(),
                spec_side(h.a as nat) is Some,
                sn == spec_side(h.a as nat)->0,
                n == pow(sn as int, level as nat),
                w == n,
                n >= 1,
                total == n * n * h.b,
                b < h.b,
                row <= n,
                row > 0 || b > 0 ==> h.fits(level as nat),
                out@.len() == b * w * w + row * w,
                forall|bb: int, rr: int, col: int| 0 <= bb < b && 0 <= rr < w && 0 <= col < w
                    ==> #[trigger] out@[bb * w * w + rr * w + col] == spec_cell_at(*h, bb as u32, level, rr, col, sn)
                        && spec_position(*h, out@[bb * w * w + rr * w + col] as int, sn) == (Position { base: bb as u32, level, row: rr as u64, col: col as u64 }),
                forall|rr: int, col: int| 0 <= rr < row && 0 <= col < w
                    ==> #[trigger] out@[b * w * w + rr * w + col] == spec_cell_at(*h, b, level, rr, col, sn)
                        && spec_position(*h, out@[b * w * w + rr * w + col] as int, sn) == (Position { base: b, level, row: rr as u64, col: col as u64 }),
            decreases n - row,
        {
            let mut col: u64 = 0;
            while col < n
                invariant
                    h.valid(),
                    spec_side(h.a as nat) is Some,
                    sn == spec_side(h.a as nat)->0,
                    n == pow(sn as int, level as nat),
                    w == n,
                    n >= 1,
                    total == n * n * h.b,
                    b < h.b,
                    row < n,
                    col <= n,
                    col > 0 || row > 0 || b > 0 ==> h.fits(level as nat),
                    out@.len() == b * w * w + row * w + col,
                    forall|bb: int, rr: int, cc: int| 0 <= bb < b && 0 <= rr < w && 0 <= cc < w
                        ==> #[trigger] out@[bb * w * w + rr * w + cc] == spec_cell_at(*h, bb as u32, level, rr, cc, sn)
                            && spec_position(*h, out@[bb * w * w + rr * w + cc] as int, sn) == (Position { base: bb as u32, level, row: rr as u64, col: cc as u64 }),
                    forall|rr: int, cc: int| 0 <= rr < row && 0 <= cc < w
                        ==> #[trigger] out@[b * w * w + rr * w + cc] == spec_cell_at(*h, b, level, rr, cc, sn)
                            && spec_position(*h, out@[b * w * w + rr * w + cc] as int, sn) == (Position { base: b, level, row: rr as u64, col: cc as u64 }),
                    forall|cc: int| 0 <= cc < col
                        ==> #[trigger] out@[b * w * w + row * w + cc] == spec_cell_at(*h, b, level, row as int, cc, sn)
                            && spec_position(*h, out@[b * w * w + row * w + cc] as int, sn) == (Position { base: b, level, row, col: cc as u64 }),
                decreases n - col,
            {
                let c = cell_at(h, b, level, row, col)?;
                let ghost before = out@;
                out.push(c);
                proof {
                    lemma_raster_slot(b as int, row as int, col as int, w);
                    assert forall|bb: int, rr: int, cc: int| 0 <= bb < b && 0 <= rr < w && 0 <= cc < w
                        implies #[trigger] out@[bb * w * w + rr * w + cc] == before[bb * w * w + rr * w + cc] by {
                        lemma_raster_slot_before(bb, rr, cc, b as int, w);
                    }
                    assert forall|rr: int, cc: int| 0 <= rr < row && 0 <= cc < w
                        implies #[trigger] out@[b * w * w + rr * w + cc] == before[b * w * w + rr * w + cc] by {
                        lemma_raster_slot(b as int, rr, cc, w);
                        assert(rr * w + cc < row * w) by (nonlinear_arith)
                            requires
                                rr < row,
                                cc < w,
                                w >= 0,
                        ;
                    }
                }
                col = col + 1;
            }
            proof {
                assert forall|rr: int, cc: int| 0 <= rr < row + 1 && 0 <= cc < w
                    implies #[trigger] out@[b * w * w + rr * w + cc] == spec_cell_at(*h, b, level, rr, cc, sn)
                        && spec_position(*h, out@[b * w * w + rr * w + cc] as int, sn) == (Position { base: b, level, row: rr as u64, col: cc as u64 }) by {
                    if rr == row {
                    }
                }
                assert(b * w * w + row * w + w == b * w * w + (row + 1) * w) by (nonlinear_arith);
            }
            row = row + 1;
        }
        proof {
            assert forall|bb: int, rr: int, cc: int| 0 <= bb < b + 1 && 0 <= rr < w && 0 <= cc < w
                implies #[trigger] out@[bb * w * w + rr * w + cc] == spec_cell_at(*h, bb as u32, level, rr, cc, sn)
                    && spec_position(*h, out@[bb * w * w + rr * w + cc] as int, sn) == (Position { base: bb as u32, level, row: rr as u64, col: cc as u64 }) by {
                if bb == b {
                }
            }
            assert(b * w * w + w * w == (b + 1) * w * w) by (nonlinear_arith);
        }
        b = b + 1;
    }
    proof {
        assert(out@.len() == total) by (nonlinear_arith)
            requires
                out@.len() == b * w * w,
                b == h.b,
                total == w * w * h.b,
        ;
    }
    Ok(out)
}

/// Raster order and cids are inverse: the raster index of the cell at slot `(b, row, col)` is that
/// slot, and a cid is the cell at the slot its raster index names.
pub proof fn lemma_raster_inverse(h: Hierarchy, level: u32, b: u32, row: int, col: int, c: int)
    requires
        h.valid(),
        spec_side(h.a as nat) is Some,
        h.fits(level as nat),
    ensures
        ({
            let n = spec_side(h.a as nat)->0;
            let w = pow(n as int, level as nat);
            b < h.b && 0 <= row < w && 0 <= col < w
                ==> raster_slot(h, spec_cell_at(h, b, level, row, col, n)) == b * w * w + row * w + col
        }),
        ({
            let n = spec_side(h.a as nat)->0;
            let w = pow(n as int, level as nat);
            let p = spec_position(h, c, n);
            h.is_cid(c) && h.spec_level(c) == level && c < cid_space()
                ==> p.base < h.b && 0 <= p.row < w && 0 <= p.col < w
                    && raster_slot(h, c) == p.base * w * w + p.row * w + p.col
                    && spec_cell_at(h, p.base, level, p.row as int, p.col as int, n) == c
        }),
{
    let n = spec_side(h.a as nat)->0;
    let w = pow(n as int, level as nat);
    lemma_span_fits(h, level as nat);
    if b < h.b && 0 <= row < w && 0 <= col < w {
        lemma_position_of_cell_at(h, b, level, row, col);
    }
    if h.is_cid(c) && h.spec_level(c) == level && c < cid_space() {
        assert(is_sqrt(n, h.a as nat));
        lemma_path_row_col_bound(h, c, n);
        lemma_cell_at_position(h, c);
        h.lemma_path_cid(c);
    }
}

/// Raster slot `(b, row, col)` lies below the start of the next slot and of the next base.
proof fn lemma_raster_slot(b: int, row: int, col: int, w: int)
    requires
        0 <= b,
        0 <= row < w,
        0 <= col < w,
    ensures
        b * w * w <= b * w * w + row * w + col < (b + 1) * w * w,
        b * w * w + row * w + col < b * w * w + (row + 1) * w,
{
    assert(row * w + col < (row + 1) * w) by (nonlinear_arith)
        requires
            col < w,
    ;
    assert((row + 1) * w <= w * w) by (nonlinear_arith)
        requires
            row < w,
            w >= 1,
    ;
    assert(0 <= row * w) by (nonlinear_arith)
        requires
            row >= 0,
            w >= 0,
    ;
    assert(b * w * w + w * w == (b + 1) * w * w) by (nonlinear_arith);
}

/// A slot of an earlier base lies below the slots of base `b`.
proof fn lemma_raster_slot_before(bb: int, rr: int, cc: int, b: int, w: int)
    requires
        0 <= bb < b,
        0 <= rr < w,
        0 <= cc < w,
    ensures
        bb * w * w + rr * w + cc < b * w * w,
{
    lemma_raster_slot(bb, rr, cc, w);
    assert((bb + 1) * w * w <= b * w * w) by (nonlinear_arith)
        requires
            bb + 1 <= b,
    ;
}

/// The edge directions of the planar layout, in the order `neighbours` returns them.
#[derive(Debug, Clone, Copy, PartialEq, Eq, Structural)]
pub enum Direction {
    Up,
    Right,
    Down,
    Left,
}

/// The four directions in the order `neighbours` returns them.
pub const DIRECTIONS: [Direction; 4] = [Direction::Up, Direction::Right, Direction::Down, Direction::Left];

/// The row and column offset of one step.
pub open spec fn spec_step(d: Direction) -> (int, int) {
    match d {
        Direction::Up => (-1, 0),
        Direction::Right => (0, 1),
        Direction::Down => (1, 0),
        Direction::Left => (0, -1),
    }
}

/// The wire name of a direction.
pub open spec fn spec_direction_name(d: Direction) -> Seq<char> {
    match d {
        Direction::Up => seq!['u', 'p'],
        Direction::Right => seq!['r', 'i', 'g', 'h', 't'],
        Direction::Down => seq!['d', 'o', 'w', 'n'],
        Direction::Left => seq!['l', 'e', 'f', 't'],
    }
}

/// A direction's name says which way it steps in the planar layout: `up` one row up, `down` one
/// row down, `right` one column right, `left` one column left.
pub proof fn lemma_direction_names(d: Direction)
    ensures
        spec_direction_name(d) == seq!['u', 'p'] <==> spec_step(d) == (-1int, 0int),
        spec_direction_name(d) == seq!['d', 'o', 'w', 'n'] <==> spec_step(d) == (1int, 0int),
        spec_direction_name(d) == seq!['r', 'i', 'g', 'h', 't'] <==> spec_step(d) == (0int, 1int),
        spec_direction_name(d) == seq!['l', 'e', 'f', 't'] <==> spec_step(d) == (0int, -1int),
{
    let (u, dn, r, l) = (seq!['u', 'p'], seq!['d', 'o', 'w', 'n'], seq!['r', 'i', 'g', 'h', 't'], seq!['l', 'e', 'f', 't']);
    assert(u != dn && u != r && u != l && dn != r && dn != l && r != l) by {
        assert(u.len() != dn.len() && u.len() != r.len() && u.len() != l.len());
        assert(dn.len() != r.len() && r.len() != l.len());
        assert(dn[0] != l[0]);
    }
}

impl Direction {
    pub fn name(self) -> (r: &'static str)
        ensures
            r@ == spec_direction_name(self),
    {
        proof {
            reveal_strlit("up");
            reveal_strlit("right");
            reveal_strlit("down");
            reveal_strlit("left");
        }
        match self {
            Direction::Up => "up",
            Direction::Right => "right",
            Direction::Down => "down",
            Direction::Left => "left",
        }
    }

    fn step(self) -> (r: (i64, i64))
        ensures
            (r.0 as int, r.1 as int) == spec_step(self),
    {
        match self {
            Direction::Up => (-1, 0),
            Direction::Right => (0, 1),
            Direction::Down => (1, 0),
            Direction::Left => (0, -1),
        }
    }
}

/// `x` lies in `[0, n)`.
pub open spec fn inside(x: int, n: int) -> bool {
    0 <= x < n
}

/// A quarter turn clockwise of a point of an `n`×`n` square, `k` times.
pub open spec fn rot_cw(p: (int, int), n: int, k: nat) -> (int, int)
    decreases k,
{
    if k == 0 {
        p
    } else {
        rot_cw((p.1, n - 1 - p.0), n, (k - 1) as nat)
    }
}

/// A quarter turn counterclockwise of a point of an `n`×`n` square, `k` times.
pub open spec fn rot_ccw(p: (int, int), n: int, k: nat) -> (int, int)
    decreases k,
{
    if k == 0 {
        p
    } else {
        rot_ccw((n - 1 - p.1, p.0), n, (k - 1) as nat)
    }
}

/// The base cell in band column `column`, the band wrapping.
pub open spec fn equatorial(column: int) -> u32 {
    (1 + column % 4) as u32
}

/// The cell at `(r, c)` relative to base cell `base` of side `n`, for polar squares above band
/// column `north` and below band column `south`, where the point may lie outside the base cell by
/// up to `n` in one coordinate; `None` beyond a corner.
pub open spec fn spec_locate(north: int, south: int, base: u32, n: int, r: int, c: int) -> Option<(u32, int, int)> {
    if inside(r, n) && inside(c, n) {
        Some((base, r, c))
    } else if !inside(r, n) && !inside(c, n) {
        None
    } else if 1 <= base <= 4 {
        let column = base - 1;
        if !inside(c, n) {
            Some((equatorial(column + if c < 0 { -1int } else { 1int }), r, if c < 0 { c + n } else { c - n }))
        } else if r < 0 {
            let p = rot_ccw((n + r, c), n, ((column - north) % 4) as nat);
            Some((0u32, p.0, p.1))
        } else {
            let p = rot_cw((r - n, c), n, ((column - south) % 4) as nat);
            Some((5u32, p.0, p.1))
        }
    } else if base == 0 {
        let k: nat = if r >= n { 0 } else if c >= n { 1 } else if r < 0 { 2 } else { 3 };
        let p = rot_cw((r, c), n, k);
        Some((equatorial(north + k), p.0 - n, p.1))
    } else {
        let k: nat = if r < 0 { 0 } else if c >= n { 1 } else if r >= n { 2 } else { 3 };
        let p = rot_ccw((r, c), n, k);
        Some((equatorial(south + k), p.0 + n, p.1))
    }
}

/// The rHEALPix arrangement of the six base cells under a profile.
#[derive(Debug, Clone, Copy)]
struct Layout {
    north: i64,
    south: i64,
}

/// A quarter turn clockwise.
fn cw(p: (i64, i64), n: i64) -> (r: (i64, i64))
    requires
        -3 * n <= p.0 <= 3 * n,
        -3 * n <= p.1 <= 3 * n,
        1 <= n <= 0x1_0000_0000,
    ensures
        (r.0 as int, r.1 as int) == rot_cw((p.0 as int, p.1 as int), n as int, 1),
{
    proof {
        reveal_with_fuel(rot_cw, 2);
    }
    (p.1, n - 1 - p.0)
}

/// A quarter turn counterclockwise.
fn ccw(p: (i64, i64), n: i64) -> (r: (i64, i64))
    requires
        -3 * n <= p.0 <= 3 * n,
        -3 * n <= p.1 <= 3 * n,
        1 <= n <= 0x1_0000_0000,
    ensures
        (r.0 as int, r.1 as int) == rot_ccw((p.0 as int, p.1 as int), n as int, 1),
{
    proof {
        reveal_with_fuel(rot_ccw, 2);
    }
    (n - 1 - p.1, p.0)
}

/// Turning by `k` then one more.
proof fn lemma_rot_step(p: (int, int), n: int, k: nat)
    ensures
        rot_cw(p, n, k + 1) == rot_cw(rot_cw(p, n, k), n, 1),
        rot_ccw(p, n, k + 1) == rot_ccw(rot_ccw(p, n, k), n, 1),
    decreases k,
{
    reveal_with_fuel(rot_cw, 2);
    reveal_with_fuel(rot_ccw, 2);
    if k > 0 {
        lemma_rot_step((p.1, n - 1 - p.0), n, (k - 1) as nat);
        lemma_rot_step((n - 1 - p.1, p.0), n, (k - 1) as nat);
    }
}

/// A quarter turn keeps a point in the square, and in the band of width `n` around it.
proof fn lemma_rot_bounds(p: (int, int), n: int, k: nat)
    requires
        n >= 1,
        -2 * n <= p.0 < 3 * n,
        -2 * n <= p.1 < 3 * n,
    ensures
        -2 * n <= rot_cw(p, n, k).0 < 3 * n,
        -2 * n <= rot_cw(p, n, k).1 < 3 * n,
        -2 * n <= rot_ccw(p, n, k).0 < 3 * n,
        -2 * n <= rot_ccw(p, n, k).1 < 3 * n,
        inside(p.0, n) && inside(p.1, n) ==> inside(rot_cw(p, n, k).0, n) && inside(rot_cw(p, n, k).1, n)
            && inside(rot_ccw(p, n, k).0, n) && inside(rot_ccw(p, n, k).1, n),
    decreases k,
{
    if k > 0 {
        lemma_rot_bounds((p.1, n - 1 - p.0), n, (k - 1) as nat);
        lemma_rot_bounds((n - 1 - p.1, p.0), n, (k - 1) as nat);
    }
}

/// `p` turned `k` times by the exec quarter turns, counterclockwise or clockwise.
fn turn(p: (i64, i64), n: i64, k: i64, clockwise: bool) -> (r: (i64, i64))
    requires
        0 <= k < 4,
        1 <= n <= 0x1_0000_0000,
        -2 * n <= p.0 < 3 * n,
        -2 * n <= p.1 < 3 * n,
    ensures
        (r.0 as int, r.1 as int) == if clockwise {
            rot_cw((p.0 as int, p.1 as int), n as int, k as nat)
        } else {
            rot_ccw((p.0 as int, p.1 as int), n as int, k as nat)
        },
{
    let mut q = p;
    let mut t: i64 = 0;
    while t < k
        invariant
            0 <= t <= k < 4,
            1 <= n <= 0x1_0000_0000,
            -2 * n <= p.0 < 3 * n,
            -2 * n <= p.1 < 3 * n,
            (q.0 as int, q.1 as int) == if clockwise {
                rot_cw((p.0 as int, p.1 as int), n as int, t as nat)
            } else {
                rot_ccw((p.0 as int, p.1 as int), n as int, t as nat)
            },
        decreases k - t,
    {
        proof {
            lemma_rot_step((p.0 as int, p.1 as int), n as int, t as nat);
            lemma_rot_bounds((p.0 as int, p.1 as int), n as int, t as nat);
        }
        q = if clockwise { cw(q, n) } else { ccw(q, n) };
        t = t + 1;
    }
    q
}

impl Layout {
    fn of(profile: &Profile) -> (r: Result<Layout>)
        ensures
            r is Ok <==> spec_valid(*profile) && profile.n_base == 6,
            r matches Ok(l) ==> l.north == profile.north_square && l.south == profile.south_square,
    {
        profile.validate()?;
        if profile.n_base != 6 {
            return invalid("the rHEALPix layout has 6 base cells");
        }
        Ok(Layout { north: profile.north_square as i64, south: profile.south_square as i64 })
    }

    /// The cell at `(r, c)` relative to base cell `base` of side `n`, where the point may lie
    /// outside the base cell by up to `n` in one coordinate; `None` beyond a corner.
    fn locate(&self, base: u32, n: i64, r: i64, c: i64) -> (res: Option<(u32, i64, i64)>)
        requires
            0 <= self.north <= 3,
            0 <= self.south <= 3,
            base < 6,
            1 <= n <= 0x1_0000_0000,
            -n <= r < 2 * n,
            -n <= c < 2 * n,
        ensures
            match res {
                Some((b, x, y)) => spec_locate(self.north as int, self.south as int, base, n as int, r as int, c as int)
                    == Some((b, x as int, y as int)),
                None => spec_locate(self.north as int, self.south as int, base, n as int, r as int, c as int) is None,
            },
            res matches Some((b, x, y)) ==> b < 6 && 0 <= x < n && 0 <= y < n,
    {
        let ri = 0 <= r && r < n;
        let ci = 0 <= c && c < n;
        if ri && ci {
            return Some((base, r, c));
        }
        if !ri && !ci {
            return None;
        }
        if 1 <= base && base <= 4 {
            Some(self.locate_band(base, n, r, c))
        } else if base == 0 {
            Some(self.locate_north(n, r, c))
        } else {
            Some(self.locate_south(n, r, c))
        }
    }

    /// Leaving band cell `base` through one edge.
    fn locate_band(&self, base: u32, n: i64, r: i64, c: i64) -> (res: (u32, i64, i64))
        requires
            0 <= self.north <= 3,
            0 <= self.south <= 3,
            1 <= base <= 4,
            1 <= n <= 0x1_0000_0000,
            -n <= r < 2 * n,
            -n <= c < 2 * n,
            inside(r as int, n as int) != inside(c as int, n as int),
        ensures
            spec_locate(self.north as int, self.south as int, base, n as int, r as int, c as int) == Some((res.0, res.1 as int, res.2 as int)),
            res.0 < 6 && 0 <= res.1 < n && 0 <= res.2 < n,
    {
        let column = base as i64 - 1;
        if !(0 <= c && c < n) {
            let (col2, c2) = if c < 0 { (column - 1, c + n) } else { (column + 1, c - n) };
            let eq = (1 + (col2 + 4) % 4) as u32;
            proof {
                assert((col2 + 4) % 4 == col2 % 4);
            }
            return (eq, r, c2);
        }
        if r < 0 {
            let turns = (column - self.north + 4) % 4;
            proof {
                assert((column - self.north + 4) % 4 == (column - self.north) % 4);
                assert(-2 * n <= n + r < 3 * n && -2 * n <= c < 3 * n);
                lemma_rot_bounds(((n + r) as int, c as int), n as int, turns as nat);
            }
            let p = turn((n + r, c), n, turns, false);
            return (0, p.0, p.1);
        }
        let turns = (column - self.south + 4) % 4;
        proof {
            assert((column - self.south + 4) % 4 == (column - self.south) % 4);
            assert(r >= n && r < 2 * n);
            assert(-2 * n <= r - n < 3 * n && -2 * n <= c < 3 * n);
            lemma_rot_bounds(((r - n) as int, c as int), n as int, turns as nat);
        }
        let p = turn((r - n, c), n, turns, true);
        (5, p.0, p.1)
    }

    /// Leaving the north polar cell through one edge.
    fn locate_north(&self, n: i64, r: i64, c: i64) -> (res: (u32, i64, i64))
        requires
            0 <= self.north <= 3,
            1 <= n <= 0x1_0000_0000,
            -n <= r < 2 * n,
            -n <= c < 2 * n,
            inside(r as int, n as int) != inside(c as int, n as int),
        ensures
            spec_locate(self.north as int, self.south as int, 0, n as int, r as int, c as int) == Some((res.0, res.1 as int, res.2 as int)),
            res.0 < 6 && 0 <= res.1 < n && 0 <= res.2 < n,
    {
        let k: i64 = if r >= n { 0 } else if c >= n { 1 } else if r < 0 { 2 } else { 3 };
        let p = turn((r, c), n, k, true);
        proof {
            reveal_with_fuel(rot_cw, 4);
        }
        let eq = (1 + (self.north + k) % 4) as u32;
        (eq, p.0 - n, p.1)
    }

    /// Leaving the south polar cell through one edge.
    fn locate_south(&self, n: i64, r: i64, c: i64) -> (res: (u32, i64, i64))
        requires
            0 <= self.south <= 3,
            1 <= n <= 0x1_0000_0000,
            -n <= r < 2 * n,
            -n <= c < 2 * n,
            inside(r as int, n as int) != inside(c as int, n as int),
        ensures
            spec_locate(self.north as int, self.south as int, 5, n as int, r as int, c as int) == Some((res.0, res.1 as int, res.2 as int)),
            res.0 < 6 && 0 <= res.1 < n && 0 <= res.2 < n,
    {
        let k: i64 = if r < 0 { 0 } else if c >= n { 1 } else if r >= n { 2 } else { 3 };
        let p = turn((r, c), n, k, false);
        proof {
            reveal_with_fuel(rot_ccw, 4);
        }
        let eq = (1 + (self.south + k) % 4) as u32;
        (eq, p.0 + n, p.1)
    }
}

/// The neighbour of the cell at `p` one step in direction `dir`.
fn neighbour(layout: &Layout, h: &Hierarchy, p: Position, n: i64, dir: Direction) -> (r: Result<Cid>)
    requires
        h.valid(),
        h.b == 6,
        0 <= layout.north <= 3,
        0 <= layout.south <= 3,
        spec_side(h.a as nat) is Some,
        p.base < 6,
        n == pow(spec_side(h.a as nat)->0 as int, p.level as nat),
        1 <= n <= 0x1_0000_0000,
        p.row < n,
        p.col < n,
    ensures
        ({
            let loc = spec_locate(layout.north as int, layout.south as int, p.base, n as int,
                p.row + spec_step(dir).0, p.col + spec_step(dir).1)->0;
            &&& spec_locate(layout.north as int, layout.south as int, p.base, n as int, p.row + spec_step(dir).0, p.col + spec_step(dir).1) is Some
            &&& (r is Ok <==> h.fits(p.level as nat))
            &&& r matches Ok(c) ==> c == spec_cell_at(*h, loc.0, p.level, loc.1, loc.2, spec_side(h.a as nat)->0)
                && h.is_cid(c as int)
                && spec_position(*h, c as int, spec_side(h.a as nat)->0) == (Position { base: loc.0, level: p.level, row: loc.1 as u64, col: loc.2 as u64 })
        }),
{
    let (dr, dc) = dir.step();
    let loc = layout.locate(p.base, n, p.row as i64 + dr, p.col as i64 + dc);
    let (b, r, c) = match loc {
        Some(x) => x,
        None => {
            proof {
                assert(false);
            }
            return invalid("an edge step never leaves by a corner");
        },
    };
    cell_at(h, b, p.level, r as u64, c as u64)
}

/// The four edge neighbours of `cid` in `DIRECTIONS` order: up, right, down, left in the
/// cell's own planar frame. Every cell has all four, across base-cell edges included.
pub fn neighbours(profile: &Profile, cid: Cid) -> (r: Result<[Cid; 4]>)
    ensures
        r is Ok <==> has_neighbours(*profile, cid as int),
        r matches Ok(v) ==> forall|k: int| 0 <= k < 4 ==> ({
            let h = Hierarchy { a: profile.aperture, b: profile.n_base };
            &&& #[trigger] v@[k] == spec_neighbour(*profile, cid as int, k)
            &&& h.is_cid(v@[k] as int)
            &&& h.spec_level(v@[k] as int) == h.spec_level(cid as int)
        }),
{
    let layout = Layout::of(profile)?;
    let h = profile.hierarchy();
    let p = position(&h, cid)?;
    let ghost sn = spec_side(h.a as nat)->0;
    proof {
        assert(is_sqrt(sn, h.a as nat));
        lemma_side_bounds(sn, h.a as nat);
        lemma_path_row_col_bound(h, cid as int, sn);
        lemma_pow_square(sn, p.level as nat);
        h.lemma_path_cid(cid as int);
        let x = pow(sn as int, p.level as nat);
        if x > 0x1_0000_0000 {
            assert(x * x > 0x1_0000_0000 * 0x1_0000_0000) by (nonlinear_arith)
                requires
                    x > 0x1_0000_0000,
            ;
        }
        lemma_pow_pos(sn as int, p.level as nat);
    }
    let w = span(&h, p.level)?;
    let n = w as i64;
    let up = neighbour(&layout, &h, p, n, Direction::Up)?;
    let right = neighbour(&layout, &h, p, n, Direction::Right)?;
    let down = neighbour(&layout, &h, p, n, Direction::Down)?;
    let left = neighbour(&layout, &h, p, n, Direction::Left)?;
    let out = [up, right, down, left];
    proof {
        assert(DIRECTIONS@[0] == Direction::Up);
        assert(DIRECTIONS@[1] == Direction::Right);
        assert(DIRECTIONS@[2] == Direction::Down);
        assert(DIRECTIONS@[3] == Direction::Left);
        assert(out@[0] == up && out@[1] == right && out@[2] == down && out@[3] == left);
        lemma_path_row_col_bound(h, up as int, sn);
        lemma_path_row_col_bound(h, right as int, sn);
        lemma_path_row_col_bound(h, down as int, sn);
        lemma_path_row_col_bound(h, left as int, sn);
    }
    Ok(out)
}

/// The cell one step in direction `d` from `(r, c)` of base cell `base`, of side `n`.
pub open spec fn moved(north: int, south: int, base: u32, n: int, r: int, c: int, d: Direction) -> Option<(u32, int, int)> {
    spec_locate(north, south, base, n, r + spec_step(d).0, c + spec_step(d).1)
}

/// The direction opposite `d`.
pub open spec fn opposite(d: Direction) -> Direction {
    match d {
        Direction::Up => Direction::Down,
        Direction::Right => Direction::Left,
        Direction::Down => Direction::Up,
        Direction::Left => Direction::Right,
    }
}

/// A band cell's top row crosses onto N; some step from there comes back.
#[verifier::spinoff_prover]
proof fn lemma_back_from_north(north: int, south: int, col: int, n: int, c: int)
    requires
        0 <= north <= 3,
        0 <= col <= 3,
        n >= 1,
        inside(c, n),
    ensures
        ({
            let p = rot_ccw((n - 1, c), n, ((col - north) % 4) as nat);
            exists|e: Direction| #[trigger] moved(north, south, 0, n, p.0, p.1, e) == Some(((col + 1) as u32, 0int, c))
        }),
{
    reveal_with_fuel(rot_ccw, 4);
    reveal_with_fuel(rot_cw, 4);
    let k = (col - north) % 4;
    assert((north + k) % 4 == col);
    let b = (col + 1) as u32;
    let p = rot_ccw((n - 1, c), n, k as nat);
    if k == 0 {
        assert(p == (n - 1, c));
        assert(moved(north, south, 0, n, p.0, p.1, Direction::Down) == Some((b, 0int, c)));
    } else if k == 1 {
        assert(p == (n - 1 - c, n - 1));
        assert(rot_cw((n - 1 - c, n), n, 1) == (n, c));
        assert(moved(north, south, 0, n, p.0, p.1, Direction::Right) == Some((b, 0int, c)));
    } else if k == 2 {
        assert(p == (0int, n - 1 - c));
        assert(rot_cw((-1, n - 1 - c), n, 2) == (n, c));
        assert(moved(north, south, 0, n, p.0, p.1, Direction::Up) == Some((b, 0int, c)));
    } else {
        assert(p == (c, 0int));
        assert(rot_cw((c, -1), n, 3) == (n, c));
        assert(moved(north, south, 0, n, p.0, p.1, Direction::Left) == Some((b, 0int, c)));
    }
}

/// A band cell's bottom row crosses onto S; some step from there comes back.
#[verifier::spinoff_prover]
proof fn lemma_back_from_south(north: int, south: int, col: int, n: int, c: int)
    requires
        0 <= south <= 3,
        0 <= col <= 3,
        n >= 1,
        inside(c, n),
    ensures
        ({
            let p = rot_cw((0, c), n, ((col - south) % 4) as nat);
            exists|e: Direction| #[trigger] moved(north, south, 5, n, p.0, p.1, e) == Some(((col + 1) as u32, n - 1, c))
        }),
{
    reveal_with_fuel(rot_ccw, 4);
    reveal_with_fuel(rot_cw, 4);
    let k = (col - south) % 4;
    assert((south + k) % 4 == col);
    let b = (col + 1) as u32;
    let p = rot_cw((0, c), n, k as nat);
    if k == 0 {
        assert(p == (0int, c));
        assert(moved(north, south, 5, n, p.0, p.1, Direction::Up) == Some((b, n - 1, c)));
    } else if k == 1 {
        assert(p == (c, n - 1));
        assert(rot_ccw((c, n), n, 1) == (-1int, c));
        assert(moved(north, south, 5, n, p.0, p.1, Direction::Right) == Some((b, n - 1, c)));
    } else if k == 2 {
        assert(p == (n - 1, n - 1 - c));
        assert(rot_ccw((n, n - 1 - c), n, 2) == (-1int, c));
        assert(moved(north, south, 5, n, p.0, p.1, Direction::Down) == Some((b, n - 1, c)));
    } else {
        assert(p == (n - 1 - c, 0int));
        assert(rot_ccw((n - 1 - c, -1), n, 3) == (-1int, c));
        assert(moved(north, south, 5, n, p.0, p.1, Direction::Left) == Some((b, n - 1, c)));
    }
}

/// Leaving N through an edge lands on the top row of a band cell, and a step up comes back.
#[verifier::spinoff_prover]
proof fn lemma_back_to_north(north: int, south: int, n: int, r: int, c: int, d: Direction)
    requires
        0 <= north <= 3,
        n >= 1,
        inside(r, n),
        inside(c, n),
        !(inside(r + spec_step(d).0, n) && inside(c + spec_step(d).1, n)),
    ensures
        moved(north, south, 0, n, r, c, d) matches Some(t) && 1 <= t.0 <= 4 && t.1 == 0 && inside(t.2, n)
            && moved(north, south, t.0, n, t.1, t.2, Direction::Up) == Some((0u32, r, c)),
{
    reveal_with_fuel(rot_ccw, 4);
    reveal_with_fuel(rot_cw, 4);
    let (k, q, col2): (int, (int, int), int) = match d {
        Direction::Down => (0, (n, c), c),
        Direction::Right => (1, (r, n), n - 1 - r),
        Direction::Up => (2, (-1, c), n - 1 - c),
        Direction::Left => (3, (r, -1), r),
    };
    let b2 = (1 + (north + k) % 4) as u32;
    assert(((north + k) % 4 - north) % 4 == k);
    assert(q == (r + spec_step(d).0, c + spec_step(d).1));
    assert(rot_cw(q, n, k as nat) == (n, col2));
    assert(moved(north, south, 0, n, r, c, d) == Some((b2, 0int, col2)));
    assert(rot_ccw((n - 1, col2), n, k as nat) == (r, c));
    assert(moved(north, south, b2, n, 0, col2, Direction::Up) == Some((0u32, r, c)));
}

/// Leaving S through an edge lands on the bottom row of a band cell, and a step down comes back.
#[verifier::spinoff_prover]
proof fn lemma_back_to_south(north: int, south: int, n: int, r: int, c: int, d: Direction)
    requires
        0 <= south <= 3,
        n >= 1,
        inside(r, n),
        inside(c, n),
        !(inside(r + spec_step(d).0, n) && inside(c + spec_step(d).1, n)),
    ensures
        moved(north, south, 5, n, r, c, d) matches Some(t) && 1 <= t.0 <= 4 && t.1 == n - 1 && inside(t.2, n)
            && moved(north, south, t.0, n, t.1, t.2, Direction::Down) == Some((5u32, r, c)),
{
    reveal_with_fuel(rot_ccw, 4);
    reveal_with_fuel(rot_cw, 4);
    let (k, q, col2): (int, (int, int), int) = match d {
        Direction::Up => (0, (-1, c), c),
        Direction::Right => (1, (r, n), r),
        Direction::Down => (2, (n, c), n - 1 - c),
        Direction::Left => (3, (r, -1), n - 1 - r),
    };
    let b2 = (1 + (south + k) % 4) as u32;
    assert(((south + k) % 4 - south) % 4 == k);
    assert(q == (r + spec_step(d).0, c + spec_step(d).1));
    assert(rot_ccw(q, n, k as nat) == (-1int, col2));
    assert(moved(north, south, 5, n, r, c, d) == Some((b2, n - 1, col2)));
    assert(rot_cw((0int, col2), n, k as nat) == (r, c));
    assert(moved(north, south, b2, n, n - 1, col2, Direction::Down) == Some((5u32, r, c)));
}

/// A step from `(r, c)` lands on a cell from which some step comes back.
pub open spec fn comes_back(north: int, south: int, base: u32, n: int, r: int, c: int, d: Direction) -> bool {
    &&& moved(north, south, base, n, r, c, d) is Some
    &&& ({
        let t = moved(north, south, base, n, r, c, d)->0;
        &&& t.0 < 6 && inside(t.1, n) && inside(t.2, n)
        &&& exists|e: Direction| #[trigger] moved(north, south, t.0, n, t.1, t.2, e) == Some((base, r, c))
    })
}

/// A step that stays in the base cell is undone by the opposite step.
proof fn lemma_back_inside(north: int, south: int, base: u32, n: int, r: int, c: int, d: Direction)
    requires
        base < 6,
        n >= 1,
        inside(r, n),
        inside(c, n),
        inside(r + spec_step(d).0, n) && inside(c + spec_step(d).1, n),
    ensures
        comes_back(north, south, base, n, r, c, d),
{
    let (r2, c2) = (r + spec_step(d).0, c + spec_step(d).1);
    assert(moved(north, south, base, n, r, c, d) == Some((base, r2, c2)));
    assert(moved(north, south, base, n, r2, c2, opposite(d)) == Some((base, r, c)));
}

/// A step across the side of a band cell is undone by the opposite step.
proof fn lemma_back_across_band(north: int, south: int, base: u32, n: int, r: int, c: int, d: Direction)
    requires
        1 <= base <= 4,
        n >= 1,
        inside(r, n),
        inside(c, n),
        !inside(c + spec_step(d).1, n),
    ensures
        comes_back(north, south, base, n, r, c, d),
{
    let col = base - 1;
    let c2 = c + spec_step(d).1;
    assert(inside(r + spec_step(d).0, n));
    if c2 < 0 {
        let b2 = (1 + (col - 1) % 4) as u32;
        assert(moved(north, south, base, n, r, c, d) == Some((b2, r, n - 1)));
        assert(1 + ((b2 - 1) + 1) % 4 == base);
        assert(moved(north, south, b2, n, r, n - 1, Direction::Right) == Some((base, r, c)));
    } else {
        let b2 = (1 + (col + 1) % 4) as u32;
        assert(moved(north, south, base, n, r, c, d) == Some((b2, r, 0int)));
        assert(1 + ((b2 - 1) - 1) % 4 == base);
        assert(moved(north, south, b2, n, r, 0, Direction::Left) == Some((base, r, c)));
    }
}

/// A step up from the top row of a band cell onto N comes back.
proof fn lemma_back_up_band(north: int, south: int, base: u32, n: int, r: int, c: int, d: Direction)
    requires
        0 <= north <= 3,
        1 <= base <= 4,
        n >= 1,
        inside(r, n),
        inside(c, n),
        inside(c + spec_step(d).1, n),
        r + spec_step(d).0 < 0,
    ensures
        comes_back(north, south, base, n, r, c, d),
{
    let col = base - 1;
    let k = ((col - north) % 4) as nat;
    assert(d == Direction::Up && r == 0);
    let p = rot_ccw((n - 1, c), n, k);
    assert(moved(north, south, base, n, r, c, d) == Some((0u32, p.0, p.1)));
    lemma_rot_bounds((n - 1, c), n, k);
    lemma_back_from_north(north, south, col, n, c);
}

/// A step down from the bottom row of a band cell onto S comes back.
proof fn lemma_back_down_band(north: int, south: int, base: u32, n: int, r: int, c: int, d: Direction)
    requires
        0 <= south <= 3,
        1 <= base <= 4,
        n >= 1,
        inside(r, n),
        inside(c, n),
        inside(c + spec_step(d).1, n),
        r + spec_step(d).0 >= n,
    ensures
        comes_back(north, south, base, n, r, c, d),
{
    let col = base - 1;
    let k = ((col - south) % 4) as nat;
    assert(d == Direction::Down && r == n - 1);
    let p = rot_cw((0, c), n, k);
    assert(moved(north, south, base, n, r, c, d) == Some((5u32, p.0, p.1)));
    lemma_rot_bounds((0, c), n, k);
    lemma_back_from_south(north, south, col, n, c);
}

/// A step from any cell lands on a cell, and some step from there comes back: edge adjacency of
/// the layout is symmetric, for every polar placement and every side `n`.
pub proof fn lemma_locate_symmetric(north: int, south: int, base: u32, n: int, r: int, c: int, d: Direction)
    requires
        0 <= north <= 3,
        0 <= south <= 3,
        base < 6,
        n >= 1,
        inside(r, n),
        inside(c, n),
    ensures
        comes_back(north, south, base, n, r, c, d),
{
    let (r2, c2) = (r + spec_step(d).0, c + spec_step(d).1);
    if inside(r2, n) && inside(c2, n) {
        lemma_back_inside(north, south, base, n, r, c, d);
    } else if 1 <= base <= 4 {
        if !inside(c2, n) {
            lemma_back_across_band(north, south, base, n, r, c, d);
        } else if r2 < 0 {
            lemma_back_up_band(north, south, base, n, r, c, d);
        } else {
            lemma_back_down_band(north, south, base, n, r, c, d);
        }
    } else if base == 0 {
        lemma_back_to_north(north, south, n, r, c, d);
        let t = moved(north, south, base, n, r, c, d)->0;
        assert(moved(north, south, t.0, n, t.1, t.2, Direction::Up) == Some((base, r, c)));
    } else {
        lemma_back_to_south(north, south, n, r, c, d);
        let t = moved(north, south, base, n, r, c, d)->0;
        assert(moved(north, south, t.0, n, t.1, t.2, Direction::Down) == Some((base, r, c)));
    }
}

/// The base cell a step in direction `d` crosses onto when it leaves base cell `base`.
spec fn crossing_base(north: int, south: int, base: u32, d: Direction) -> int {
    if 1 <= base <= 4 {
        match d {
            Direction::Up => 0,
            Direction::Down => 5,
            Direction::Left => 1 + (base - 2) % 4,
            Direction::Right => 1 + base % 4,
        }
    } else if base == 0 {
        1 + (north + match d {
            Direction::Down => 0int,
            Direction::Right => 1int,
            Direction::Up => 2int,
            Direction::Left => 3int,
        }) % 4
    } else {
        1 + (south + match d {
            Direction::Up => 0int,
            Direction::Right => 1int,
            Direction::Down => 2int,
            Direction::Left => 3int,
        }) % 4
    }
}

/// A step that leaves the base cell lands on the base cell `crossing_base` names.
proof fn lemma_crossing_base(north: int, south: int, base: u32, n: int, r: int, c: int, d: Direction)
    requires
        base < 6,
        n >= 1,
        inside(r, n),
        inside(c, n),
        !(inside(r + spec_step(d).0, n) && inside(c + spec_step(d).1, n)),
    ensures
        moved(north, south, base, n, r, c, d) is Some,
        (moved(north, south, base, n, r, c, d)->0).0 == crossing_base(north, south, base, d),
{
}

/// Steps in two directions that both leave a base cell land on two different base cells, neither
/// of them the one left.
proof fn lemma_crossing_bases_differ(north: int, south: int, base: u32, d1: Direction, d2: Direction)
    requires
        0 <= north <= 3,
        0 <= south <= 3,
        base < 6,
    ensures
        crossing_base(north, south, base, d1) != base,
        d1 != d2 ==> crossing_base(north, south, base, d1) != crossing_base(north, south, base, d2),
{
}

/// The steps in four directions from a cell land on four different cells, none of them the cell.
pub proof fn lemma_locate_distinct(north: int, south: int, base: u32, n: int, r: int, c: int, d1: Direction, d2: Direction)
    requires
        0 <= north <= 3,
        0 <= south <= 3,
        base < 6,
        n >= 1,
        inside(r, n),
        inside(c, n),
    ensures
        moved(north, south, base, n, r, c, d1) != Some((base, r, c)),
        d1 != d2 ==> moved(north, south, base, n, r, c, d1) != moved(north, south, base, n, r, c, d2),
{
    lemma_crossing_bases_differ(north, south, base, d1, d2);
    let in1 = inside(r + spec_step(d1).0, n) && inside(c + spec_step(d1).1, n);
    let in2 = inside(r + spec_step(d2).0, n) && inside(c + spec_step(d2).1, n);
    if !in1 {
        lemma_crossing_base(north, south, base, n, r, c, d1);
    }
    if !in2 {
        lemma_crossing_base(north, south, base, n, r, c, d2);
    }
}

/// The cell at a position of a base cell is a cid at that level, and sits at that position.
pub proof fn lemma_position_of_cell_at(h: Hierarchy, base: u32, level: u32, row: int, col: int)
    requires
        h.valid(),
        spec_side(h.a as nat) is Some,
        base < h.b,
        0 <= row < pow(spec_side(h.a as nat)->0 as int, level as nat),
        0 <= col < pow(spec_side(h.a as nat)->0 as int, level as nat),
    ensures
        ({
            let sn = spec_side(h.a as nat)->0;
            let c = spec_cell_at(h, base, level, row, col, sn);
            &&& h.is_cid(c)
            &&& h.spec_level(c) == level
            &&& h.fits(level as nat) ==> c < cid_space()
            &&& spec_position(h, c, sn) == (Position { base, level, row: row as u64, col: col as u64 })
        }),
{
    let sn = spec_side(h.a as nat)->0;
    assert(is_sqrt(sn, h.a as nat));
    lemma_side_bounds(sn, h.a as nat);
    let cd = cell_digits(row, col, sn, level as nat);
    lemma_position_of_cell_digits(row, col, sn, level as nat);
    let p = seq![base] + cd;
    assert(h.valid_path(p)) by {
        assert forall|k: int| 1 <= k < p.len() implies #[trigger] p[k] < h.a by {
            assert(p[k] == cd[k - 1]);
        }
    }
    h.lemma_cid_path(p);
    h.lemma_cid_bounds(p);
    assert(p.drop_first() =~= cd);
    if h.fits(level as nat) {
        lemma_pow_pos(h.a as int, level as nat);
        lemma_mul_inequality((h.a + base + 1) as int, (h.a + h.b) as int, pow(h.a as int, level as nat));
    }
}

/// A base cell's side in cells at a level whose cids fit in 64 bits is at most `2^32`.
proof fn lemma_span_fits(h: Hierarchy, level: nat)
    requires
        h.valid(),
        spec_side(h.a as nat) is Some,
        h.fits(level),
    ensures
        1 <= pow(spec_side(h.a as nat)->0 as int, level) <= 0x1_0000_0000,
{
    let sn = spec_side(h.a as nat)->0;
    assert(is_sqrt(sn, h.a as nat));
    lemma_side_bounds(sn, h.a as nat);
    lemma_pow_square(sn, level);
    lemma_pow_pos(sn as int, level);
    lemma_pow_pos(h.a as int, level);
    lemma_mul_inequality(1, (h.a + h.b) as int, pow(h.a as int, level));
    let x = pow(sn as int, level);
    if x > 0x1_0000_0000 {
        assert(x * x > 0x1_0000_0000 * 0x1_0000_0000) by (nonlinear_arith)
            requires
                x > 0x1_0000_0000,
        ;
    }
}

/// `cid` is a cell of the six-base-cell grid of a valid profile, at a level whose cids fit in 64
/// bits: the cells `neighbours` answers for.
pub open spec fn has_neighbours(profile: Profile, cid: int) -> bool {
    let h = Hierarchy { a: profile.aperture, b: profile.n_base };
    &&& spec_valid(profile)
    &&& profile.n_base == 6
    &&& h.is_cid(cid)
    &&& h.fits(h.spec_level(cid))
}

/// The neighbour of `cid` one step in direction `DIRECTIONS[k]`, in the cell's own planar frame.
pub open spec fn spec_neighbour(profile: Profile, cid: int, k: int) -> int {
    let h = Hierarchy { a: profile.aperture, b: profile.n_base };
    let sn = spec_side(profile.aperture as nat)->0;
    let p = spec_position(h, cid, sn);
    let loc = moved(profile.north_square as int, profile.south_square as int, p.base, pow(sn as int, p.level as nat),
        p.row as int, p.col as int, DIRECTIONS@[k])->0;
    spec_cell_at(h, loc.0, p.level, loc.1, loc.2, sn)
}

/// Where the neighbour of `cid` in direction `DIRECTIONS[k]` sits: at the cell that step lands on,
/// at the same level.
proof fn lemma_neighbour_position(profile: Profile, cid: int, k: int)
    requires
        has_neighbours(profile, cid),
        cid < cid_space(),
        0 <= k < 4,
    ensures
        ({
            let h = Hierarchy { a: profile.aperture, b: profile.n_base };
            let sn = spec_side(profile.aperture as nat)->0;
            let p = spec_position(h, cid, sn);
            let n = pow(sn as int, p.level as nat);
            let (north, south) = (profile.north_square as int, profile.south_square as int);
            let t = moved(north, south, p.base, n, p.row as int, p.col as int, DIRECTIONS@[k])->0;
            let m = spec_neighbour(profile, cid, k);
            &&& 1 <= n <= 0x1_0000_0000
            &&& p.base < 6 && p.row < n && p.col < n
            &&& p.level == h.spec_level(cid)
            &&& spec_cell_at(h, p.base, p.level, p.row as int, p.col as int, sn) == cid
            &&& comes_back(north, south, p.base, n, p.row as int, p.col as int, DIRECTIONS@[k])
            &&& h.is_cid(m) && h.spec_level(m) == h.spec_level(cid) && 0 <= m < cid_space()
            &&& spec_position(h, m, sn) == (Position { base: t.0, level: p.level, row: t.1 as u64, col: t.2 as u64 })
            &&& t.1 as u64 as int == t.1 && t.2 as u64 as int == t.2
        }),
{
    let h = Hierarchy { a: profile.aperture, b: profile.n_base };
    let sn = spec_side(profile.aperture as nat)->0;
    assert(is_sqrt(sn, h.a as nat));
    let p = spec_position(h, cid, sn);
    let level = h.spec_level(cid);
    lemma_path_row_col_bound(h, cid, sn);
    lemma_span_fits(h, level);
    h.lemma_path_cid(cid);
    assert(p.level == level);
    let n = pow(sn as int, p.level as nat);
    lemma_cell_at_position(h, cid);
    let (north, south) = (profile.north_square as int, profile.south_square as int);
    lemma_locate_symmetric(north, south, p.base, n, p.row as int, p.col as int, DIRECTIONS@[k]);
    let t = moved(north, south, p.base, n, p.row as int, p.col as int, DIRECTIONS@[k])->0;
    lemma_position_of_cell_at(h, t.0, p.level, t.1, t.2);
}

/// Edge adjacency is symmetric, and a cell's four neighbours are four cells other than itself: the
/// neighbour of `cid` in any direction is a cell with neighbours of its own, `cid` is one of them,
/// and no other direction from `cid` reaches it.
pub proof fn lemma_neighbours_symmetric(profile: Profile, cid: Cid, k: int)
    requires
        has_neighbours(profile, cid as int),
        0 <= k < 4,
    ensures
        ({
            let m = spec_neighbour(profile, cid as int, k);
            &&& 0 <= m < cid_space()
            &&& has_neighbours(profile, m)
            &&& exists|j: int| 0 <= j < 4 && #[trigger] spec_neighbour(profile, m, j) == cid
            &&& m != cid
            &&& forall|j: int| 0 <= j < 4 && j != k ==> #[trigger] spec_neighbour(profile, cid as int, j) != m
        }),
{
    let h = Hierarchy { a: profile.aperture, b: profile.n_base };
    let sn = spec_side(profile.aperture as nat)->0;
    let c = cid as int;
    let p = spec_position(h, c, sn);
    let n = pow(sn as int, p.level as nat);
    let (north, south) = (profile.north_square as int, profile.south_square as int);
    let dk = DIRECTIONS@[k];
    lemma_neighbour_position(profile, c, k);
    let t = moved(north, south, p.base, n, p.row as int, p.col as int, dk)->0;
    let m = spec_neighbour(profile, c, k);
    assert(DIRECTIONS@[0] == Direction::Up && DIRECTIONS@[1] == Direction::Right);
    assert(DIRECTIONS@[2] == Direction::Down && DIRECTIONS@[3] == Direction::Left);
    // the way back
    let e = choose|e: Direction| #[trigger] moved(north, south, t.0, n, t.1, t.2, e) == Some((p.base, p.row as int, p.col as int));
    let j: int = match e {
        Direction::Up => 0,
        Direction::Right => 1,
        Direction::Down => 2,
        Direction::Left => 3,
    };
    assert(DIRECTIONS@[j] == e);
    let pm = spec_position(h, m, sn);
    assert(pm.level == p.level && pm.base == t.0 && pm.row as int == t.1 && pm.col as int == t.2);
    assert(spec_neighbour(profile, m, j) == cid);
    // no other direction, and not the cell itself
    lemma_locate_distinct(north, south, p.base, n, p.row as int, p.col as int, dk, dk);
    assert(m != c);
    assert forall|i: int| 0 <= i < 4 && i != k implies #[trigger] spec_neighbour(profile, c, i) != m by {
        lemma_neighbour_position(profile, c, i);
        lemma_locate_distinct(north, south, p.base, n, p.row as int, p.col as int, dk, DIRECTIONS@[i]);
    }
}

/// The raster index a halo entry gathers: the cell's index in the raster, or -1 beyond a corner.
pub open spec fn halo_value(loc: Option<(u32, int, int)>, n: int) -> int {
    match loc {
        Some((b, r, c)) => b * n * n + r * n + c,
        None => -1,
    }
}

/// A point up to `n` outside one edge of a base cell, and inside the other way, lies in a cell.
#[verifier::spinoff_prover]
proof fn lemma_locate_in_range(north: int, south: int, base: u32, n: int, r: int, c: int)
    requires
        0 <= north <= 3,
        0 <= south <= 3,
        base < 6,
        n >= 1,
        -n <= r < 2 * n,
        -n <= c < 2 * n,
        inside(r, n) || inside(c, n),
    ensures
        spec_locate(north, south, base, n, r, c) matches Some(t) && t.0 < 6 && inside(t.1, n) && inside(t.2, n),
{
    reveal_with_fuel(rot_cw, 4);
    reveal_with_fuel(rot_ccw, 4);
    if inside(r, n) && inside(c, n) {
    } else if 1 <= base <= 4 {
        let col = base - 1;
        if !inside(c, n) {
        } else if r < 0 {
            lemma_rot_bounds((n + r, c), n, ((col - north) % 4) as nat);
        } else {
            lemma_rot_bounds((r - n, c), n, ((col - south) % 4) as nat);
        }
    } else if base == 0 {
        if r >= n {
            assert(rot_cw((r, c), n, 0) == (r, c));
        } else if c >= n {
            assert(rot_cw((r, c), n, 1) == (c, n - 1 - r));
        } else if r < 0 {
            assert(rot_cw((r, c), n, 2) == (n - 1 - r, n - 1 - c));
        } else {
            assert(rot_cw((r, c), n, 3) == (n - 1 - c, r));
        }
    } else {
        if r < 0 {
            assert(rot_ccw((r, c), n, 0) == (r, c));
        } else if c >= n {
            assert(rot_ccw((r, c), n, 1) == (n - 1 - c, r));
        } else if r >= n {
            assert(rot_ccw((r, c), n, 2) == (n - 1 - r, n - 1 - c));
        } else {
            assert(rot_ccw((r, c), n, 3) == (c, n - 1 - r));
        }
    }
}

/// Every entry of a halo is a raster index except beyond a base cell's corners: an entry is -1
/// exactly when its position lies outside the base cell in both coordinates, and otherwise it is
/// the raster index of the cell the layout draws there.
pub proof fn lemma_halo_entries(north: int, south: int, b: u32, n: int, w: int, i: int, j: int)
    requires
        0 <= north <= 3,
        0 <= south <= 3,
        b < 6,
        n >= 1,
        0 <= w <= n,
        0 <= i < n + 2 * w,
        0 <= j < n + 2 * w,
    ensures
        ({
            let v = halo_value(spec_locate(north, south, b, n, i - w, j - w), n);
            &&& v == -1 <==> !inside(i - w, n) && !inside(j - w, n)
            &&& v != -1 ==> 0 <= v < 6 * n * n
        }),
{
    let (r, c) = (i - w, j - w);
    if inside(r, n) || inside(c, n) {
        lemma_locate_in_range(north, south, b, n, r, c);
        let t = spec_locate(north, south, b, n, r, c)->0;
        lemma_raster_slot(t.0 as int, t.1, t.2, n);
        assert((t.0 + 1) * n * n <= 6 * n * n) by (nonlinear_arith)
            requires
                t.0 + 1 <= 6,
                n >= 1,
        ;
    }
}

/// One base cell's padded block of a halo index, appended in scanline order.
fn halo_block(layout: &Layout, b: u32, n: i64, w: i64, m: i64, out: &mut Vec<i64>)
    requires
        0 <= layout.north <= 3,
        0 <= layout.south <= 3,
        b < 6,
        1 <= n <= 0x8000,
        0 <= w <= n,
        m == n + 2 * w,
    ensures
        final(out)@.len() == old(out)@.len() + m * m,
        forall|k: int| 0 <= k < old(out)@.len() ==> #[trigger] final(out)@[k] == old(out)@[k],
        forall|i: int, j: int| 0 <= i < m && 0 <= j < m ==> #[trigger] final(out)@[old(out)@.len() + i * m + j]
            == halo_value(spec_locate(layout.north as int, layout.south as int, b, n as int, i - w, j - w), n as int),
{
    let ghost start = out@.len();
    let ghost before = out@;
    let mut i: i64 = 0;
    while i < m
        invariant
            0 <= layout.north <= 3,
            0 <= layout.south <= 3,
            b < 6,
            1 <= n <= 0x8000,
            0 <= w <= n,
            m == n + 2 * w,
            0 <= i <= m,
            out@.len() == start + i * m,
            forall|k: int| 0 <= k < start ==> #[trigger] out@[k] == before[k],
            forall|ii: int, j: int| 0 <= ii < i && 0 <= j < m ==> #[trigger] out@[start + ii * m + j]
                == halo_value(spec_locate(layout.north as int, layout.south as int, b, n as int, ii - w, j - w), n as int),
        decreases m - i,
    {
        let mut j: i64 = 0;
        while j < m
            invariant
                0 <= layout.north <= 3,
                0 <= layout.south <= 3,
                b < 6,
                1 <= n <= 0x8000,
                0 <= w <= n,
                m == n + 2 * w,
                0 <= i < m,
                0 <= j <= m,
                out@.len() == start + i * m + j,
                forall|k: int| 0 <= k < start ==> #[trigger] out@[k] == before[k],
                forall|ii: int, jj: int| 0 <= ii < i && 0 <= jj < m ==> #[trigger] out@[start + ii * m + jj]
                    == halo_value(spec_locate(layout.north as int, layout.south as int, b, n as int, ii - w, jj - w), n as int),
                forall|jj: int| 0 <= jj < j ==> #[trigger] out@[start + i * m + jj]
                    == halo_value(spec_locate(layout.north as int, layout.south as int, b, n as int, i - w, jj - w), n as int),
            decreases m - j,
        {
            let v = match layout.locate(b, n, i - w, j - w) {
                Some((b2, r, c)) => {
                    proof {
                        assert(b2 * n * n + r * n + c < 6 * n * n) by (nonlinear_arith)
                            requires
                                b2 < 6,
                                0 <= r < n,
                                0 <= c < n,
                        ;
                        assert(0 <= b2 * n * n + r * n + c) by (nonlinear_arith)
                            requires
                                b2 >= 0,
                                0 <= r,
                                0 <= c,
                                n >= 0,
                        ;
                        assert(b2 * n <= b2 * n * n) by (nonlinear_arith)
                            requires
                                b2 >= 0,
                                n >= 1,
                        ;
                        assert(6 * n * n <= 6 * 0x8000 * 0x8000) by (nonlinear_arith)
                            requires
                                1 <= n <= 0x8000,
                        ;
                    }
                    b2 as i64 * n * n + r * n + c
                },
                None => -1,
            };
            let ghost prev = out@;
            out.push(v);
            proof {
                assert forall|ii: int, jj: int| 0 <= ii < i && 0 <= jj < m implies #[trigger] out@[start + ii * m + jj] == prev[start + ii * m + jj] by {
                    assert(ii * m + jj < i * m) by (nonlinear_arith)
                        requires
                            ii < i,
                            jj < m,
                            m >= 0,
                    ;
                    assert(0 <= ii * m + jj) by (nonlinear_arith)
                        requires
                            ii >= 0,
                            jj >= 0,
                            m >= 0,
                    ;
                }
            }
            j = j + 1;
        }
        proof {
            assert forall|ii: int, jj: int| 0 <= ii < i + 1 && 0 <= jj < m implies #[trigger] out@[start + ii * m + jj]
                == halo_value(spec_locate(layout.north as int, layout.south as int, b, n as int, ii - w, jj - w), n as int) by {
                if ii == i {
                }
            }
            assert(start + i * m + m == start + (i + 1) * m) by (nonlinear_arith);
        }
        i = i + 1;
    }
}

/// A gather index that pads each base-cell raster at `level` with `width` halo cells on every
/// side. Entry `(base, i, j)` of the padded `(6, n + 2w, n + 2w)` array, flattened, is the raster
/// index of the cell drawn there, or -1 in the `w × w` blocks beyond a base cell's corners.
pub fn halo_index(profile: &Profile, level: u32, width: u32) -> (r: Result<Vec<i64>>)
    ensures
        r is Ok <==> spec_valid(*profile) && profile.n_base == 6 && ({
            let n = pow(spec_side(profile.aperture as nat)->0 as int, level as nat);
            &&& n < cid_space()
            &&& width <= n
            &&& (n + 2 * width) * (n + 2 * width) * 6 <= MAX_RASTER_CELLS
        }),
        r matches Ok(v) ==> ({
            let n = pow(spec_side(profile.aperture as nat)->0 as int, level as nat);
            let m = n + 2 * width;
            &&& v@.len() == 6 * m * m
            &&& forall|b: int, i: int, j: int| 0 <= b < 6 && 0 <= i < m && 0 <= j < m ==> #[trigger] v@[b * m * m + i * m + j]
                == halo_value(spec_locate(profile.north_square as int, profile.south_square as int, b as u32, n, i - width, j - width), n)
        }),
{
    let layout = Layout::of(profile)?;
    let h = profile.hierarchy();
    let n = span(&h, level)?;
    let w = width as u64;
    if w > n {
        return invalid("a halo wider than the base cell");
    }
    let m = match n.checked_add(2 * w) {
        Some(x) => x,
        None => {
            proof {
                let x = n + 2 * w;
                assert(x * x * 6 > MAX_RASTER_CELLS) by (nonlinear_arith)
                    requires
                        x >= 0x1_0000_0000_0000_0000,
                ;
            }
            return invalid("a halo index at this level is too large");
        },
    };
    let total = match m.checked_mul(m) {
        Some(x) => match x.checked_mul(6) {
            Some(t) => {
                if t <= MAX_RASTER_CELLS {
                    t
                } else {
                    return invalid("a halo index at this level is too large");
                }
            },
            None => return invalid("a halo index at this level is too large"),
        },
        None => {
            proof {
                assert(m * m * 6 >= m * m) by (nonlinear_arith);
            }
            return invalid("a halo index at this level is too large");
        },
    };
    proof {
        assert(is_sqrt(spec_side(h.a as nat)->0, h.a as nat));
        lemma_side_bounds(spec_side(h.a as nat)->0, h.a as nat);
        lemma_pow_pos(spec_side(h.a as nat)->0 as int, level as nat);
        assert(n <= 0x8000) by (nonlinear_arith)
            requires
                m >= n,
                m * m * 6 <= MAX_RASTER_CELLS,
                n >= 1,
        ;
    }
    let (ni, wi, mi) = (n as i64, w as i64, m as i64);
    let mut out: Vec<i64> = Vec::new();
    let mut b: u32 = 0;
    while b < 6
        invariant
            0 <= layout.north <= 3,
            0 <= layout.south <= 3,
            layout.north == profile.north_square,
            layout.south == profile.south_square,
            1 <= ni <= 0x8000,
            0 <= wi <= ni,
            mi == ni + 2 * wi,
            b <= 6,
            out@.len() == b * mi * mi,
            forall|bb: int, i: int, j: int| 0 <= bb < b && 0 <= i < mi && 0 <= j < mi ==> #[trigger] out@[bb * mi * mi + i * mi + j]
                == halo_value(spec_locate(layout.north as int, layout.south as int, bb as u32, ni as int, i - wi, j - wi), ni as int),
        decreases 6 - b,
    {
        let ghost prev = out@;
        halo_block(&layout, b, ni, wi, mi, &mut out);
        proof {
            let mm = mi as int;
            assert forall|bb: int, i: int, j: int| 0 <= bb < b + 1 && 0 <= i < mm && 0 <= j < mm implies #[trigger] out@[bb * mm * mm + i * mm + j]
                == halo_value(spec_locate(layout.north as int, layout.south as int, bb as u32, ni as int, i - wi, j - wi), ni as int) by {
                lemma_raster_slot(bb, i, j, mm);
                if bb < b {
                    lemma_raster_slot_before(bb, i, j, b as int, mm);
                    assert(out@[bb * mm * mm + i * mm + j] == prev[bb * mm * mm + i * mm + j]);
                } else {
                    assert(bb * mm * mm + i * mm + j == prev.len() + i * mm + j);
                }
            }
            assert(b * mm * mm + mm * mm == (b + 1) * mm * mm) by (nonlinear_arith);
        }
        b = b + 1;
    }
    proof {
        assert(out@.len() == 6 * m * m) by (nonlinear_arith)
            requires
                out@.len() == 6 * mi * mi,
                mi == m,
        ;
    }
    Ok(out)
}

/// The digits of a cell below a block: the block's digits, then the cell's digits inside it.
pub proof fn lemma_cell_digits_concat(r1: int, c1: int, r2: int, c2: int, n: nat, l1: nat, k: nat)
    requires
        n >= 1,
        r1 >= 0,
        c1 >= 0,
        0 <= r2 < pow(n as int, k),
        0 <= c2 < pow(n as int, k),
    ensures
        cell_digits(r1 * pow(n as int, k) + r2, c1 * pow(n as int, k) + c2, n, l1 + k) == cell_digits(r1, c1, n, l1) + cell_digits(r2, c2, n, k),
    decreases k,
{
    let p = pow(n as int, k);
    if k == 0 {
        reveal(pow);
        assert(cell_digits(r2, c2, n, 0) =~= Seq::<u32>::empty());
        assert(cell_digits(r1, c1, n, l1) + cell_digits(r2, c2, n, 0) =~= cell_digits(r1, c1, n, l1));
    } else {
        let q = pow(n as int, (k - 1) as nat);
        lemma_pow_succ(n as int, (k - 1) as nat);
        lemma_pow_pos(n as int, (k - 1) as nat);
        let (rr, cc) = (r1 * p + r2, c1 * p + c2);
        assert(rr >= 0 && cc >= 0) by (nonlinear_arith)
            requires
                r1 >= 0,
                c1 >= 0,
                p >= 1,
                r2 >= 0,
                c2 >= 0,
                rr == r1 * p + r2,
                cc == c1 * p + c2,
        ;
        lemma_cell_digits_split(rr, cc, n, l1 + k);
        lemma_cell_digits_split(r2, c2, n, k);
        // rr / n = r1 q + r2 / n and rr % n = r2 % n, likewise for the columns
        lemma_fundamental_div_mod(r2, n as int);
        lemma_fundamental_div_mod(c2, n as int);
        lemma_mod_bound(r2, n as int);
        lemma_mod_bound(c2, n as int);
        lemma_div_pos_is_pos(r2, n as int);
        lemma_div_pos_is_pos(c2, n as int);
        let (r2q, r2m, c2q, c2m) = (r2 / (n as int), r2 % (n as int), c2 / (n as int), c2 % (n as int));
        assert(rr == (r1 * q + r2q) * n + r2m) by (nonlinear_arith)
            requires
                rr == r1 * p + r2,
                p == n * q,
                r2 == n * r2q + r2m,
        ;
        assert(cc == (c1 * q + c2q) * n + c2m) by (nonlinear_arith)
            requires
                cc == c1 * p + c2,
                p == n * q,
                c2 == n * c2q + c2m,
        ;
        assert(r1 * q + r2q >= 0 && c1 * q + c2q >= 0) by (nonlinear_arith)
            requires
                r1 >= 0,
                c1 >= 0,
                q >= 1,
                r2q >= 0,
                c2q >= 0,
        ;
        assert((r1 * q + r2q) * n <= rr < (r1 * q + r2q + 1) * n) by (nonlinear_arith)
            requires
                rr == (r1 * q + r2q) * n + r2m,
                0 <= r2m < n,
        ;
        assert((c1 * q + c2q) * n <= cc < (c1 * q + c2q + 1) * n) by (nonlinear_arith)
            requires
                cc == (c1 * q + c2q) * n + c2m,
                0 <= c2m < n,
        ;
        crate::arith::lemma_div_in_block(rr, r1 * q + r2q, n as int);
        crate::arith::lemma_div_in_block(cc, c1 * q + c2q, n as int);
        lemma_multiply_divide_lt(r2, n as int, q);
        lemma_multiply_divide_lt(c2, n as int, q);
        lemma_mul_is_commutative(n as int, q);
        lemma_cell_digits_concat(r1, c1, r2q, c2q, n, l1, (k - 1) as nat);
        let lhs = cell_digits(rr, cc, n, l1 + k);
        let rhs = cell_digits(r1, c1, n, l1) + cell_digits(r2, c2, n, k);
        assert(lhs.drop_last() =~= rhs.drop_last());
        assert(lhs =~= lhs.drop_last().push(lhs.last()));
        assert(rhs =~= rhs.drop_last().push(rhs.last()));
    }
}

/// The index, among the leaves of a block `k` levels above them, of the leaf at `(r, c)` inside
/// the block: the value of its digits.
pub open spec fn local_index(r: int, c: int, n: nat, k: nat) -> int {
    crate::hierarchy::digits_val(cell_digits(r, c, n, k), n * n)
}

/// The slot of `(base, row, col)` in a raster of side `w`.
pub open spec fn slot(w: int, b: int, r: int, c: int) -> int {
    b * w * w + r * w + c
}

/// A leaf index inside a block is below the block's number of leaves.
proof fn lemma_local_bound(r: int, c: int, n: nat, k: nat)
    requires
        n >= 1,
        n * n <= u32::MAX,
        0 <= r < pow(n as int, k),
        0 <= c < pow(n as int, k),
    ensures
        0 <= local_index(r, c, n, k) < pow((n * n) as int, k),
{
    lemma_position_of_cell_digits(r, c, n, k);
    assert(n * n >= 1) by (nonlinear_arith)
        requires
            n >= 1,
    ;
    crate::hierarchy::lemma_digits_val_bound(cell_digits(r, c, n, k), n * n);
}

/// The leaf at `(r, c)` of a block lies under the child `dg` its top row and column digit name,
/// at the leaf index inside the child that its remaining digits give.
proof fn lemma_local_child(r: int, c: int, n: nat, k: nat)
    requires
        n >= 1,
        n * n <= u32::MAX,
        k >= 1,
        0 <= r < pow(n as int, k),
        0 <= c < pow(n as int, k),
    ensures
        ({
            let q = pow(n as int, (k - 1) as nat);
            let dg = (r / q) * n + c / q;
            &&& 0 <= dg < n * n
            &&& local_index(r, c, n, k) / pow((n * n) as int, (k - 1) as nat) == dg
            &&& local_index(r, c, n, k) % pow((n * n) as int, (k - 1) as nat) == local_index(r % q, c % q, n, (k - 1) as nat)
        }),
{
    let q = pow(n as int, (k - 1) as nat);
    lemma_pow_succ(n as int, (k - 1) as nat);
    lemma_pow_pos(n as int, (k - 1) as nat);
    lemma_mul_is_commutative(n as int, q);
    lemma_fundamental_div_mod(r, q);
    lemma_fundamental_div_mod(c, q);
    lemma_mod_bound(r, q);
    lemma_mod_bound(c, q);
    lemma_div_pos_is_pos(r, q);
    lemma_div_pos_is_pos(c, q);
    lemma_multiply_divide_lt(r, q, n as int);
    lemma_multiply_divide_lt(c, q, n as int);
    let (rq, rm, cq, cm) = (r / q, r % q, c / q, c % q);
    lemma_mul_is_commutative(q, rq);
    lemma_mul_is_commutative(q, cq);
    lemma_cell_digits_concat(rq, cq, rm, cm, n, 1, (k - 1) as nat);
    let top = cell_digits(rq, cq, n, 1);
    let rest = cell_digits(rm, cm, n, (k - 1) as nat);
    reveal(pow);
    assert(pow(n as int, 0) == 1);
    crate::arith::lemma_div_in_block(rq, 0, n as int);
    crate::arith::lemma_div_in_block(cq, 0, n as int);
    let dg = rq * n + cq;
    assert(0 <= dg < n * n) by (nonlinear_arith)
        requires
            0 <= rq < n,
            0 <= cq < n,
            dg == rq * n + cq,
    ;
    assert(top[0] == dg as u32);
    let all = top + rest;
    assert(all.drop_first() =~= rest);
    crate::hierarchy::lemma_digits_val_front(all, n * n);
    lemma_position_of_cell_digits(rm, cm, n, (k - 1) as nat);
    assert(n * n >= 1) by (nonlinear_arith)
        requires
            n >= 1,
    ;
    crate::hierarchy::lemma_digits_val_bound(rest, n * n);
    let pa = pow((n * n) as int, (k - 1) as nat);
    let v = crate::hierarchy::digits_val(rest, n * n);
    assert(dg * pa <= dg * pa + v < (dg + 1) * pa) by (nonlinear_arith)
        requires
            0 <= v < pa,
    ;
    crate::arith::lemma_div_in_block(dg * pa + v, dg, pa);
}

} // verus!

verus! {

/// The cell at `(base, row, col)` of a raster at a tree's depth is a leaf, covered exactly when
/// its base node covers the leaf that its digits index.
proof fn lemma_cell_at_leaf(t: &Tree, b: int, row: int, col: int)
    requires
        t.wf(),
        spec_side(t.h.a as nat) is Some,
        0 <= b < t.h.b,
        0 <= row < pow(spec_side(t.h.a as nat)->0 as int, t.d as nat),
        0 <= col < pow(spec_side(t.h.a as nat)->0 as int, t.d as nat),
    ensures
        ({
            let n = spec_side(t.h.a as nat)->0;
            let c = spec_cell_at(t.h, b as u32, t.d, row, col, n);
            &&& c == (t.h.a + b) * pow(t.h.a as int, t.d as nat) + local_index(row, col, n, t.d as nat)
            &&& 0 <= local_index(row, col, n, t.d as nat) < pow(t.h.a as int, t.d as nat)
            &&& t.is_leaf(c)
            &&& t.covered(c) == covers(t.bases@[b], t.h.a as nat, t.d as nat, local_index(row, col, n, t.d as nat))
        }),
{
    let n = spec_side(t.h.a as nat)->0;
    let h = t.h;
    let d = t.d as nat;
    assert(is_sqrt(n, h.a as nat));
    lemma_side_bounds(n, h.a as nat);
    let cd = cell_digits(row, col, n, d);
    lemma_position_of_cell_digits(row, col, n, d);
    let p = seq![b as u32] + cd;
    assert forall|i: int| 1 <= i < p.len() implies #[trigger] p[i] < h.a by {
        assert(p[i] == cd[i - 1]);
    }
    assert(h.valid_path(p));
    h.lemma_cid_split(p);
    assert(p.drop_first() =~= cd);
    t.lemma_base_leaf(b, local_index(row, col, n, d));
}

/// A slot below `w² · nb` splits into its base, row and column.
proof fn lemma_slot_split(i: int, w: int, nb: int)
    requires
        w >= 1,
        0 <= i < w * w * nb,
    ensures
        0 <= i / (w * w) < nb,
        0 <= (i % (w * w)) / w < w,
        0 <= i % (w * w) % w < w,
        i == (i / (w * w)) * w * w + ((i % (w * w)) / w) * w + i % (w * w) % w,
{
    let ww = w * w;
    assert(ww >= 1) by (nonlinear_arith)
        requires
            w >= 1,
            ww == w * w,
    ;
    lemma_fundamental_div_mod(i, ww);
    lemma_mod_bound(i, ww);
    lemma_div_pos_is_pos(i, ww);
    assert(i < ww * nb) by (nonlinear_arith)
        requires
            i < w * w * nb,
            ww == w * w,
    ;
    lemma_multiply_divide_lt(i, ww, nb);
    let m = i % ww;
    lemma_fundamental_div_mod(m, w);
    lemma_mod_bound(m, w);
    lemma_div_pos_is_pos(m, w);
    lemma_multiply_divide_lt(m, w, w);
    let b = i / ww;
    assert(ww * b == b * w * w) by (nonlinear_arith)
        requires
            ww == w * w,
    ;
    assert(w * (m / w) == (m / w) * w) by (nonlinear_arith);
}

/// `v` is the raster of `t`: one byte per leaf in raster order, 1 where covered.
pub open spec fn is_raster_of(t: Tree, v: Seq<u8>) -> bool {
    let n = spec_side(t.h.a as nat)->0;
    let w = pow(n as int, t.d as nat);
    &&& v.len() == w * w * t.h.b
    &&& forall|b: int, row: int, col: int| 0 <= b < t.h.b && 0 <= row < w && 0 <= col < w
        ==> #[trigger] v[b * w * w + row * w + col] == (if t.covered(spec_cell_at(t.h, b as u32, t.d, row, col, n)) { 1u8 } else { 0u8 })
}

/// The covered leaves of `tree` as one raster per base cell at the tree's depth, flattened
/// base-major then scanline: 1 where covered, 0 elsewhere.
pub fn raster(tree: &Tree) -> (r: Result<Vec<u8>>)
    requires
        tree.wf(),
    ensures
        r is Ok <==> spec_side(tree.h.a as nat) is Some
            && pow(spec_side(tree.h.a as nat)->0 as int, tree.d as nat) < cid_space()
            && pow(spec_side(tree.h.a as nat)->0 as int, tree.d as nat) * pow(spec_side(tree.h.a as nat)->0 as int, tree.d as nat) * tree.h.b
                <= MAX_RASTER_CELLS,
        r matches Ok(v) ==> is_raster_of(*tree, v@),
{
    let cells = raster_cells(&tree.h, tree.d)?;
    let ghost n = spec_side(tree.h.a as nat)->0;
    let ghost w = pow(n as int, tree.d as nat);
    let ghost nb = tree.h.b as int;
    proof {
        assert(is_sqrt(n, tree.h.a as nat));
        lemma_side_bounds(n, tree.h.a as nat);
        lemma_pow_pos(n as int, tree.d as nat);
    }
    let m = cells.len();
    let mut out: Vec<u8> = Vec::new();
    let mut i: usize = 0;
    while i < m
        invariant
            tree.wf(),
            spec_side(tree.h.a as nat) is Some,
            n == spec_side(tree.h.a as nat)->0,
            w == pow(n as int, tree.d as nat),
            w >= 1,
            nb == tree.h.b,
            m == cells@.len(),
            m == w * w * nb,
            forall|b: int, row: int, col: int| 0 <= b < nb && 0 <= row < w && 0 <= col < w
                ==> #[trigger] cells@[b * w * w + row * w + col] == spec_cell_at(tree.h, b as u32, tree.d, row, col, n),
            i <= m,
            out@.len() == i,
            forall|j: int| 0 <= j < i ==> #[trigger] out@[j] == (if tree.covers_cell(cells@[j] as int) { 1u8 } else { 0u8 }),
        decreases m - i,
    {
        let c = cells[i];
        proof {
            lemma_slot_split(i as int, w, nb);
            let b = (i as int) / (w * w);
            let row = ((i as int) % (w * w)) / w;
            let col = (i as int) % (w * w) % w;
            assert(cells@[b * w * w + row * w + col] == spec_cell_at(tree.h, b as u32, tree.d, row, col, n));
            lemma_cell_at_leaf(tree, b, row, col);
        }
        let v = tree.covers(c)?;
        out.push(if v { 1u8 } else { 0u8 });
        i = i + 1;
    }
    proof {
        assert forall|b: int, row: int, col: int| 0 <= b < nb && 0 <= row < w && 0 <= col < w
            implies #[trigger] out@[b * w * w + row * w + col]
                == (if tree.covered(spec_cell_at(tree.h, b as u32, tree.d, row, col, n)) { 1u8 } else { 0u8 }) by {
            lemma_raster_slot(b, row, col, w);
            assert((b + 1) * w * w <= nb * w * w) by (nonlinear_arith)
                requires
                    b + 1 <= nb,
            ;
            assert(nb * w * w == w * w * nb) by (nonlinear_arith);
            lemma_cell_at_leaf(tree, b, row, col);
            tree.lemma_covers_leaf(spec_cell_at(tree.h, b as u32, tree.d, row, col, n));
        }
    }
    Ok(out)
}

/// The canonical node of the block `k` levels above the leaves whose top-left leaf sits at row
/// `row·N^k`, column `col·N^k` of base `b`, read off a raster of side `w`: a leaf is covered
/// where its byte is not zero.
fn block_node(cells: &[u8], w: u64, n: u64, b: u64, row: u64, col: u64, k: u32, ctx: &Ctx) -> (r: Node)
    requires
        ctx.wf(),
        n >= 1,
        ctx.a == n * n,
        k <= ctx.depth(),
        pow(n as int, k as nat) * (row + 1) <= w,
        pow(n as int, k as nat) * (col + 1) <= w,
        (b + 1) * w * w <= cells@.len(),
    ensures
        wf_node(r, ctx.a as nat, k as nat),
        forall|rr: int, cc: int| 0 <= rr < pow(n as int, k as nat) && 0 <= cc < pow(n as int, k as nat)
            ==> covers(r, ctx.a as nat, k as nat, #[trigger] local_index(rr, cc, n as nat, k as nat))
                == (cells@[b * w * w + (row * pow(n as int, k as nat) + rr) * w + col * pow(n as int, k as nat) + cc] != 0),
    decreases k,
{
    let ghost q = pow(n as int, k as nat);
    let ghost a = ctx.a as nat;
    proof {
        lemma_pow_pos(n as int, k as nat);
    }
    if k == 0 {
        let len = cells.len();
        proof {
            reveal(pow);
            assert(q == 1);
            assert(row < w && col < w) by (nonlinear_arith)
                requires
                    q == 1,
                    q * (row + 1) <= w,
                    q * (col + 1) <= w,
            ;
            lemma_raster_slot(b as int, row as int, col as int, w as int);
            assert(b * w <= b * w * w && b * w * w <= (b + 1) * w * w) by (nonlinear_arith)
                requires
                    w >= 1,
            ;
        }
        let i = b * w * w + row * w + col;
        let leaf = cells[i as usize] != 0;
        proof {
            assert forall|rr: int, cc: int| 0 <= rr < q && 0 <= cc < q
                implies covers(if leaf { Node::Full } else { Node::Empty }, a, 0, #[trigger] local_index(rr, cc, n as nat, 0))
                    == (cells@[b * w * w + (row * q + rr) * w + col * q + cc] != 0) by {
                assert(rr == 0 && cc == 0);
                assert(row * q == row && col * q == col) by (nonlinear_arith)
                    requires
                        q == 1,
                ;
            }
        }
        if leaf { Node::Full } else { Node::Empty }
    } else {
        let ghost q1 = pow(n as int, (k - 1) as nat);
        proof {
            lemma_pow_succ(n as int, (k - 1) as nat);
            lemma_pow_pos(n as int, (k - 1) as nat);
            assert(q == n * q1);
            assert(row * n <= row * n * q1 && col * n <= col * n * q1) by (nonlinear_arith)
                requires
                    q1 >= 1,
            ;
            assert(q * (row + 1) == row * n * q1 + n * q1 && q * (col + 1) == col * n * q1 + n * q1) by (nonlinear_arith)
                requires
                    q == n * q1,
            ;
            assert(n * q1 >= 1) by (nonlinear_arith)
                requires
                    n >= 1,
                    q1 >= 1,
            ;
            assert(n * n >= 1) by (nonlinear_arith)
                requires
                    n >= 1,
            ;
        }
        let aa = n * n;
        let mut children: Vec<Node> = Vec::new();
        let mut dg: u64 = 0;
        while dg < aa
            invariant
                ctx.wf(),
                n >= 1,
                aa == n * n,
                ctx.a == aa,
                a == aa,
                1 <= k <= ctx.depth(),
                q == pow(n as int, k as nat),
                q1 == pow(n as int, (k - 1) as nat),
                q == n * q1,
                q1 >= 1,
                q * (row + 1) <= w,
                q * (col + 1) <= w,
                (b + 1) * w * w <= cells@.len(),
                dg <= aa,
                children@.len() == dg,
                forall|j: int| 0 <= j < dg ==> wf_node(#[trigger] children@[j], a, (k - 1) as nat),
                forall|j: int, rr: int, cc: int| 0 <= j < dg && 0 <= rr < q1 && 0 <= cc < q1
                    ==> covers(#[trigger] children@[j], a, (k - 1) as nat, #[trigger] local_index(rr, cc, n as nat, (k - 1) as nat))
                        == (cells@[b * w * w + ((row * n + j / n as int) * q1 + rr) * w + (col * n + j % n as int) * q1 + cc] != 0),
            decreases aa - dg,
        {
            proof {
                lemma_div_pos_is_pos(dg as int, n as int);
                lemma_multiply_divide_lt(dg as int, n as int, n as int);
                lemma_mod_bound(dg as int, n as int);
                assert(q1 * (row * n + dg / n + 1) <= w && q1 * (col * n + dg % n + 1) <= w) by (nonlinear_arith)
                    requires
                        q == n * q1,
                        q1 >= 1,
                        0 <= dg / n < n,
                        0 <= dg % n < n,
                        q * (row + 1) <= w,
                        q * (col + 1) <= w,
                ;
                assert(row * n + dg / n <= q1 * (row * n + dg / n + 1)) by (nonlinear_arith)
                    requires
                        q1 >= 1,
                        row * n + dg / n >= 0,
                ;
                assert(col * n + dg % n <= q1 * (col * n + dg % n + 1)) by (nonlinear_arith)
                    requires
                        q1 >= 1,
                        col * n + dg % n >= 0,
                ;
            }
            let child = block_node(cells, w, n, b, row * n + dg / n, col * n + dg % n, k - 1, ctx);
            children.push(child);
            dg = dg + 1;
        }
        let r = make_branch(children, k, ctx);
        proof {
            assert forall|rr: int, cc: int| 0 <= rr < q && 0 <= cc < q
                implies covers(r, a, k as nat, #[trigger] local_index(rr, cc, n as nat, k as nat))
                    == (cells@[b * w * w + (row * q + rr) * w + col * q + cc] != 0) by {
                lemma_local_child(rr, cc, n as nat, k as nat);
                lemma_local_bound(rr, cc, n as nat, k as nat);
                let i = local_index(rr, cc, n as nat, k as nat);
                let s = pow(a as int, (k - 1) as nat);
                let dgi = (rr / q1) * n + cc / q1;
                lemma_fundamental_div_mod(rr, q1);
                lemma_fundamental_div_mod(cc, q1);
                lemma_mod_bound(rr, q1);
                lemma_mod_bound(cc, q1);
                lemma_div_pos_is_pos(rr, q1);
                lemma_div_pos_is_pos(cc, q1);
                lemma_multiply_divide_lt(rr, q1, n as int);
                lemma_multiply_divide_lt(cc, q1, n as int);
                assert(n * q1 == q1 * n) by (nonlinear_arith);
                let (r1, r0, c1, c0) = (rr / q1, rr % q1, cc / q1, cc % q1);
                assert(dgi / n as int == r1 && dgi % n as int == c1) by {
                    assert(r1 * n <= dgi < (r1 + 1) * n) by (nonlinear_arith)
                        requires
                            dgi == r1 * n + c1,
                            0 <= c1 < n,
                    ;
                    lemma_div_in_block(dgi, r1, n as int);
                    lemma_fundamental_div_mod(dgi, n as int);
                }
                assert(covers(children@[dgi], a, (k - 1) as nat, local_index(r0, c0, n as nat, (k - 1) as nat))
                    == (cells@[b * w * w + ((row * n + r1) * q1 + r0) * w + (col * n + c1) * q1 + c0] != 0));
                assert((row * n + r1) * q1 + r0 == row * q + rr) by (nonlinear_arith)
                    requires
                        q == n * q1,
                        rr == q1 * r1 + r0,
                ;
                assert((col * n + c1) * q1 + c0 == col * q + cc) by (nonlinear_arith)
                    requires
                        q == n * q1,
                        cc == q1 * c1 + c0,
                ;
            }
        }
        r
    }
}

/// The canonical tree of depth `d` whose covered leaves are the nonzero entries of a raster laid
/// out as `raster` returns it.
pub fn from_raster(h: Hierarchy, d: u32, cells: &[u8], ctx: Arc<Ctx>) -> (r: Result<Tree>)
    requires
        h.valid(),
        ctx.wf(),
    ensures
        r is Ok <==> spec_side(h.a as nat) is Some
            && pow(spec_side(h.a as nat)->0 as int, d as nat) < cid_space()
            && pow(spec_side(h.a as nat)->0 as int, d as nat) * pow(spec_side(h.a as nat)->0 as int, d as nat) * h.b <= MAX_RASTER_CELLS
            && cells@.len() == pow(spec_side(h.a as nat)->0 as int, d as nat) * pow(spec_side(h.a as nat)->0 as int, d as nat) * h.b
            && ctx.a == h.a && ctx.b == h.b && d <= ctx.depth() && h.fits(d as nat),
        r matches Ok(t) ==> t.wf() && t.h == h && t.d == d && t.ctx == ctx && covers_raster(t, cells@),
{
    let (w, total) = raster_len(&h, d)?;
    if cells.len() != total {
        return invalid("raster length does not match its depth");
    }
    let empty = Tree::empty(h, d, ctx)?;
    let n = side(&h)?;
    let ghost nb = h.b as int;
    let mut bases: Vec<Node> = Vec::new();
    let mut b: u32 = 0;
    while b < h.b
        invariant
            h.valid(),
            empty.wf(),
            empty.h == h,
            empty.d == d,
            n * n == h.a,
            n == spec_side(h.a as nat)->0,
            w == pow(n as int, d as nat),
            cells@.len() == w * w * nb,
            nb == h.b,
            b <= h.b,
            bases@.len() == b,
            forall|j: int| 0 <= j < b ==> wf_node(#[trigger] bases@[j], h.a as nat, d as nat),
            forall|j: int, rr: int, cc: int| 0 <= j < b && 0 <= rr < w && 0 <= cc < w
                ==> covers(#[trigger] bases@[j], h.a as nat, d as nat, #[trigger] local_index(rr, cc, n as nat, d as nat))
                    == (cells@[j * w * w + rr * w + cc] != 0),
        decreases h.b - b,
    {
        proof {
            assert((b + 1) * w * w <= w * w * nb) by (nonlinear_arith)
                requires
                    b + 1 <= nb,
            ;
        }
        let node = block_node(cells, w, n, b as u64, 0, 0, d, &empty.ctx);
        bases.push(node);
        b = b + 1;
    }
    let t = Tree { h, d, bases, ctx: empty.ctx };
    proof {
        let sn = spec_side(h.a as nat)->0;
        assert forall|bb: int, row: int, col: int| 0 <= bb < h.b && 0 <= row < w && 0 <= col < w
            implies #[trigger] t.covered(spec_cell_at(h, bb as u32, d, row, col, sn)) == (cells@[bb * w * w + row * w + col] != 0) by {
            lemma_cell_at_leaf(&t, bb, row, col);
            assert(covers(t.bases@[bb], h.a as nat, d as nat, local_index(row, col, n as nat, d as nat))
                == (cells@[bb * w * w + row * w + col] != 0));
        }
    }
    Ok(t)
}

/// `t` covers a leaf exactly where the raster `v` is not zero.
pub open spec fn covers_raster(t: Tree, v: Seq<u8>) -> bool {
    let n = spec_side(t.h.a as nat)->0;
    let w = pow(n as int, t.d as nat);
    forall|b: int, row: int, col: int| 0 <= b < t.h.b && 0 <= row < w && 0 <= col < w
        ==> #[trigger] t.covered(spec_cell_at(t.h, b as u32, t.d, row, col, n)) == (v[b * w * w + row * w + col] != 0)
}

/// Every leaf of a tree sits at a raster position: the cell there is the leaf.
pub proof fn lemma_leaf_position(t: &Tree, x: int)
    requires
        t.wf(),
        spec_side(t.h.a as nat) is Some,
        t.is_leaf(x),
    ensures
        ({
            let n = spec_side(t.h.a as nat)->0;
            let p = spec_position(t.h, x, n);
            &&& p.base < t.h.b
            &&& p.level == t.d
            &&& p.row < pow(n as int, t.d as nat)
            &&& p.col < pow(n as int, t.d as nat)
            &&& spec_cell_at(t.h, p.base, t.d, p.row as int, p.col as int, n) == x
        }),
{
    let h = t.h;
    let n = spec_side(h.a as nat)->0;
    let pw = pow(h.a as int, t.d as nat);
    h.lemma_leaf_split(x);
    assert(x < (h.a + h.b) * pw) by (nonlinear_arith)
        requires
            x == h.lead(x) * pw + x % pw,
            x % pw < pw,
            h.lead(x) < h.a + h.b,
    ;
    assert(is_sqrt(n, h.a as nat));
    lemma_path_row_col_bound(h, x, n);
    h.lemma_path_cid(x);
    lemma_cell_at_position(h, x);
}

/// Rebuilding a tree from its raster gives back its covered leaves, and so its root.
pub proof fn lemma_raster_round_trip(t: &Tree, v: Seq<u8>, back: &Tree)
    requires
        t.wf(),
        back.wf(),
        back.h == t.h,
        back.d == t.d,
        spec_side(t.h.a as nat) is Some,
        is_raster_of(*t, v),
        covers_raster(*back, v),
    ensures
        back.leaf_set() == t.leaf_set(),
        back.spec_root() == t.spec_root(),
{
    let n = spec_side(t.h.a as nat)->0;
    let w = pow(n as int, t.d as nat);
    assert forall|x: int| #[trigger] back.covered(x) == t.covered(x) by {
        if t.is_leaf(x) {
            lemma_leaf_position(t, x);
            let p = spec_position(t.h, x, n);
            let (b, row, col) = (p.base as int, p.row as int, p.col as int);
            assert(v[b * w * w + row * w + col] == (if t.covered(spec_cell_at(t.h, b as u32, t.d, row, col, n)) { 1u8 } else { 0u8 }));
            assert(back.covered(spec_cell_at(back.h, b as u32, back.d, row, col, n)) == (v[b * w * w + row * w + col] != 0));
        }
    }
    assert(back.leaf_set() =~= t.leaf_set());
    crate::tree::lemma_root_determined_by_leaves(back, t);
}

/// The sub-zone `subzone_at` names for scanline index `i` lies under the ancestor, `depth` levels
/// down, and `subzone_index` gives back `i`.
pub proof fn lemma_subzone_round_trip(h: Hierarchy, anc: int, depth: nat, i: int)
    requires
        h.valid(),
        spec_side(h.a as nat) is Some,
        h.is_cid(anc),
        anc < cid_space(),
        h.fits(h.spec_level(anc) + depth),
        0 <= i < pow(spec_side(h.a as nat)->0 as int, depth) * pow(spec_side(h.a as nat)->0 as int, depth),
    ensures
        ({
            let n = spec_side(h.a as nat)->0;
            let pa = spec_position(h, anc, n);
            let w = pow(n as int, depth);
            let c = spec_cell_at(h, pa.base, (pa.level + depth) as u32, pa.row * w + i / w, pa.col * w + i % w, n);
            &&& h.is_cid(c)
            &&& h.spec_level(c) == h.spec_level(anc) + depth
            &&& h.spec_is_ancestor(anc, c)
            &&& spec_subzone_index(h, anc, c, n) == i
        }),
{
    let n = spec_side(h.a as nat)->0;
    assert(is_sqrt(n, h.a as nat));
    lemma_side_bounds(n, h.a as nat);
    let pa = spec_position(h, anc, n);
    let la = h.spec_level(anc);
    let w = pow(n as int, depth);
    lemma_pow_pos(n as int, depth);
    lemma_path_row_col_bound(h, anc, n);
    h.lemma_path_cid(anc);
    let pan = h.path_of(anc);
    let ds = pan.drop_first();
    assert forall|j: int| 0 <= j < ds.len() implies #[trigger] ds[j] < n * n by {
        assert(ds[j] == pan[j + 1]);
    }
    lemma_cell_digits_of_position(ds, n);
    lemma_div_pos_is_pos(i, w);
    lemma_multiply_divide_lt(i, w, w);
    lemma_mod_bound(i, w);
    let (r2, c2) = (i / w, i % w);
    lemma_cell_digits_concat(pa.row as int, pa.col as int, r2, c2, n, la, depth);
    assert(la < 64);
    assert((la as u32) as nat == la);
    assert(((pa.level + depth) as u32) as nat == la + depth) by {
        assert(pa.level == la);
        assert(la + depth < 64) by {
            lemma_pow_pos(h.a as int, la + depth);
            assert(pow(h.a as int, la + depth) < (h.a + h.b) * pow(h.a as int, la + depth)) by (nonlinear_arith)
                requires
                    pow(h.a as int, la + depth) >= 1,
                    h.a + h.b >= 2,
            ;
            assert(pow(h.a as int, la + depth) < cid_space());
            lemma_small_exponent(h.a as nat, la + depth);
        }
    }
    let q = cell_digits(r2, c2, n, depth);
    lemma_position_of_cell_digits(r2, c2, n, depth);
    let p = pan + q;
    assert(seq![pa.base] + (ds + q) =~= p);
    assert forall|j: int| 1 <= j < p.len() implies #[trigger] p[j] < h.a by {
        if j < pan.len() {
            assert(p[j] == pan[j]);
        } else {
            assert(p[j] == q[j - pan.len()]);
        }
    }
    assert(h.valid_path(p));
    h.lemma_cid_path(p);
    let c = h.spec_cid(p);
    h.lemma_ancestor_up(c, depth);
    let z = c / pow(h.a as int, depth);
    h.lemma_ancestor_path(z, c);
    h.lemma_path_cid(z);
    assert(p.take(la + 1 as int) =~= pan);
    assert(h.path_of(z) == pan);
    assert(z == anc);
    assert(rel_digits(h, anc, c) =~= q);
    lemma_fundamental_div_mod(i, w);
    lemma_mul_is_commutative(w, r2);
}

/// The subzone cells of a cell `depth` levels down, in scanline order: `A^depth` of them, each in
/// the block of the cell's descendants at that level, no two alike; so they are those
/// descendants, each once.
pub proof fn lemma_subzones_distinct(h: Hierarchy, anc: int, depth: nat, i: int, j: int)
    requires
        h.valid(),
        spec_side(h.a as nat) is Some,
        h.is_cid(anc),
        anc < cid_space(),
        h.fits(h.spec_level(anc) + depth),
        0 <= i < pow(spec_side(h.a as nat)->0 as int, depth) * pow(spec_side(h.a as nat)->0 as int, depth),
        0 <= j < pow(spec_side(h.a as nat)->0 as int, depth) * pow(spec_side(h.a as nat)->0 as int, depth),
        i != j,
    ensures
        ({
            let n = spec_side(h.a as nat)->0;
            let pa = spec_position(h, anc, n);
            let w = pow(n as int, depth);
            let ci = spec_cell_at(h, pa.base, (pa.level + depth) as u32, pa.row * w + i / w, pa.col * w + i % w, n);
            let cj = spec_cell_at(h, pa.base, (pa.level + depth) as u32, pa.row * w + j / w, pa.col * w + j % w, n);
            &&& w * w == pow(h.a as int, depth)
            &&& anc * pow(h.a as int, depth) <= ci < (anc + 1) * pow(h.a as int, depth)
            &&& ci != cj
        }),
{
    let n = spec_side(h.a as nat)->0;
    assert(is_sqrt(n, h.a as nat));
    lemma_pow_square(n, depth);
    lemma_subzone_round_trip(h, anc, depth, i);
    lemma_subzone_round_trip(h, anc, depth, j);
    let pa = spec_position(h, anc, n);
    let w = pow(n as int, depth);
    let ci = spec_cell_at(h, pa.base, (pa.level + depth) as u32, pa.row * w + i / w, pa.col * w + i % w, n);
    let p = pow(h.a as int, depth);
    lemma_pow_pos(h.a as int, depth);
    assert(ci / p == anc);
    lemma_fundamental_div_mod(ci, p);
    lemma_mod_bound(ci, p);
    assert(anc * p <= ci < (anc + 1) * p) by (nonlinear_arith)
        requires
            ci == p * anc + ci % p,
            0 <= ci % p < p,
    ;
}

} // verus!
