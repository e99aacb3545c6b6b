//! Which part of the rHEALPix image a cell lies in, and the shape it takes on the ellipsoid: read
//! off its path alone. A cell of the band is a quadrilateral; in a polar square, the cell at the
//! centre of every level is the cap, the cells along a diagonal of the square are darts, and the
//! rest are skew quadrilaterals.

use vstd::prelude::*;

verus! {

/// The part of the rHEALPix image a base cell lies in.
#[derive(Debug, Clone, Copy, PartialEq, Eq, Structural)]
pub enum Region {
    Equatorial,
    NorthPolar,
    SouthPolar,
}

/// The shape a cell takes on the ellipsoid.
#[derive(Debug, Clone, Copy, PartialEq, Eq, Structural)]
pub enum Shape {
    Quad,
    Cap,
    Dart,
    SkewQuad,
}

/// The region of the cell with path `p`: N is the north polar square, S the south one.
pub open spec fn spec_region(p: Seq<u32>) -> Region {
    if p[0] == 0 {
        Region::NorthPolar
    } else if p[0] == 5 {
        Region::SouthPolar
    } else {
        Region::Equatorial
    }
}

/// The row of digit `d` in its `n`×`n` block.
pub open spec fn digit_row(d: u32, n: int) -> int {
    d as int / n
}

/// The column of digit `d` in its `n`×`n` block.
pub open spec fn digit_col(d: u32, n: int) -> int {
    d as int % n
}

/// Every digit of `ds` is the centre of its `n`×`n` block: `n` is odd, and row and column are
/// both `(n - 1) / 2`.
pub open spec fn all_centre(ds: Seq<u32>, n: int) -> bool {
    &&& n % 2 == 1
    &&& forall|i: int| 0 <= i < ds.len() ==> digit_row(#[trigger] ds[i], n) == (n - 1) / 2 && digit_col(ds[i], n) == (n - 1) / 2
}

/// Every digit of `ds` lies on the main diagonal of its block: row equals column.
pub open spec fn all_on_diagonal(ds: Seq<u32>, n: int) -> bool {
    forall|i: int| 0 <= i < ds.len() ==> digit_row(#[trigger] ds[i], n) == digit_col(ds[i], n)
}

/// Every digit of `ds` lies on the antidiagonal of its block: row plus column is `n - 1`.
pub open spec fn all_on_antidiagonal(ds: Seq<u32>, n: int) -> bool {
    forall|i: int| 0 <= i < ds.len() ==> digit_row(#[trigger] ds[i], n) + digit_col(ds[i], n) == n - 1
}

/// The shape of the cell with path `p` in a grid of side `n`: band cells are quadrilaterals; a
/// base polar cell, and a polar cell at the centre at every level, is the cap; a polar cell on one
/// diagonal at every level is a dart; any other polar cell is a skew quadrilateral.
pub open spec fn spec_shape(n: int, p: Seq<u32>) -> Shape {
    let ds = p.drop_first();
    if 1 <= p[0] <= 4 {
        Shape::Quad
    } else if ds.len() == 0 || all_centre(ds, n) {
        Shape::Cap
    } else if all_on_diagonal(ds, n) || all_on_antidiagonal(ds, n) {
        Shape::Dart
    } else {
        Shape::SkewQuad
    }
}

/// The region of the cell with path `path`.
pub fn region(path: &[u32]) -> (r: Region)
    requires
        path@.len() >= 1,
    ensures
        r == spec_region(path@),
{
    match path[0] {
        0 => Region::NorthPolar,
        5 => Region::SouthPolar,
        _ => Region::Equatorial,
    }
}

/// The inputs the shape is computed for: a band cell or a base cell, at any side; a grid side of
/// at least 2 whose square, when it is odd, fits in 32 bits; or side 1 with every digit 0.
pub open spec fn shape_defined(n: int, p: Seq<u32>) -> bool {
    ||| 1 <= p[0] <= 4
    ||| p.len() == 1
    ||| 2 <= n && (n % 2 == 1 ==> n * n <= u32::MAX)
    ||| n == 1 && forall|i: int| 1 <= i < p.len() ==> #[trigger] p[i] == 0
}

/// The shape of the cell with path `path` in a grid whose side is `n` (its aperture `n²`).
pub fn shape(n: u32, path: &[u32]) -> (r: Shape)
    requires
        path@.len() >= 1,
        shape_defined(n as int, path@),
    ensures
        r == spec_shape(n as int, path@),
{
    if 1 <= path[0] && path[0] <= 4 {
        return Shape::Quad;
    }
    let ghost ds = path@.drop_first();
    let len = path.len();
    if len == 1 {
        return Shape::Cap;
    }
    let m = (n - 1) / 2;
    let mut centre = n % 2 == 1;
    let mut diagonal = true;
    let mut anti = true;
    let mut i: usize = 1;
    while i < len
        invariant
            len == path@.len(),
            ds == path@.drop_first(),
            1 <= n,
            m == (n - 1) / 2,
            1 <= i <= len,
            centre == all_centre(ds.take(i - 1), n as int),
            diagonal == all_on_diagonal(ds.take(i - 1), n as int),
            anti == all_on_antidiagonal(ds.take(i - 1), n as int),
        decreases len - i,
    {
        let d = path[i];
        let (row, col) = (d / n, d % n);
        let ghost (t0, t1) = (ds.take(i - 1), ds.take(i as int));
        proof {
            assert(ds[i - 1] == d);
            assert(t1 =~= t0.push(d));
            assert(forall|j: int| 0 <= j < i - 1 ==> #[trigger] t1[j] == t0[j]);
        }
        centre = centre && row == m && col == m;
        diagonal = diagonal && row == col;
        anti = anti && row as u64 + col as u64 == n as u64 - 1;
        proof {
            assert(t1[i - 1] == d);
        }
        i = i + 1;
    }
    proof {
        assert(ds.take(len - 1) =~= ds);
    }
    if centre {
        Shape::Cap
    } else if diagonal || anti {
        Shape::Dart
    } else {
        Shape::SkewQuad
    }
}

} // verus!
