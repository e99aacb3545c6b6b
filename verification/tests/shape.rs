//! Cell regions and shapes, and the cells of a mixed-level cover.

use burin_core::cover::{polyfill_cells, CoverWalk, Verdict, MAX_RESOLUTION};
use burin_core::hash::Ctx;
use burin_core::hierarchy::{space, suid_to_cid, Cid, Hierarchy};
use burin_core::tree::Tree;
use std::sync::Arc;
use burin_core::shape::{region, shape, Region, Shape};

#[test]
fn regions_follow_the_base_cell() {
    assert_eq!(region(&[0]), Region::NorthPolar);
    assert_eq!(region(&[0, 4, 7]), Region::NorthPolar);
    assert_eq!(region(&[5, 1]), Region::SouthPolar);
    for b in 1..=4 {
        assert_eq!(region(&[b, 8]), Region::Equatorial);
    }
}

#[test]
fn band_cells_are_quads_and_polar_cells_take_their_shape_from_the_digits() {
    assert_eq!(shape(3, &[1, 4]), Shape::Quad);
    assert_eq!(shape(3, &[4, 0, 0]), Shape::Quad);
    assert_eq!(shape(3, &[0]), Shape::Cap);
    assert_eq!(shape(3, &[5]), Shape::Cap);
    assert_eq!(shape(3, &[0, 4, 4]), Shape::Cap);
    assert_eq!(shape(3, &[0, 0, 4, 8]), Shape::Dart);
    assert_eq!(shape(3, &[5, 2, 4, 6]), Shape::Dart);
    assert_eq!(shape(3, &[0, 0, 2]), Shape::SkewQuad);
    assert_eq!(shape(3, &[5, 1]), Shape::SkewQuad);
    // an even side has no centre cell below the base
    assert_eq!(shape(2, &[0, 0]), Shape::Dart);
    assert_eq!(shape(2, &[0, 0, 3]), Shape::Dart);
    assert_eq!(shape(2, &[0, 1, 2]), Shape::Dart);
    assert_eq!(shape(2, &[5, 1, 0]), Shape::SkewQuad);
}

fn c(s: &str) -> Cid {
    suid_to_cid(s).unwrap()
}

#[test]
fn a_cover_expands_to_its_cells_at_the_resolution() {
    let h = space();
    let got = polyfill_cells(&h, 2, &[c("P1"), c("N40"), c("N4"), c("R88")]).unwrap();
    let mut want: Vec<Cid> = h.descendants(c("P1"), 1).collect();
    want.extend(h.descendants(c("N4"), 1));
    want.push(c("R88"));
    want.sort_unstable();
    assert_eq!(got, want);
    assert_eq!(got.len(), 9 + 9 + 1);
    assert!(got.windows(2).all(|w| w[0] < w[1]));
    assert_eq!(polyfill_cells(&h, 0, &[]).unwrap(), Vec::<Cid>::new());
}

#[test]
fn a_cover_node_below_the_resolution_or_not_a_cid_is_refused() {
    let h = space();
    assert!(polyfill_cells(&h, 1, &[c("P12")]).is_err());
    assert!(polyfill_cells(&h, 3, &[5]).is_err());
    let deep = Hierarchy::new(4096, 6).unwrap();
    assert!(polyfill_cells(&deep, 6, &[4096]).is_err());
}

/// Drives the walk with a judge of (cid, level), as a coverer does.
fn walk(h: Hierarchy, resolution: u32, judge: impl Fn(Cid, u32) -> Verdict) -> (Vec<Cid>, Vec<Cid>) {
    let mut w = CoverWalk::new(h, resolution).unwrap();
    let mut asked = Vec::new();
    while let Some((cid, level)) = w.next() {
        assert_eq!(h.level(cid), level);
        asked.push(cid);
        w.answer(judge(cid, level));
    }
    (asked, w.finish())
}

#[test]
fn the_walk_descends_depth_first_and_collects_what_is_inside() {
    let h = space();
    let (p, q, q4, q41) = (c("P"), c("Q"), c("Q4"), c("Q41"));
    let judge = |cid: Cid, _level: u32| {
        if cid == p || cid == q41 {
            Verdict::Inside
        } else if cid == q || cid == q4 {
            Verdict::Partial
        } else {
            Verdict::Miss
        }
    };
    let (asked, found) = walk(h, 3, judge);
    assert_eq!(found, vec![p, q41]);
    let mut want = vec![c("N"), c("O"), p, q, c("Q0"), c("Q1"), c("Q2"), c("Q3"), q4, c("Q40"), q41];
    want.extend(["Q42", "Q43", "Q44", "Q45", "Q46", "Q47", "Q48", "Q5", "Q6", "Q7", "Q8", "R", "S"].map(c));
    assert_eq!(asked, want);
    // the polygon's cells are the found nodes spelled out at the resolution
    let cells = polyfill_cells(&h, 3, &found).unwrap();
    assert_eq!(cells.len(), 9 * 9 * 9 + 9);
}

#[test]
fn a_walk_that_descends_everywhere_finds_every_cell_in_order() {
    let h = space();
    let (_, found) = walk(h, 1, |_, level| if level < 1 { Verdict::Partial } else { Verdict::Inside });
    let all: Vec<Cid> = (0..6u64).flat_map(|b| h.descendants(9 + b, 1)).collect();
    assert_eq!(found, all);
    assert!(CoverWalk::new(Hierarchy::new(4096, 6).unwrap(), 6).is_err());
    assert!(CoverWalk::new(h, MAX_RESOLUTION).is_ok());
    assert!(CoverWalk::new(h, MAX_RESOLUTION + 1).is_err());
}

#[test]
fn a_tree_over_the_listed_cells_is_the_tree_over_the_nodes() {
    let h = space();
    let nodes = vec![c("P1"), c("N40"), c("N4"), c("R88"), c("S")];
    let cells = polyfill_cells(&h, 2, &nodes).unwrap();
    let ctx = Arc::new(Ctx::sha256(9, 6, 2));
    let from_nodes = Tree::from_cells(h, 2, &nodes, ctx.clone()).unwrap();
    let from_cells = Tree::from_cells(h, 2, &cells, ctx).unwrap();
    assert_eq!(from_cells.root(), from_nodes.root());
    assert_eq!(from_cells.cells(), from_nodes.cells());
}
