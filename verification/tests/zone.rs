//! Zone topology: positions, scanline sub-zones, neighbours, halos and rasters.

use burin_core::hash::Ctx;
use burin_core::hierarchy::{cid_to_suid, space, suid_to_cid, Cid, Hierarchy};
use burin_core::profile::Profile;
use burin_core::tree::Tree;
use burin_core::zone::{cell_at, from_raster, halo_index, neighbours, position, raster, raster_cells, raster_index, subzone_at, subzone_index, subzones};
use std::collections::BTreeSet;
use std::sync::Arc;

fn placement(ns: u8, ss: u8) -> Profile {
    Profile { north_square: ns, south_square: ss, ..Profile::default() }
}

fn cells_at(level: u32) -> Vec<Cid> {
    (0..6u64).flat_map(|b| space().descendants(9 + b, level)).collect()
}

fn suid(c: Cid) -> String {
    cid_to_suid(c).unwrap()
}

#[test]
fn position_and_cell_at_are_inverse() {
    let h = space();
    for c in cells_at(3) {
        for cid in [c, h.descendants(c, 4).start + 1234] {
            let p = position(&h, cid).unwrap();
            assert_eq!(cell_at(&h, p.base, p.level, p.row, p.col).unwrap(), cid);
        }
    }
    assert!(cell_at(&h, 6, 1, 0, 0).is_err());
    assert!(cell_at(&h, 0, 1, 3, 0).is_err());
}

#[test]
fn subzone_index_inverts_subzone_at() {
    let h = space();
    for parent in ["N", "Q4", "S08", "R261"] {
        let p = suid_to_cid(parent).unwrap();
        for depth in 0..=3 {
            let subs = subzones(&h, p, depth).unwrap();
            assert_eq!(subs.len() as u64, 9u64.pow(depth));
            assert_eq!(subs.iter().collect::<BTreeSet<_>>().len(), subs.len(), "{parent}/{depth} repeats a sub-zone");
            for (i, &s) in subs.iter().enumerate() {
                assert!(h.is_ancestor(p, s));
                assert_eq!(subzone_index(&h, p, s).unwrap(), i as u64);
                assert_eq!(subzone_at(&h, p, depth, i as u64).unwrap(), s);
            }
            assert!(subzone_at(&h, p, depth, 9u64.pow(depth)).is_err());
        }
    }
    let (q4, r0) = (suid_to_cid("Q4").unwrap(), suid_to_cid("R0").unwrap());
    assert!(subzone_index(&h, q4, r0).is_err(), "a cell outside the ancestor has no index");
    assert!(subzone_index(&h, suid_to_cid("Q45").unwrap(), q4).is_err(), "a descendant is not an ancestor");
}

#[test]
fn neighbours_are_symmetric_distinct_and_level_preserving() {
    let h = space();
    for (ns, ss) in [(0, 0), (1, 2), (3, 3)] {
        let p = placement(ns, ss);
        for c in cells_at(3) {
            let nb = neighbours(&p, c).unwrap();
            assert_eq!(nb.iter().collect::<BTreeSet<_>>().len(), 4, "{} has a repeated neighbour", suid(c));
            for &n in &nb {
                assert_ne!(n, c);
                assert_eq!(h.level(n), h.level(c));
                assert!(neighbours(&p, n).unwrap().contains(&c), "{} -> {} is one-way (ns={ns} ss={ss})", suid(c), suid(n));
            }
        }
    }
}

fn raster_cid(level: u32, n: i64, idx: i64) -> Cid {
    let (b, rest) = (idx / (n * n), idx % (n * n));
    cell_at(&space(), b as u32, level, (rest / n) as u64, (rest % n) as u64).unwrap()
}

#[test]
fn a_width_one_halo_is_the_edge_neighbours() {
    for ns in 0..4u8 {
        for ss in 0..4u8 {
            let p = placement(ns, ss);
            for level in [0, 1, 2] {
                let idx = halo_index(&p, level, 1).unwrap();
                let n = 3i64.pow(level);
                let m = n + 2;
                assert_eq!(idx.len() as i64, 6 * m * m);
                assert_eq!(idx.iter().filter(|&&x| x < 0).count(), 24, "one missing diagonal per base-cell corner");
                for b in 0..6i64 {
                    let at = |i: i64, j: i64| idx[(b * m * m + i * m + j) as usize];
                    for r in 0..n {
                        for c in 0..n {
                            let own = raster_cid(level, n, at(r + 1, c + 1));
                            assert_eq!(own, cell_at(&space(), b as u32, level, r as u64, c as u64).unwrap());
                            let nb = neighbours(&p, own).unwrap();
                            let around = [at(r, c + 1), at(r + 1, c + 2), at(r + 2, c + 1), at(r + 1, c)];
                            for (k, &g) in around.iter().enumerate() {
                                assert_eq!(raster_cid(level, n, g), nb[k], "halo of {} (ns={ns} ss={ss})", suid(own));
                            }
                        }
                    }
                }
            }
        }
    }
}

#[test]
fn a_wide_halo_continues_across_the_edge() {
    let p = placement(1, 2);
    let (level, width) = (2u32, 4u32);
    let idx = halo_index(&p, level, width).unwrap();
    let (n, w) = (3i64.pow(level), width as i64);
    let m = n + 2 * w;
    assert_eq!(idx.iter().filter(|&&x| x < 0).count() as i64, 24 * w * w);
    for b in 0..6i64 {
        let at = |i: i64, j: i64| idx[(b * m * m + i * m + j) as usize];
        // each strip from an edge cell outward: consecutive cells are edge neighbours, all distinct
        for t in 0..n {
            let strips: [Vec<i64>; 4] = [
                (0..=w).rev().map(|s| at(s, w + t)).collect(),
                (0..=w).map(|s| at(w + t, n + w - 1 + s)).collect(),
                (0..=w).map(|s| at(n + w - 1 + s, w + t)).collect(),
                (0..=w).rev().map(|s| at(w + t, s)).collect(),
            ];
            for strip in strips {
                let cells: Vec<Cid> = strip.iter().map(|&g| raster_cid(level, n, g)).collect();
                assert_eq!(cells.iter().collect::<BTreeSet<_>>().len(), cells.len());
                for pair in cells.windows(2) {
                    assert!(neighbours(&p, pair[0]).unwrap().contains(&pair[1]), "{} then {}", suid(pair[0]), suid(pair[1]));
                }
            }
        }
    }
    assert!(halo_index(&p, 1, 4).is_err(), "a halo wider than the base cell");
}

#[test]
fn raster_round_trips_and_counts_leaves() {
    let h = space();
    let d = 3;
    let ctx = Arc::new(Ctx::sha256(9, 6, d));
    let mut x = 0x9e3779b97f4a7c15u64;
    let mut cells = Vec::new();
    for _ in 0..60 {
        x ^= x << 13;
        x ^= x >> 7;
        x ^= x << 17;
        let level = (x % 4) as u32;
        let mut path = vec![(x >> 8) as u32 % 6];
        for k in 0..level {
            path.push((x >> (12 + 4 * k)) as u32 % 9);
        }
        cells.push(h.cid(&path).unwrap());
    }
    let tree = Tree::from_cells(h, d, &cells, ctx.clone()).unwrap();
    let r = raster(&tree).unwrap();
    assert_eq!(r.len(), 6 * 27 * 27);
    assert_eq!(r.iter().filter(|&&v| v == 1).count() as u64, tree.leaf_count());
    for leaf in tree.leaves() {
        let p = position(&h, leaf).unwrap();
        assert_eq!(r[(p.base as u64 * 729 + p.row * 27 + p.col) as usize], 1);
    }
    let back = from_raster(h, d, &r, ctx.clone()).unwrap();
    assert_eq!(back.root(), tree.root());
    assert_eq!(back.cells(), tree.cells(), "rebuilt tree is canonical");
    assert!(from_raster(h, d, &r[1..], ctx).is_err());
}

#[test]
fn raster_index_and_raster_cells_are_inverse() {
    let h = space();
    for level in 0..=3 {
        let cells = raster_cells(&h, level).unwrap();
        assert_eq!(cells.len() as u64, 6 * 9u64.pow(level));
        assert_eq!(cells.iter().collect::<BTreeSet<_>>().len(), cells.len());
        let idx = raster_index(&h, &cells).unwrap();
        assert!(idx.iter().enumerate().all(|(i, &x)| x == i as u64));
    }
    let mixed = [suid_to_cid("Q4").unwrap(), suid_to_cid("Q45").unwrap()];
    assert!(raster_index(&h, &mixed).is_err(), "cids of two levels have no common raster");
    assert!(raster_index(&h, &[]).unwrap().is_empty());
}

#[test]
fn a_non_square_aperture_has_no_rows() {
    let h = Hierarchy::new(8, 6).unwrap();
    assert!(position(&h, h.cid(&[0, 1]).unwrap()).is_err());
}

#[test]
fn any_nonzero_byte_marks_a_raster_leaf() {
    let h = space();
    let d = 1;
    let ctx = Arc::new(Ctx::sha256(9, 6, d));
    let mut r = vec![0u8; 6 * 9];
    r[3 * 9 + 4] = 7; // base Q, row 1, col 1
    let t = from_raster(h, d, &r, ctx.clone()).unwrap();
    assert_eq!(t.cells(), vec![cell_at(&h, 3, 1, 1, 1).unwrap()]);
    assert_eq!(raster(&t).unwrap()[3 * 9 + 4], 1);
    for v in [255u8, 1] {
        r.iter_mut().for_each(|x| *x = v);
        assert!(from_raster(h, d, &r, ctx.clone()).unwrap().is_full());
    }
}

#[test]
fn a_raster_needs_a_square_aperture() {
    let h = Hierarchy::new(8, 6).unwrap();
    let ctx = Arc::new(Ctx::sha256(8, 6, 1));
    let t = Tree::empty(h, 1, ctx.clone()).unwrap();
    assert!(raster(&t).is_err());
    assert!(from_raster(h, 1, &[0u8; 48], ctx).is_err());
}
