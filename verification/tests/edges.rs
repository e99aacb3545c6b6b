//! Where a numeric limit or two code paths could quietly disagree: the 64-bit limit and the tree
//! built from adversarial cell lists.

use burin_core::hash::Ctx;
use burin_core::hierarchy::{cid_to_suid, space, suid_to_cid, Cid, Hierarchy};
use burin_core::tree::Tree;
use burin_core::zone::{cell_at, position};
use std::sync::Arc;

#[test]
fn the_sixty_four_bit_limit_is_enforced_exactly() {
    let h = space();
    assert_eq!(h.max_level(), 18);
    assert_eq!(Hierarchy::new(2, 1).unwrap().max_level(), 62);
    let deepest: Vec<u32> = std::iter::once(5).chain(std::iter::repeat(8).take(18)).collect();
    let last = h.cid(&deepest).unwrap();
    assert_eq!(last, 15 * 9u64.pow(18) - 1, "the last cell at the deepest level");
    assert_eq!(h.path(last).unwrap(), deepest);
    assert!(h.cid(&[deepest.clone(), vec![0]].concat()).is_err(), "one level deeper overflows");
    assert!(cell_at(&h, 0, 19, 0, 0).is_err());
    assert_eq!(cell_at(&h, 5, 18, 3u64.pow(18) - 1, 3u64.pow(18) - 1).unwrap(), last);
    let ctx = |d| Arc::new(Ctx::sha256(9, 6, d));
    assert!(Tree::empty(h, 19, ctx(19)).is_err());
    let t = Tree::from_cells(h, 18, &[last, h.cid(&[0]).unwrap()], ctx(18)).unwrap();
    assert_eq!(t.cells(), vec![h.cid(&[0]).unwrap(), last]);
    assert_eq!(t.leaf_count(), 9u64.pow(18) + 1);
    let one_by_one = Tree::empty(h, 18, ctx(18)).unwrap().set_full(last).unwrap().set_full(h.cid(&[0]).unwrap()).unwrap();
    assert_eq!(t.root(), one_by_one.root());
}

#[test]
fn the_bulk_builder_is_canonical_on_adversarial_lists() {
    let h = space();
    let ctx = |d| Arc::new(Ctx::sha256(9, 6, d));
    let cid = |p: &[u32]| h.cid(p).unwrap();
    let oracle = |d: u32, cells: &[Cid]| cells.iter().fold(Tree::empty(h, d, ctx(d)).unwrap(), |t, &c| t.set_full(c).unwrap());
    let q4_children: Vec<Cid> = (0..9).map(|k| cid(&[3, 4, k])).collect();
    let cases: Vec<(&str, u32, Vec<Cid>, Vec<Cid>)> = vec![
        ("nine children are their parent", 3, q4_children.clone(), vec![cid(&[3, 4])]),
        ("eight children stay eight", 3, q4_children[..8].to_vec(), q4_children[..8].to_vec()),
        ("81 grandchildren are the base cell", 2, (0..81).map(|k| cid(&[3, k / 9, k % 9])).collect(), vec![cid(&[3])]),
        ("a parent swallows its children", 3, [q4_children.clone(), vec![cid(&[3, 4])], q4_children.clone()].concat(), vec![cid(&[3, 4])]),
        ("touching ranges across base cells stay apart", 2, vec![cid(&[3, 8, 8]), cid(&[4, 0, 0])], vec![cid(&[3, 8, 8]), cid(&[4, 0, 0])]),
        ("the planet from its 54 level-1 cells", 1, (0..54).map(|k| cid(&[k / 9, k % 9])).collect(), (0..6).map(|b| cid(&[b])).collect()),
        ("nothing", 4, vec![], vec![]),
    ];
    for (name, d, input, want) in cases {
        let bulk = Tree::from_cells(h, d, &input, ctx(d)).unwrap();
        assert_eq!(bulk.cells(), want, "{name}");
        assert_eq!(bulk.root(), oracle(d, &input).root(), "{name}: root differs from cell-by-cell insertion");
    }
    assert!(Tree::from_cells(h, 1, &[cid(&[3, 4, 5])], ctx(1)).is_err(), "a cell below the tree's depth");
    assert!(Tree::from_cells(h, 3, &[5u64], ctx(3)).is_err(), "not a cid");
}

#[test]
fn hierarchies_are_refused_outside_their_limits() {
    assert!(Hierarchy::new(1, 1).is_err());
    assert!(Hierarchy::new(2, 0).is_err());
    assert!(Hierarchy::new(3, 7).is_err(), "B > A(A-1)");
    assert!(Hierarchy::new(3, 6).is_ok());
    assert!(Hierarchy::new(4097, 6).is_err(), "A beyond the largest aperture");
    assert!(Hierarchy::new(4096, 4096 * 4095).is_ok_and(|h| h.max_level() >= 1));
}

#[test]
fn ids_below_the_deepest_level_are_refused() {
    let h = space();
    // N followed by nineteen zeros: it fits in 64 bits, but level 19 is not whole
    let deep = 9u64.pow(20);
    assert_eq!(h.level(deep), 19);
    assert!(h.check(deep, None).is_err());
    assert!(h.path(deep).is_err());
    assert!(cid_to_suid(deep).is_err());
    assert!(position(&h, deep).is_err());
    let at_18 = 9u64.pow(19);
    assert_eq!(h.check(at_18, None).unwrap(), 18);
    assert!(position(&h, at_18).is_ok());
    let s = cid_to_suid(at_18).unwrap();
    assert_eq!(s, format!("N{}", "0".repeat(18)));
    assert_eq!(suid_to_cid(&s).unwrap(), at_18);
}
