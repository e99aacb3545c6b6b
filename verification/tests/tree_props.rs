//! Structural properties of the tree, openings and set algebra.

use burin_core::hash::Ctx;
use burin_core::hierarchy::{cid_to_suid, space, suid_to_cid, Cid, Hierarchy};
use burin_core::opening::{open_path, verify_opening, Claim, Entry, Opening, OpeningRecord};
use burin_core::setops::{difference, divergence, intersect, prove, union, Op};
use burin_core::tree::{make_branch, Node, Tree};
use std::collections::BTreeSet;
use std::sync::Arc;

struct Rng(u64);
impl Rng {
    fn next(&mut self) -> u64 {
        self.0 ^= self.0 << 13;
        self.0 ^= self.0 >> 7;
        self.0 ^= self.0 << 17;
        self.0
    }
    fn below(&mut self, n: u64) -> u64 {
        self.next() % n
    }
}

fn ctx(d: u32) -> Arc<Ctx> {
    Arc::new(Ctx::sha256(9, 6, d))
}

fn random_cells(rng: &mut Rng, h: &Hierarchy, d: u32, n: usize) -> Vec<Cid> {
    (0..n)
        .map(|_| {
            let level = rng.below(d as u64 + 1) as u32;
            let mut path = vec![rng.below(h.b as u64) as u32];
            for _ in 0..level {
                path.push(rng.below(h.a as u64) as u32);
            }
            h.cid(&path).unwrap()
        })
        .collect()
}

fn leaf_set(h: &Hierarchy, d: u32, cells: &[Cid]) -> BTreeSet<Cid> {
    let mut s = BTreeSet::new();
    for &c in cells {
        s.extend(h.descendants(c, d - h.level(c)));
    }
    s
}

fn build(d: u32, cells: &[Cid]) -> Tree {
    Tree::from_cells(space(), d, cells, ctx(d)).unwrap()
}

#[test]
fn roll_up_is_an_identity() {
    let h = space();
    let c = ctx(4);
    let q45 = suid_to_cid("Q45").unwrap();
    let whole = Tree::from_cells(h, 4, &[q45], c.clone()).unwrap();
    let spelled: Vec<Cid> = h.descendants(q45, 2).collect();
    let fine = Tree::from_cells(h, 4, &spelled, c.clone()).unwrap();
    assert_eq!(whole.root(), fine.root());
    assert_eq!(fine.cells(), vec![q45]);
    // heterogeneous coverage does not collapse
    let partial: Vec<Cid> = h.descendants(q45, 2).skip(1).collect();
    let partial = Tree::from_cells(h, 4, &partial, c).unwrap();
    assert_ne!(partial.root(), whole.root());
}

#[test]
fn order_and_duplicates_do_not_matter() {
    let h = space();
    let mut rng = Rng(0x9E3779B97F4A7C15);
    let c = ctx(4);
    for _ in 0..20 {
        let cells = random_cells(&mut rng, &h, 4, 40);
        let a = Tree::from_cells(h, 4, &cells, c.clone()).unwrap();
        let mut shuffled = cells.clone();
        for i in (1..shuffled.len()).rev() {
            let j = rng.below(i as u64 + 1) as usize;
            shuffled.swap(i, j);
        }
        shuffled.extend(cells.iter().take(7).copied());
        let b = Tree::from_cells(h, 4, &shuffled, c.clone()).unwrap();
        assert_eq!(a.root(), b.root());
        assert_eq!(a.leaves().into_iter().collect::<BTreeSet<_>>(), leaf_set(&h, 4, &cells));
    }
}

#[test]
fn set_algebra_matches_a_set_oracle() {
    let h = space();
    let mut rng = Rng(42);
    let d = 3;
    let c = ctx(d);
    for _ in 0..30 {
        let ca = random_cells(&mut rng, &h, d, 12);
        let cb = random_cells(&mut rng, &h, d, 12);
        let (sa, sb) = (leaf_set(&h, d, &ca), leaf_set(&h, d, &cb));
        let a = Tree::from_cells(h, d, &ca, c.clone()).unwrap();
        let b = Tree::from_cells(h, d, &cb, c.clone()).unwrap();
        let expect = |s: BTreeSet<Cid>| {
            let v: Vec<Cid> = s.into_iter().collect();
            Tree::from_cells(h, d, &v, c.clone()).unwrap().root()
        };
        assert_eq!(union(&a, &b).unwrap().root(), expect(&sa | &sb));
        assert_eq!(intersect(&a, &b).unwrap().root(), expect(&sa & &sb));
        assert_eq!(difference(&a, &b).unwrap().root(), expect(&sa - &sb));
        for op in [Op::Union, Op::Intersect, Op::Difference] {
            let p = prove(&a, &b, op).unwrap();
            assert!(p.verify(), "{op:?} transcript");
            let back = p.clone();
            assert_eq!(back, p);
            assert!(back.verify());
            // tamper: flip the claimed result root
            let mut t = p.clone();
            t.root_c[0] ^= 1;
            assert!(!t.verify());
            // tamper: expand a decided node (a decided node must be a leaf step)
            let mut t = p.clone();
            if let Some(s) = t.steps.iter_mut().find(|s| s.children.is_none()) {
                s.children = Some(vec![s.clone(); 9]);
                assert!(!t.verify());
            }
        }
        let div = divergence(&a, &b).unwrap();
        assert_eq!(div.is_empty(), a.root() == b.root());
    }
}

fn flip(op: &Opening) -> Opening {
    match op {
        Opening::Claim(Claim::Full) => Opening::Claim(Claim::Empty),
        Opening::Claim(Claim::Empty) => Opening::Claim(Claim::Full),
        Opening::Entries(es) => Opening::Entries(
            es.iter()
                .map(|e| match e {
                    Entry::Open(o) => Entry::Open(Box::new(flip(o))),
                    h => h.clone(),
                })
                .collect(),
        ),
    }
}

#[test]
fn every_cell_opens_and_verifies() {
    let h = space();
    let mut rng = Rng(7);
    let d = 3;
    let c = ctx(d);
    let cells = random_cells(&mut rng, &h, d, 15);
    let t = Tree::from_cells(h, d, &cells, c.clone()).unwrap();
    let root = t.root();
    let mut n_full = 0;
    let mut n_empty = 0;
    let mut n_partial = 0;
    for b in 0..6u32 {
        for level in 0..=d {
            let mut path = vec![b];
            for _ in 0..level {
                path.push(rng.below(9) as u32);
            }
            let cid = h.cid(&path).unwrap();
            match open_path(&t, cid).unwrap() {
                None => {
                    n_partial += 1;
                    assert!(t.node_at(cid).unwrap().0.is_branch());
                }
                Some(op) => {
                    assert!(verify_opening(&op, &root, d, &c));
                    assert_eq!(op.path().unwrap(), path);
                    let claim = op.terminal().unwrap();
                    assert_eq!(claim == Claim::Full, t.covers(cid).unwrap());
                    if claim == Claim::Full {
                        n_full += 1
                    } else {
                        n_empty += 1
                    }
                    let rec = OpeningRecord::new(&t, op.clone());
                    assert_eq!(rec.cid(), Some(cid));
                    assert!(rec.verify());
                    // tamper: flip the terminal claim
                    let flipped = flip(&op);
                    assert!(!verify_opening(&flipped, &root, d, &c), "flipped claim must not verify");
                    // tamper: a sibling hash
                    if let Opening::Entries(es) = &op {
                        let mut es2 = es.clone();
                        if let Some(Entry::Hash(h)) = es2.iter_mut().find(|e| matches!(e, Entry::Hash(_))) {
                            h[0] ^= 1;
                        }
                        assert!(!verify_opening(&Opening::Entries(es2), &root, d, &c));
                    }
                    // wrong depth
                    assert!(!verify_opening(&op, &root, d + 1, &Ctx::sha256(9, 6, d + 1)));
                }
            }
        }
    }
    assert!(n_full > 0 && n_empty > 0 && n_partial > 0, "{n_full} {n_empty} {n_partial}");
}

#[test]
fn malformed_openings_verify_false() {
    let c = ctx(2);
    let t = Tree::from_cells(space(), 2, &[suid_to_cid("Q4").unwrap()], c.clone()).unwrap();
    let root = t.root();
    assert!(!verify_opening(&Opening::Claim(Claim::Full), &root, 2, &c));
    assert!(!verify_opening(&Opening::Entries(vec![]), &root, 2, &c));
    let too_few = Opening::Entries(vec![Entry::Hash([0; 32]); 5]);
    assert!(!verify_opening(&too_few, &root, 2, &c));
    let bad_arity = Opening::Entries(vec![Entry::Open(Box::new(Opening::Entries(vec![Entry::Hash([0; 32]); 8]))); 6]);
    assert!(!verify_opening(&bad_arity, &root, 2, &c));
}

#[test]
fn hierarchy_round_trips() {
    let h = space();
    for s in ["N", "S8", "Q453", "O00000000000000", "R888888888888888"] {
        let cid = suid_to_cid(s).unwrap();
        assert_eq!(cid_to_suid(cid).unwrap(), s);
        assert_eq!(h.level(cid) as usize, s.len() - 1);
    }
    assert_eq!(suid_to_cid("Q453").unwrap(), (9 + 3) * 729 + 4 * 81 + 5 * 9 + 3);
    assert!(suid_to_cid("X1").is_err());
    assert!(h.check(5, None).is_err());
    assert!(h.check(15 * 9, None).is_err(), "base 15-9=6 is out of range");
}

#[test]
fn bulk_build_equals_cell_by_cell_insertion() {
    let h = space();
    let mut rng = Rng(0x2545_f491_4f6c_dd1d);
    for d in [0u32, 1, 3, 5] {
        for n in [0usize, 1, 7, 60, 400] {
            let mut cells = random_cells(&mut rng, &h, d, n);
            if n > 1 {
                cells.push(cells[0]); // duplicates
                cells.push(h.parent(cells[1]).unwrap_or(cells[1])); // an ancestor of a listed cell
            }
            let bulk = Tree::from_cells(h, d, &cells, ctx(d)).unwrap();
            let mut one = Tree::empty(h, d, ctx(d)).unwrap();
            for &c in &cells {
                one = one.set_full(c).unwrap();
            }
            assert_eq!(bulk.root(), one.root(), "d={d} n={n}");
            assert_eq!(bulk.cells(), one.cells(), "d={d} n={n}: canonical form");
        }
    }
    let planet: Vec<Cid> = (0..6).map(|b| h.cid(&[b]).unwrap()).collect();
    assert!(Tree::from_cells(h, 4, &planet, ctx(4)).unwrap().is_full());
    assert!(Tree::from_cells(h, 2, &[h.cid(&[0, 0, 0, 0]).unwrap()], ctx(2)).is_err(), "a cell below the depth");
}

#[test]
fn large_lists_build_the_same_tree_on_any_schedule() {
    let h = space();
    let mut rng = Rng(0x0dd_ba11);
    let d = 7;
    let cells = random_cells(&mut rng, &h, d, 30_000);
    let bulk = Tree::from_cells(h, d, &cells, ctx(d)).unwrap();
    let one = cells.iter().fold(Tree::empty(h, d, ctx(d)).unwrap(), |t, &c| t.set_full(c).unwrap());
    assert_eq!(bulk.root(), one.root());
    assert_eq!(bulk.cells(), one.cells());
    for _ in 0..3 {
        assert_eq!(Tree::from_cells(h, d, &cells, ctx(d)).unwrap().root(), bulk.root(), "a rebuild differs");
    }
}

#[test]
fn the_cells_tile_the_leaves() {
    let h = space();
    let mut rng = Rng(99);
    for d in [1u32, 2, 3] {
        let cells = random_cells(&mut rng, &h, d, 25);
        let t = build(d, &cells);
        let from_cells = leaf_set(&h, d, &t.cells());
        let leaves: BTreeSet<Cid> = t.leaves().into_iter().collect();
        assert_eq!(from_cells, leaves);
        assert_eq!(t.leaf_count(), leaves.len() as u64);
        // no cell of the cover lies under another
        let cs = t.cells();
        for &x in &cs {
            for &y in &cs {
                assert!(x == y || !h.is_ancestor(x, y));
            }
        }
    }
}

#[test]
fn the_root_depends_on_the_leaves_alone() {
    let q4 = suid_to_cid("Q4").unwrap();
    let kids: Vec<Cid> = space().descendants(q4, 1).collect();
    let a = build(2, &[q4]);
    let b = build(2, &kids);
    let c = build(2, &[kids[3], q4, kids[0], kids[0]]);
    assert_eq!(a.root(), b.root());
    assert_eq!(a.root(), c.root());
    assert_eq!(a.root_hex().len(), 64);
    let empty = Tree::empty(space(), 2, ctx(2)).unwrap();
    assert!(empty.is_empty() && !empty.is_full());
    assert_ne!(empty.root(), a.root());
}

#[test]
fn rebuilding_from_the_cells_gives_the_same_root() {
    let h = space();
    let mut rng = Rng(7);
    for d in [0u32, 1, 2, 3] {
        let cells = random_cells(&mut rng, &h, d, 30);
        let t = build(d, &cells);
        let back = Tree::from_cells(h, d, &t.cells(), ctx(d)).unwrap();
        assert_eq!(back.root(), t.root());
        assert_eq!(back.cells(), t.cells());
        assert_eq!(back.leaves(), t.leaves());
    }
}

#[test]
fn constant_children_roll_up_into_a_constant_node() {
    let c = Ctx::sha256(9, 6, 3);
    let empty = make_branch((0..9).map(|_| Node::Empty).collect(), 1, &c);
    assert!(matches!(empty, Node::Empty));
    let full = make_branch((0..9).map(|_| Node::Full).collect(), 2, &c);
    assert!(matches!(full, Node::Full));
    let mixed = make_branch((0..9).map(|k| if k == 4 { Node::Full } else { Node::Empty }).collect(), 1, &c);
    match mixed {
        Node::Branch(b) => {
            assert_eq!(b.children.len(), 9);
            assert!(matches!(b.children[4], Node::Full) && matches!(b.children[0], Node::Empty));
        }
        _ => panic!("a mixed node stays a branch"),
    }
}

#[test]
fn a_branch_of_no_children_is_empty() {
    let c = Ctx::sha256(0, 1, 2);
    assert!(matches!(make_branch(Vec::new(), 1, &c), Node::Empty));
    assert_eq!(burin_core::tree::node_hash(&Node::Empty, 1, &c), c.ladders.empty(1));
}
