//! The coverage index: queries by set algebra and attention counts.

use burin_core::hash::Ctx;
use burin_core::hierarchy::{space, suid_to_cid, Cid};
use burin_core::index::{Index, KeyHit, Relation};
use burin_core::tree::Tree;
use std::sync::Arc;

fn t(cells: &[&str], ctx: &Arc<Ctx>) -> Tree {
    let cids: Vec<Cid> = cells.iter().map(|s| suid_to_cid(s).unwrap()).collect();
    Tree::from_cells(space(), 4, &cids, ctx.clone()).unwrap()
}

fn fraction_of_query(h: &KeyHit) -> f64 {
    if h.query_cells > 0 { h.shared_cells as f64 / h.query_cells as f64 } else { 0.0 }
}

fn fraction_of_item(h: &KeyHit) -> f64 {
    if h.item_cells > 0 { h.shared_cells as f64 / h.item_cells as f64 } else { 0.0 }
}

fn count_at(at: &[(Cid, u64)], c: Cid) -> u64 {
    at.iter().find(|e| e.0 == c).map(|e| e.1).unwrap_or(0)
}

#[test]
fn query_fractions_and_relations() {
    let ctx = Arc::new(Ctx::sha256(9, 6, 4));
    let mut ix = Index::new();
    ix.add("a-whole-Q4", &t(&["Q4"], &ctx)).unwrap();
    ix.add("b-Q45-and-Q47", &t(&["Q45", "Q47"], &ctx)).unwrap();
    ix.add("c-same-as-b", &t(&["Q47", "Q45"], &ctx)).unwrap();
    ix.add("d-elsewhere", &t(&["R1"], &ctx)).unwrap();
    assert_eq!(ix.len(), 4);
    assert_eq!(ix.distinct_roots(), 3, "b and c share a root and a tree");
    let q = t(&["Q45"], &ctx);
    let hits = ix.query(&q).unwrap();
    let keys: Vec<&str> = hits.iter().map(|h| h.key.as_str()).collect();
    assert_eq!(keys, vec!["a-whole-Q4", "b-Q45-and-Q47", "c-same-as-b"]);
    let a = &hits[0];
    assert_eq!(a.relation, Relation::Contains);
    assert_eq!(fraction_of_query(a), 1.0);
    assert!((fraction_of_item(a) - 1.0 / 9.0).abs() < 1e-12);
    let b = &hits[1];
    assert_eq!(b.relation, Relation::Contains);
    assert_eq!(fraction_of_item(b), 0.5);
    let q2 = t(&["Q4", "Q5"], &ctx);
    let hits = ix.query(&q2).unwrap();
    assert_eq!(hits[0].key, "a-whole-Q4");
    assert_eq!(hits[0].relation, Relation::Within);
    assert_eq!(fraction_of_query(&hits[0]), 0.5);
    assert_eq!(ix.query(&t(&["S0"], &ctx)).unwrap().len(), 0);
    assert_eq!(ix.query(&t(&["Q4"], &ctx)).unwrap()[0].relation, Relation::Equal);
}

#[test]
fn attention_counts_touched_cells() {
    let ctx = Arc::new(Ctx::sha256(9, 6, 4));
    let mut ix = Index::new();
    ix.add("x", &t(&["Q45"], &ctx)).unwrap();
    ix.add("y", &t(&["Q451", "Q47"], &ctx)).unwrap();
    ix.add("z", &t(&["R"], &ctx)).unwrap();
    let at = ix.attention(2).unwrap();
    assert_eq!(count_at(&at, suid_to_cid("Q45").unwrap()), 2, "x fully, y partially");
    assert_eq!(count_at(&at, suid_to_cid("Q47").unwrap()), 1);
    assert_eq!(count_at(&at, suid_to_cid("R00").unwrap()), 1, "a full base expands to every level-2 cell");
    assert_eq!(at.iter().filter(|e| e.1 == 1).count(), 81 + 1);
    assert!(ix.attention(5).is_err());
}

#[test]
fn keys_are_replaced_listed_in_order_and_looked_up() {
    let ctx = Arc::new(Ctx::sha256(9, 6, 4));
    let mut ix = Index::new();
    assert!(ix.is_empty());
    let q4 = t(&["Q4"], &ctx);
    let r1 = t(&["R1"], &ctx);
    ix.add("m", &q4).unwrap();
    ix.add("b", &r1).unwrap();
    ix.add("é", &q4).unwrap();
    ix.add("m", &r1).unwrap();
    assert_eq!(ix.len(), 3);
    assert_eq!(ix.distinct_roots(), 2);
    assert_eq!(ix.root_of("m"), Some(r1.root()));
    assert_eq!(ix.root_of("é"), Some(q4.root()));
    assert_eq!(ix.root_of("zz"), None);
    let roots = ix.roots();
    let keys: Vec<&str> = roots.iter().map(|(k, _)| k.as_str()).collect();
    assert_eq!(keys, vec!["b", "m", "é"]);
    assert_eq!(roots[0].1, r1.root_hex());
    let other = Tree::from_cells(space(), 3, &[suid_to_cid("Q4").unwrap()], Arc::new(Ctx::sha256(9, 6, 3))).unwrap();
    assert!(ix.add("n", &other).is_err(), "every tree shares the depth");
    assert_eq!(ix.len(), 3);
    assert!(ix.query(&other).is_err());
}

#[test]
fn attention_is_ascending_and_counts_keys_not_trees() {
    let ctx = Arc::new(Ctx::sha256(9, 6, 4));
    let mut ix = Index::new();
    let q45 = t(&["Q45"], &ctx);
    ix.add("p", &q45).unwrap();
    ix.add("q", &q45).unwrap();
    let at = ix.attention(1).unwrap();
    assert_eq!(at, vec![(suid_to_cid("Q4").unwrap(), 2)]);
    let at3 = ix.attention(3).unwrap();
    assert_eq!(at3.len(), 9);
    assert!(at3.windows(2).all(|w| w[0].0 < w[1].0));
    assert!(Index::new().attention(9).unwrap().is_empty());
}

fn hit(key: &str, shared: u64) -> KeyHit {
    KeyHit { key: key.to_string(), root: [0u8; 32], relation: Relation::Overlaps, shared_cells: shared, item_cells: 9, query_cells: 9 }
}

#[test]
fn answers_rank_by_shared_leaves_then_key() {
    let ranked = burin_core::index::rank(vec![hit("b", 2), hit("c", 3), hit("a", 2), hit("d", 9)]);
    let keys: Vec<&str> = ranked.iter().map(|h| h.key.as_str()).collect();
    assert_eq!(keys, vec!["d", "c", "a", "b"]);
    assert!(burin_core::index::rank(Vec::new()).is_empty());
}
