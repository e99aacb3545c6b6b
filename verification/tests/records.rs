//! Wire shapes, opening records, hashes and profiles.

use burin_core::hash::{hex, unhex, Ctx};
use burin_core::hierarchy::{cid_to_suid, path_to_suid, space, suid_to_cid, suid_to_path, Cid, Hierarchy};
use burin_core::opening::{open_path, valid_shape, wire_shape, OpeningRecord};
use burin_core::profile::{burin_1, isqrt, ogc_rhealpix, Profile};
use burin_core::setops::{contains, disjoint, divergence, intersects, merge, prove, Op};
use burin_core::tree::Tree;
use sha2::Digest;
use std::sync::Arc;

fn tree(d: u32, cells: &[&str]) -> Tree {
    let ctx = Arc::new(Profile::ogc().ctx(d).unwrap());
    let cids: Vec<Cid> = cells.iter().map(|s| suid_to_cid(s).unwrap()).collect();
    Tree::from_cells(space(), d, &cids, ctx).unwrap()
}

#[test]
fn record_sizes_are_read_exactly_or_refused() {
    let t = tree(2, &["Q4"]);
    let rec = OpeningRecord::new(&t, open_path(&t, suid_to_cid("Q41").unwrap()).unwrap().unwrap());
    let (a, b, d) = (rec.a as u64, rec.b as u64, rec.d as u64);
    assert_eq!(wire_shape(Some(a), Some(b), Some(d)).unwrap(), (9, 6, 2));
    // a number past u32 is not read as its low bits: each field has one spelling
    assert!(wire_shape(Some(a + (1 << 32)), Some(b), Some(d)).is_err(), "A + 2^32");
    assert!(wire_shape(Some(a), Some(b + (1 << 32)), Some(d)).is_err(), "B + 2^32");
    assert!(wire_shape(Some(a), Some(b), Some(d + (1 << 32))).is_err(), "D + 2^32");
    // a hierarchy the verifier could not build a ladder for is refused before any hashing
    for a in [0u64, 1, 4097, u32::MAX as u64] {
        assert!(wire_shape(Some(a), Some(b), Some(d)).is_err(), "A = {a}");
    }
    assert!(wire_shape(Some(a), Some(b), Some(space().max_level() as u64 + 1)).is_err());
    assert!(wire_shape(None, Some(b), Some(d)).is_err());
    assert!(Hierarchy::new(4096, 4096 * 4095).is_ok_and(|h| h.max_level() >= 1));
    // a record built by hand with a degenerate hierarchy answers rather than looping
    let mut r = OpeningRecord::new(&t, open_path(&t, suid_to_cid("Q41").unwrap()).unwrap().unwrap());
    assert!(r.verify());
    for a in [0, 1] {
        r.a = a;
        assert!(!r.verify());
        assert_eq!(r.cid(), None);
    }
}

#[test]
fn a_record_checks_its_own_parameters() {
    let t = tree(2, &["Q4"]);
    let op = open_path(&t, suid_to_cid("Q40").unwrap()).unwrap().unwrap();
    let mut r = OpeningRecord::new(&t, op);
    assert_eq!(r.cid(), Some(suid_to_cid("Q40").unwrap()));
    assert!(r.verify());
    r.hash = "sha3".to_string();
    assert!(!r.verify(), "an unknown hash");
    r.hash = "sha256".to_string();
    r.root[5] ^= 0x80;
    assert!(!r.verify(), "another root");
    r.root[5] ^= 0x80;
    r.d = 3;
    assert!(!r.verify(), "another depth");
    assert!(valid_shape(9, 6, 18) && !valid_shape(9, 6, 19) && !valid_shape(9, 73, 2));
}

#[test]
fn digests_have_one_spelling() {
    let t = tree(1, &["N"]);
    let root = t.root();
    let s = hex(&root);
    assert_eq!(s.len(), 64);
    assert_eq!(s, t.root_hex());
    assert!(s.chars().all(|c| c.is_ascii_digit() || ('a'..='f').contains(&c)));
    assert_eq!(unhex(&s), Some(root));
    assert_eq!(unhex(&s.to_uppercase()), if s.chars().any(|c| c.is_ascii_alphabetic()) { None } else { Some(root) });
    assert_eq!(unhex(&s[1..]), None);
    assert_eq!(unhex(&format!("{s}0")), None);
    assert_eq!(hex(&[0u8; 32]), "0".repeat(64));
}

#[test]
fn suids_are_the_paths_spelled_with_letters() {
    assert_eq!(suid_to_path("Q453").unwrap(), vec![3, 4, 5, 3]);
    assert_eq!(path_to_suid(&[0, 8, 0]), "N80");
    assert!(suid_to_path("").is_err());
    assert_eq!(suid_to_path("Q9").unwrap(), vec![3, 9]);
    assert!(suid_to_cid("Q9").is_err(), "a digit beyond the aperture");
    assert!(suid_to_path("q4").is_err());
    for s in ["N", "O1", "P22", "R876", "S0000"] {
        let c = suid_to_cid(s).unwrap();
        assert_eq!(cid_to_suid(c).unwrap(), s);
        assert_eq!(space().path(c).unwrap(), suid_to_path(s).unwrap());
    }
    assert!(cid_to_suid(3).is_err());
}

#[test]
fn profiles_are_validated_and_identified() {
    let ogc = Profile::ogc();
    assert!(ogc.validate().is_ok());
    assert!(ogc_rhealpix().validate().is_err(), "the constants carry no hash");
    assert_eq!(ogc_rhealpix().with_hash("sha256"), ogc);
    assert_eq!(Profile::default(), ogc);
    assert_eq!(burin_1().with_hash("sha256"), Profile::burin_1());
    assert_eq!(ogc.n_side(), 3);
    assert_eq!(ogc.hierarchy(), space());
    assert_ne!(ogc.id(), Profile::burin_1().id());
    assert_eq!(ogc.id(), ogc.clone().id());
    assert_eq!(ogc.id_hex(), hex(&ogc.id()));
    assert!(ogc.id_preimage().starts_with(b"BURIN-PROFILE-1"));
    assert!(Profile { hash: "md5".to_string(), ..Profile::ogc() }.validate().is_err());
    assert!(Profile { north_square: 4, ..Profile::ogc() }.validate().is_err());
    assert!(Profile { aperture: 8, ..Profile::ogc() }.validate().is_err(), "no square side");
    assert!(Profile { lon_0_udeg: 180_000_001, ..Profile::ogc() }.validate().is_err());
    assert!(Profile { tick_us: 0, ..Profile::ogc() }.validate().is_err());
    assert!(Profile { a_um: 0, ..Profile::ogc() }.validate().is_err());
    assert_eq!((isqrt(0), isqrt(8), isqrt(9), isqrt(u32::MAX)), (0, 2, 3, 65535));
    let ctx: Ctx = ogc.ctx(3).unwrap();
    assert_eq!((ctx.a, ctx.b, ctx.ladders.depth()), (9, 6, 3));
}

#[test]
fn set_relations_follow_the_leaves() {
    let a = tree(2, &["Q4"]);
    let b = tree(2, &["Q45", "Q46"]);
    let c = tree(2, &["R"]);
    assert!(intersects(&a, &b).unwrap() && !intersects(&a, &c).unwrap());
    assert!(disjoint(&b, &c).unwrap() && !disjoint(&a, &b).unwrap());
    assert!(contains(&a, &b).unwrap() && !contains(&b, &a).unwrap());
    let all = merge(&[a.clone(), b.clone(), c.clone()]).unwrap();
    assert_eq!(all.root(), tree(2, &["Q4", "R"]).root());
    assert_eq!(merge(&[]).map(|t| t.root()).ok(), None);
    let div = divergence(&a, &b).unwrap();
    assert!(!div.is_empty());
    assert!(divergence(&a, &a).unwrap().is_empty());
    assert_eq!(Op::parse("union"), Some(Op::Union));
    assert_eq!(Op::parse(Op::Difference.name()), Some(Op::Difference));
    assert_eq!(Op::parse("xor"), None);
    let p = prove(&a, &c, Op::Union).unwrap();
    assert!(p.verify() && p.size() >= 1);
    assert!(prove(&a, &tree(3, &["Q4"]), Op::Union).is_err());
}

#[test]
fn a_profile_id_is_the_sha256_of_its_preimage() {
    for p in [Profile::ogc(), Profile::burin_1(), Profile { tick_us: 7, ..Profile::ogc() }] {
        let pre = p.id_preimage();
        let want: [u8; 32] = sha2::Sha256::digest(&pre).into();
        assert_eq!(p.id(), want);
        assert_ne!(&p.id()[..], &pre[..32]);
        // the preimage: tag, hash id, then the parameters big-endian
        assert_eq!(pre.len(), 15 + 1 + 6 + 4 + 4 + 8 + 1 + 1 + 8 + 8 + 8 + 8);
        assert_eq!(&pre[15..22], b"\x06sha256");
        assert_eq!(&pre[22..26], &p.aperture.to_be_bytes());
        assert_eq!(&pre[pre.len() - 8..], &p.epoch_us.to_be_bytes());
    }
}

#[test]
fn divergences_lie_over_every_leaf_where_the_trees_differ() {
    let h = space();
    let a = tree(2, &["Q4", "R1"]);
    let b = tree(2, &["Q45", "Q46", "R1", "S0"]);
    let div = divergence(&a, &b).unwrap();
    let (la, lb): (Vec<Cid>, Vec<Cid>) = (a.leaves(), b.leaves());
    let differ: Vec<Cid> = la.iter().filter(|x| !lb.contains(x)).chain(lb.iter().filter(|x| !la.contains(x))).copied().collect();
    assert!(!differ.is_empty());
    for x in &differ {
        assert!(div.iter().any(|d| d.cid == *x || h.is_ancestor(d.cid, *x)), "leaf {x} lies under a divergence");
    }
    for d in &div {
        assert_ne!(d.hash_a, d.hash_b);
    }
    for (i, d1) in div.iter().enumerate() {
        for (j, d2) in div.iter().enumerate() {
            if i != j {
                assert!(!h.is_ancestor(d1.cid, d2.cid), "no divergence lies over another");
            }
        }
    }
    assert_eq!(div.is_empty(), a.root() == b.root());
    assert!(divergence(&b, &b).unwrap().is_empty());
}

#[test]
fn a_degenerate_hierarchy_still_reads_a_path() {
    let t = tree(2, &["Q4"]);
    let mut r = OpeningRecord::new(&t, open_path(&t, suid_to_cid("N").unwrap()).unwrap().unwrap());
    assert_eq!(r.cid(), Some(suid_to_cid("N").unwrap()));
    r.a = 1;
    r.b = 1;
    assert_eq!(r.cid(), Some(1), "base 0 under A = 1 is the cid 1");
    r.b = 0;
    assert_eq!(r.cid(), None, "no base is below B = 0");
    assert_eq!(Hierarchy { a: 1, b: 1 }.cid(&[0, 0, 0]).ok(), Some(1));
    assert!(Hierarchy { a: 1, b: 1 }.cid(&[0, 1]).is_err());
    assert_eq!(Hierarchy { a: 0, b: 3 }.cid(&[2]).ok(), Some(2));
    assert!(Hierarchy { a: 0, b: 3 }.cid(&[2, 0]).is_err());
    assert_eq!(Hierarchy { a: 1, b: 1 }.max_level(), u32::MAX);
    assert_eq!(Hierarchy { a: 0, b: 1 }.max_level(), u32::MAX);
}
