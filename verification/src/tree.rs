//! The coverage tree: an immutable, canonical, sparse hierarchy tree.
//!
//! ```text
//! Empty          no leaf under this node is covered
//! Full           every leaf under this node is covered
//! Branch         A children, not all the same constant; hash stored on the node
//! ```
//! The structure is always in its coarsest form and never mutated: every operation returns a
//! new tree sharing untouched subtrees. The root is a function of the covered leaf set alone,
//! whatever order or tiling built it (the roll-up).

use vstd::prelude::*;
use vstd::arithmetic::power::*;
use vstd::arithmetic::div_mod::*;
use vstd::arithmetic::mul::*;
use std::sync::Arc;
use crate::arith::{lemma_div_in_block, lemma_pow_pos, lemma_pow_succ};
use crate::error::{invalid, Error, Result};
use crate::hash::{digest_eq, hex, ladder, lemma_concat_inj, lemma_tagged_inj, rungs_are_digests, sha256_collision, spec_hex, spec_node, spec_root, views, Ctx, Digest, Hasher};
use crate::hierarchy::{cid_space, digits_val, lemma_digits_val_bound, lemma_digits_val_front, upow, Cid, Hierarchy};

verus! {

/// A partial node: its children and the hash over them.
#[derive(Debug)]
pub struct Branch {
    pub children: Vec<Node>,
    pub hash: Digest,
}

#[derive(Debug)]
pub enum Node {
    Empty,
    Full,
    Branch(Arc<Branch>),
}

/// The `k`-th child: a constant's children are itself.
pub open spec fn spec_child(node: Node, k: int) -> Node {
    match node {
        Node::Branch(b) => b.children@[k],
        _ => node,
    }
}

/// The hash of a node `d` levels above the leaves, for aperture `a`.
pub open spec fn nh(node: Node, a: nat, d: nat) -> Seq<u8> {
    match node {
        Node::Empty => ladder(false, a, d),
        Node::Full => ladder(true, a, d),
        Node::Branch(b) => b.hash@,
    }
}

/// The hashes of the children of a node `d` levels above the leaves.
pub open spec fn child_hashes(children: Seq<Node>, a: nat, d: nat) -> Seq<Seq<u8>> {
    Seq::new(a, |k: int| nh(children[k], a, (d - 1) as nat))
}

/// Canonical form: a branch has `a` canonical children, not all empty and not all full, and
/// carries the node hash over them.
pub open spec fn wf_node(node: Node, a: nat, d: nat) -> bool
    decreases node,
{
    match node {
        Node::Branch(b) => {
            &&& d >= 1
            &&& b.children@.len() == a
            &&& exists|k: int| 0 <= k < a && !(b.children@[k] is Empty)
            &&& exists|k: int| 0 <= k < a && !(b.children@[k] is Full)
            &&& forall|k: int| 0 <= k < a ==> wf_node(#[trigger] b.children@[k], a, (d - 1) as nat)
            &&& b.hash@ == spec_node(child_hashes(b.children@, a, d))
        },
        _ => true,
    }
}

/// Whether the `i`-th leaf under a node `d` levels above the leaves is covered.
pub open spec fn covers(node: Node, a: nat, d: nat, i: int) -> bool
    decreases node,
{
    match node {
        Node::Empty => false,
        Node::Full => true,
        Node::Branch(b) => {
            let s = pow(a as int, (d - 1) as nat);
            if d >= 1 && s > 0 && 0 <= i / s < b.children@.len() {
                covers(b.children@[i / s], a, (d - 1) as nat, i % s)
            } else {
                false
            }
        },
    }
}


/// Leaf `k * s + j` of a node lies under child `k` at position `j`, `s = a^(d-1)`.
pub proof fn lemma_child_index(a: nat, d: nat, k: int, j: int)
    requires
        a >= 1,
        d >= 1,
        0 <= k < a,
        0 <= j < pow(a as int, (d - 1) as nat),
    ensures
        pow(a as int, (d - 1) as nat) > 0,
        (k * pow(a as int, (d - 1) as nat) + j) / pow(a as int, (d - 1) as nat) == k,
        (k * pow(a as int, (d - 1) as nat) + j) % pow(a as int, (d - 1) as nat) == j,
        0 <= k * pow(a as int, (d - 1) as nat) + j < pow(a as int, d),
{
    let s = pow(a as int, (d - 1) as nat);
    lemma_pow_pos(a as int, (d - 1) as nat);
    lemma_pow_succ(a as int, (d - 1) as nat);
    lemma_mul_is_distributive_add_other_way(s, k, 1);
    lemma_div_in_block(k * s + j, k, s);
    lemma_mul_inequality(k + 1, a as int, s);
    lemma_mul_is_commutative(a as int, s);
    lemma_mul_nonnegative(k, s);
}

/// Any leaf of a node lies under one of its `a` children.
pub proof fn lemma_leaf_child(a: nat, d: nat, i: int)
    requires
        a >= 1,
        d >= 1,
        0 <= i < pow(a as int, d),
    ensures
        pow(a as int, (d - 1) as nat) > 0,
        0 <= i / pow(a as int, (d - 1) as nat) < a,
        0 <= i % pow(a as int, (d - 1) as nat) < pow(a as int, (d - 1) as nat),
        i == (i / pow(a as int, (d - 1) as nat)) * pow(a as int, (d - 1) as nat) + i % pow(a as int, (d - 1) as nat),
{
    let s = pow(a as int, (d - 1) as nat);
    lemma_pow_pos(a as int, (d - 1) as nat);
    lemma_pow_succ(a as int, (d - 1) as nat);
    lemma_mul_is_commutative(a as int, s);
    lemma_div_pos_is_pos(i, s);
    lemma_multiply_divide_lt(i, s, a as int);
    lemma_mod_bound(i, s);
    lemma_fundamental_div_mod(i, s);
    lemma_mul_is_commutative(s, i / s);
}

/// A canonical node that is not `Empty` covers some leaf.
pub proof fn lemma_nonempty(node: Node, a: nat, d: nat)
    requires
        a >= 1,
        wf_node(node, a, d),
        !(node is Empty),
    ensures
        exists|i: int| 0 <= i < pow(a as int, d) && #[trigger] covers(node, a, d, i),
    decreases node,
{
    lemma_pow_pos(a as int, d);
    match node {
        Node::Full => {
            assert(covers(node, a, d, 0));
        },
        Node::Branch(b) => {
            let k = choose|k: int| 0 <= k < a && !(b.children@[k] is Empty);
            let c = b.children@[k];
            lemma_nonempty(c, a, (d - 1) as nat);
            let j = choose|j: int| 0 <= j < pow(a as int, (d - 1) as nat) && #[trigger] covers(c, a, (d - 1) as nat, j);
            lemma_child_index(a, d, k, j);
            let s = pow(a as int, (d - 1) as nat);
            assert(covers(node, a, d, k * s + j));
        },
        Node::Empty => {},
    }
}

/// A canonical node that is not `Full` leaves some leaf uncovered.
pub proof fn lemma_nonfull(node: Node, a: nat, d: nat)
    requires
        a >= 1,
        wf_node(node, a, d),
        !(node is Full),
    ensures
        exists|i: int| 0 <= i < pow(a as int, d) && !#[trigger] covers(node, a, d, i),
    decreases node,
{
    lemma_pow_pos(a as int, d);
    match node {
        Node::Empty => {
            assert(!covers(node, a, d, 0));
        },
        Node::Branch(b) => {
            let k = choose|k: int| 0 <= k < a && !(b.children@[k] is Full);
            let c = b.children@[k];
            lemma_nonfull(c, a, (d - 1) as nat);
            let j = choose|j: int| 0 <= j < pow(a as int, (d - 1) as nat) && !#[trigger] covers(c, a, (d - 1) as nat, j);
            lemma_child_index(a, d, k, j);
            let s = pow(a as int, (d - 1) as nat);
            assert(!covers(node, a, d, k * s + j));
        },
        Node::Full => {},
    }
}

/// Two canonical nodes covering the same leaves have the same hash: the canonical form, and so
/// the hash, is a function of the covered leaf set.
pub proof fn lemma_unique(n1: Node, n2: Node, a: nat, d: nat)
    requires
        a >= 1,
        wf_node(n1, a, d),
        wf_node(n2, a, d),
        forall|i: int| 0 <= i < pow(a as int, d) ==> #[trigger] covers(n1, a, d, i) == covers(n2, a, d, i),
    ensures
        nh(n1, a, d) == nh(n2, a, d),
        n1 is Empty <==> n2 is Empty,
        n1 is Full <==> n2 is Full,
    decreases n1,
{
    if n1 is Empty || n2 is Empty || n1 is Full || n2 is Full {
        if !(n1 is Empty) {
            lemma_nonempty(n1, a, d);
            let i = choose|i: int| 0 <= i < pow(a as int, d) && #[trigger] covers(n1, a, d, i);
            assert(covers(n2, a, d, i));
        }
        if !(n2 is Empty) {
            lemma_nonempty(n2, a, d);
            let i = choose|i: int| 0 <= i < pow(a as int, d) && #[trigger] covers(n2, a, d, i);
            assert(covers(n1, a, d, i));
        }
        if !(n1 is Full) {
            lemma_nonfull(n1, a, d);
            let i = choose|i: int| 0 <= i < pow(a as int, d) && !#[trigger] covers(n1, a, d, i);
            assert(!covers(n2, a, d, i));
        }
        if !(n2 is Full) {
            lemma_nonfull(n2, a, d);
            let i = choose|i: int| 0 <= i < pow(a as int, d) && !#[trigger] covers(n2, a, d, i);
            assert(!covers(n1, a, d, i));
        }
    } else {
        let b1 = n1->Branch_0;
        let b2 = n2->Branch_0;
        let s = pow(a as int, (d - 1) as nat);
        assert forall|k: int| 0 <= k < a implies nh(b1.children@[k], a, (d - 1) as nat) == nh(b2.children@[k], a, (d - 1) as nat) by {
            let c1 = b1.children@[k];
            let c2 = b2.children@[k];
            assert forall|j: int| 0 <= j < pow(a as int, (d - 1) as nat) implies #[trigger] covers(c1, a, (d - 1) as nat, j) == covers(c2, a, (d - 1) as nat, j) by {
                lemma_child_index(a, d, k, j);
                assert(covers(n1, a, d, k * s + j) == covers(n2, a, d, k * s + j));
            }
            lemma_unique(c1, c2, a, (d - 1) as nat);
        }
        assert(child_hashes(b1.children@, a, d) =~= child_hashes(b2.children@, a, d));
    }
}

/// The hashes of a node's `a` children, a constant's children being itself.
pub open spec fn kid_hashes(node: Node, a: nat, d: nat) -> Seq<Seq<u8>> {
    Seq::new(a, |k: int| nh(spec_child(node, k), a, (d - 1) as nat))
}

/// Above the leaves every node, constant or not, hashes as the node over its children.
pub proof fn lemma_node_hash_form(node: Node, a: nat, d: nat)
    requires
        d >= 1,
        wf_node(node, a, d),
    ensures
        nh(node, a, d) == spec_node(kid_hashes(node, a, d)),
        forall|k: int| 0 <= k < a ==> wf_node(#[trigger] spec_child(node, k), a, (d - 1) as nat),
{
    match node {
        Node::Branch(b) => {
            assert(kid_hashes(node, a, d) =~= child_hashes(b.children@, a, d));
        },
        Node::Empty => {
            assert(kid_hashes(node, a, d) =~= Seq::new(a, |_i: int| ladder(false, a, (d - 1) as nat)));
        },
        Node::Full => {
            assert(kid_hashes(node, a, d) =~= Seq::new(a, |_i: int| ladder(true, a, (d - 1) as nat)));
        },
    }
}

/// Leaf `i` of a node is leaf `i mod s` of child `i div s`, `s = a^(d-1)`, constants included.
pub proof fn lemma_cover_child(node: Node, a: nat, d: nat, i: int)
    requires
        a >= 1,
        d >= 1,
        wf_node(node, a, d),
        0 <= i < pow(a as int, d),
    ensures
        covers(node, a, d, i) == covers(spec_child(node, i / pow(a as int, (d - 1) as nat)), a, (d - 1) as nat,
            i % pow(a as int, (d - 1) as nat)),
{
    lemma_leaf_child(a, d, i);
}

/// The hash of a canonical node is 32 bytes.
pub proof fn lemma_nh_len(node: Node, a: nat, d: nat)
    requires
        wf_node(node, a, d),
        rungs_are_digests(a, d),
    ensures
        nh(node, a, d).len() == 32,
{
}

/// Without a SHA-256 collision, two canonical nodes with one hash cover the same leaves.
pub proof fn lemma_hash_determines_cover(n1: Node, n2: Node, a: nat, d: nat)
    requires
        !sha256_collision(),
        a >= 1,
        wf_node(n1, a, d),
        wf_node(n2, a, d),
        rungs_are_digests(a, d),
        nh(n1, a, d) == nh(n2, a, d),
    ensures
        forall|i: int| 0 <= i < pow(a as int, d) ==> #[trigger] covers(n1, a, d, i) == covers(n2, a, d, i),
    decreases d,
{
    if d == 0 {
        if n1 is Empty && n2 is Full || n1 is Full && n2 is Empty {
            lemma_tagged_inj(0u8, Seq::empty(), 1u8, Seq::empty());
        }
    } else {
        lemma_node_hash_form(n1, a, d);
        lemma_node_hash_form(n2, a, d);
        let (k1, k2) = (kid_hashes(n1, a, d), kid_hashes(n2, a, d));
        lemma_tagged_inj(2u8, k1, 2u8, k2);
        assert(rungs_are_digests(a, (d - 1) as nat));
        assert forall|k: int| 0 <= k < a implies (#[trigger] k1[k]).len() == 32 by {
            lemma_nh_len(spec_child(n1, k), a, (d - 1) as nat);
        }
        assert forall|k: int| 0 <= k < a implies (#[trigger] k2[k]).len() == 32 by {
            lemma_nh_len(spec_child(n2, k), a, (d - 1) as nat);
        }
        lemma_concat_inj(k1, k2);
        assert forall|i: int| 0 <= i < pow(a as int, d) implies #[trigger] covers(n1, a, d, i) == covers(n2, a, d, i) by {
            let s = pow(a as int, (d - 1) as nat);
            lemma_leaf_child(a, d, i);
            let k = i / s;
            assert(k1[k] == k2[k]);
            lemma_hash_determines_cover(spec_child(n1, k), spec_child(n2, k), a, (d - 1) as nat);
            lemma_cover_child(n1, a, d, i);
            lemma_cover_child(n2, a, d, i);
        }
    }
}

/// The leaf `i` under a node `d` levels above the leaves lies in the sub-block the digits name.
pub open spec fn in_block(ds: Seq<u32>, a: nat, d: nat, i: int) -> bool
    decreases ds.len(),
{
    if ds.len() == 0 {
        true
    } else {
        let s = pow(a as int, (d - 1) as nat);
        i / s == ds[0] && in_block(ds.drop_first(), a, (d - 1) as nat, i % s)
    }
}

/// The sub-block the digits name is the block of leaves whose index, cut to the digits' level,
/// is the digits' value.
pub proof fn lemma_in_block_val(ds: Seq<u32>, a: nat, d: nat, i: int)
    requires
        a >= 2,
        ds.len() <= d,
        forall|j: int| 0 <= j < ds.len() ==> #[trigger] ds[j] < a,
        0 <= i < pow(a as int, d),
    ensures
        in_block(ds, a, d, i) <==> i / pow(a as int, (d - ds.len()) as nat) == digits_val(ds, a),
    decreases ds.len(),
{
    if ds.len() == 0 {
        lemma_pow_pos(a as int, d);
        lemma_div_in_block(i, 0, pow(a as int, d));
    } else {
        let s = pow(a as int, (d - 1) as nat);
        lemma_leaf_child(a, d, i);
        let k = i / s;
        let j = i % s;
        let rest = ds.drop_first();
        lemma_in_block_val(rest, a, (d - 1) as nat, j);
        let w = pow(a as int, (d - ds.len()) as nat);
        let p = pow(a as int, (ds.len() - 1) as nat);
        lemma_pow_pos(a as int, (d - ds.len()) as nat);
        lemma_pow_pos(a as int, (ds.len() - 1) as nat);
        lemma_pow_adds(a as int, (ds.len() - 1) as nat, (d - ds.len()) as nat);
        assert(s == p * w);
        lemma_digits_val_front(ds, a);
        lemma_digits_val_bound(rest, a);
        // i / w = k p + j / w with j / w < p
        lemma_fundamental_div_mod(j, w);
        lemma_mod_bound(j, w);
        lemma_div_pos_is_pos(j, w);
        lemma_multiply_divide_lt(j, w, p);
        lemma_mul_is_commutative(w, p);
        let q = j / w;
        let m = j % w;
        assert(i == (k * p + q) * w + m) by (nonlinear_arith)
            requires
                i == k * s + j,
                s == p * w,
                j == w * q + m,
        ;
        assert((k * p + q) * w <= i < (k * p + q + 1) * w) by (nonlinear_arith)
            requires
                i == (k * p + q) * w + m,
                0 <= m < w,
        ;
        lemma_div_in_block(i, k * p + q, w);
        let v = digits_val(rest, a);
        if i / w == digits_val(ds, a) {
            assert(k * p <= ds[0] * p + v < (k + 1) * p) by (nonlinear_arith)
                requires
                    ds[0] * p + v == k * p + q,
                    0 <= q < p,
            ;
            assert(ds[0] * p <= ds[0] * p + v < (ds[0] + 1) * p) by (nonlinear_arith)
                requires
                    0 <= v < p,
            ;
            lemma_div_in_block(ds[0] * p + v, k, p);
            lemma_div_in_block(ds[0] * p + v, ds[0] as int, p);
        }
    }
}

/// Walk down the digits from a node: the node reached, the number of levels descended, and
/// whether every digit was followed (`false` when a constant node was reached first).
pub open spec fn descend(node: Node, ds: Seq<u32>) -> (Node, nat, bool)
    decreases ds.len(),
{
    if ds.len() == 0 {
        (node, 0, true)
    } else {
        match node {
            Node::Branch(b) => {
                let r = descend(b.children@[ds[0] as int], ds.drop_first());
                (r.0, r.1 + 1, r.2)
            },
            _ => (node, 0, false),
        }
    }
}

/// A leaf in the sub-block of the digits is covered as it is under the node the walk reaches.
pub proof fn lemma_descend_covers(node: Node, ds: Seq<u32>, a: nat, d: nat, i: int)
    requires
        a >= 2,
        wf_node(node, a, d),
        ds.len() <= d,
        forall|j: int| 0 <= j < ds.len() ==> #[trigger] ds[j] < a,
        0 <= i < pow(a as int, d),
        in_block(ds, a, d, i),
    ensures
        descend(node, ds).1 <= ds.len(),
        wf_node(descend(node, ds).0, a, (d - descend(node, ds).1) as nat),
        descend(node, ds).2 ==> descend(node, ds).1 == ds.len(),
        !descend(node, ds).2 ==> !(descend(node, ds).0 is Branch),
        covers(node, a, d, i) == covers(descend(node, ds).0, a, (d - descend(node, ds).1) as nat,
            i % pow(a as int, (d - descend(node, ds).1) as nat)),
    decreases ds.len(),
{
    lemma_pow_pos(a as int, d);
    lemma_small_mod(i as nat, pow(a as int, d) as nat);
    if ds.len() > 0 {
        if let Node::Branch(b) = node {
            let s = pow(a as int, (d - 1) as nat);
            lemma_leaf_child(a, d, i);
            let k = ds[0] as int;
            let j = i % s;
            let child = b.children@[k];
            lemma_descend_covers(child, ds.drop_first(), a, (d - 1) as nat, j);
            let c = descend(child, ds.drop_first()).1;
            let m = (d - 1 - c) as nat;
            lemma_pow_pos(a as int, m);
            lemma_pow_pos(a as int, c);
            lemma_pow_adds(a as int, m, c);
            lemma_mod_mod(i, pow(a as int, m), pow(a as int, c));
        }
    }
}

/// The node the digits lead to, a constant standing for each of its children.
pub open spec fn walk(node: Node, ds: Seq<u32>) -> Node
    decreases ds.len(),
{
    if ds.len() == 0 {
        node
    } else {
        walk(spec_child(node, ds[0] as int), ds.drop_first())
    }
}

/// A leaf in the sub-block of the digits is covered as it is under the node the digits lead to.
pub proof fn lemma_walk_covers(node: Node, ds: Seq<u32>, a: nat, d: nat, i: int)
    requires
        a >= 2,
        wf_node(node, a, d),
        ds.len() <= d,
        forall|j: int| 0 <= j < ds.len() ==> #[trigger] ds[j] < a,
        0 <= i < pow(a as int, d),
        in_block(ds, a, d, i),
    ensures
        wf_node(walk(node, ds), a, (d - ds.len()) as nat),
        covers(node, a, d, i) == covers(walk(node, ds), a, (d - ds.len()) as nat, i % pow(a as int, (d - ds.len()) as nat)),
    decreases ds.len(),
{
    lemma_pow_pos(a as int, d);
    if ds.len() == 0 {
        lemma_small_mod(i as nat, pow(a as int, d) as nat);
    } else {
        let s = pow(a as int, (d - 1) as nat);
        lemma_leaf_child(a, d, i);
        lemma_node_hash_form(node, a, d);
        lemma_cover_child(node, a, d, i);
        let rest = ds.drop_first();
        lemma_walk_covers(spec_child(node, ds[0] as int), rest, a, (d - 1) as nat, i % s);
        let m = (d - 1 - rest.len()) as nat;
        lemma_pow_pos(a as int, m);
        lemma_pow_pos(a as int, rest.len());
        lemma_pow_adds(a as int, m, rest.len());
        lemma_mod_mod(i, pow(a as int, m), pow(a as int, rest.len()));
    }
}

/// Walking one digit less: after a full walk, the node one level up is a branch; after a walk
/// that stopped at a constant, the same constant.
pub proof fn lemma_descend_drop_last(node: Node, ds: Seq<u32>)
    requires
        ds.len() >= 1,
    ensures
        descend(node, ds).2 ==> descend(node, ds.drop_last()).0 is Branch && descend(node, ds.drop_last()).2,
        !descend(node, ds).2 ==> descend(node, ds.drop_last()).0 == descend(node, ds).0,
    decreases ds.len(),
{
    reveal_with_fuel(descend, 2);
    if ds.len() > 1 {
        if let Node::Branch(b) = node {
            let rest = ds.drop_first();
            lemma_descend_drop_last(b.children@[ds[0] as int], rest);
            assert(ds.drop_last().drop_first() =~= rest.drop_last());
            assert(ds.drop_last()[0] == ds[0]);
        }
    } else {
        assert(ds.drop_last().len() == 0);
        assert(ds.drop_first().len() == 0);
    }
}

impl Node {
    pub fn is_branch(&self) -> (r: bool)
        ensures
            r == (*self is Branch),
    {
        match self {
            Node::Branch(_) => true,
            _ => false,
        }
    }

    /// The k-th child: a constant's children are itself.
    pub fn child(&self, k: usize) -> (r: Node)
        requires
            *self is Branch ==> k < self->Branch_0.children@.len(),
        ensures
            r == spec_child(*self, k as int),
    {
        match self {
            Node::Branch(b) => b.children[k].clone_node(),
            Node::Empty => Node::Empty,
            Node::Full => Node::Full,
        }
    }

    /// A copy sharing every subtree.
    pub fn clone_node(&self) -> (r: Node)
        ensures
            r == *self,
    {
        match self {
            Node::Branch(b) => Node::Branch(b.clone()),
            Node::Empty => Node::Empty,
            Node::Full => Node::Full,
        }
    }

    /// Whether two nodes are the same constant, or branches with the same hash.
    pub fn same(&self, other: &Node) -> (r: bool)
        ensures
            r == (match (*self, *other) {
                (Node::Empty, Node::Empty) => true,
                (Node::Full, Node::Full) => true,
                (Node::Branch(x), Node::Branch(y)) => x.hash@ == y.hash@,
                _ => false,
            }),
    {
        match (self, other) {
            (Node::Empty, Node::Empty) => true,
            (Node::Full, Node::Full) => true,
            (Node::Branch(x), Node::Branch(y)) => digest_eq(&x.hash, &y.hash),
            _ => false,
        }
    }
}

/// Hash of any node `d` levels above the leaves.
pub fn node_hash(node: &Node, d: u32, ctx: &Ctx) -> (r: Digest)
    requires
        ctx.wf(),
        d <= ctx.depth(),
    ensures
        r@ == nh(*node, ctx.a as nat, d as nat),
{
    match node {
        Node::Empty => ctx.ladders.empty(d),
        Node::Full => ctx.ladders.full(d),
        Node::Branch(b) => b.hash,
    }
}

/// The canonical node for these children at `d` levels above the leaves.
pub fn make_branch(children: Vec<Node>, d: u32, ctx: &Ctx) -> (r: Node)
    requires
        ctx.wf(),
        1 <= d <= ctx.depth(),
        children@.len() == ctx.a,
        forall|k: int| 0 <= k < ctx.a ==> wf_node(#[trigger] children@[k], ctx.a as nat, (d - 1) as nat),
    ensures
        wf_node(r, ctx.a as nat, d as nat),
        nh(r, ctx.a as nat, d as nat) == spec_node(child_hashes(children@, ctx.a as nat, d as nat)),
        forall|i: int| 0 <= i < pow(ctx.a as int, d as nat) ==> #[trigger] covers(r, ctx.a as nat, d as nat, i)
            == covers(children@[i / pow(ctx.a as int, (d - 1) as nat)], ctx.a as nat, (d - 1) as nat, i % pow(ctx.a as int, (d - 1) as nat)),
        (forall|k: int| 0 <= k < children@.len() ==> #[trigger] children@[k] is Empty) ==> r is Empty,
        children@.len() > 0 && (forall|k: int| 0 <= k < children@.len() ==> #[trigger] children@[k] is Full) ==> r is Full,
        !(forall|k: int| 0 <= k < children@.len() ==> #[trigger] children@[k] is Empty)
            && !(forall|k: int| 0 <= k < children@.len() ==> #[trigger] children@[k] is Full)
            ==> (r matches Node::Branch(b) && b.children@ == children@),
{
    let a = ctx.a as usize;
    let ghost s = pow(ctx.a as int, (d - 1) as nat);
    let mut all_empty = true;
    let mut all_full = true;
    let mut k: usize = 0;
    while k < a
        invariant
            a == children@.len(),
            k <= a,
            all_empty == forall|j: int| 0 <= j < k ==> #[trigger] children@[j] is Empty,
            all_full == forall|j: int| 0 <= j < k ==> #[trigger] children@[j] is Full,
        decreases a - k,
    {
        match &children[k] {
            Node::Empty => {
                all_full = false;
            },
            Node::Full => {
                all_empty = false;
            },
            Node::Branch(_) => {
                all_empty = false;
                all_full = false;
            },
        }
        k = k + 1;
    }
    if all_empty {
        proof {
            assert forall|i: int| 0 <= i < pow(ctx.a as int, d as nat) implies #[trigger] covers(Node::Empty, ctx.a as nat, d as nat, i)
                == covers(children@[i / s], ctx.a as nat, (d - 1) as nat, i % s) by {
                if ctx.a == 0 {
                    lemma0_pow(d as nat);
                } else {
                    lemma_leaf_child(ctx.a as nat, d as nat, i);
                }
            }
            assert(child_hashes(children@, ctx.a as nat, d as nat) =~= Seq::new(ctx.a as nat, |_i: int| ladder(false, ctx.a as nat, (d - 1) as nat)));
        }
        return Node::Empty;
    }
    if all_full {
        proof {
            assert forall|i: int| 0 <= i < pow(ctx.a as int, d as nat) implies #[trigger] covers(Node::Full, ctx.a as nat, d as nat, i)
                == covers(children@[i / s], ctx.a as nat, (d - 1) as nat, i % s) by {
                lemma_leaf_child(ctx.a as nat, d as nat, i);
            }
            assert(child_hashes(children@, ctx.a as nat, d as nat) =~= Seq::new(ctx.a as nat, |_i: int| ladder(true, ctx.a as nat, (d - 1) as nat)));
        }
        return Node::Full;
    }
    let mut hashes: Vec<Digest> = Vec::new();
    let mut k: usize = 0;
    while k < a
        invariant
            ctx.wf(),
            1 <= d <= ctx.depth(),
            a == ctx.a,
            a == children@.len(),
            k <= a,
            hashes@.len() == k,
            forall|j: int| 0 <= j < k ==> (#[trigger] hashes@[j])@ == nh(children@[j], ctx.a as nat, (d - 1) as nat),
        decreases a - k,
    {
        hashes.push(node_hash(&children[k], d - 1, ctx));
        k = k + 1;
    }
    let hash = ctx.hasher.node(hashes.as_slice());
    proof {
        assert(views(hashes@) =~= child_hashes(children@, ctx.a as nat, d as nat));
    }
    let r = Node::Branch(Arc::new(Branch { children, hash }));
    proof {
        assert forall|i: int| 0 <= i < pow(ctx.a as int, d as nat) implies #[trigger] covers(r, ctx.a as nat, d as nat, i)
            == covers(children@[i / s], ctx.a as nat, (d - 1) as nat, i % s) by {
            lemma_leaf_child(ctx.a as nat, d as nat, i);
        }
    }
    r
}


/// A coverage of the leaves `d` levels below the base cells of a hierarchy.
#[derive(Debug)]
pub struct Tree {
    pub h: Hierarchy,
    pub d: u32,
    pub bases: Vec<Node>,
    pub ctx: Arc<Ctx>,
}

impl Tree {
    /// A valid hierarchy, a context of its shape deep enough, and one canonical node per base.
    pub open spec fn wf(&self) -> bool {
        &&& self.h.valid()
        &&& self.ctx.wf()
        &&& self.ctx.a == self.h.a
        &&& self.ctx.b == self.h.b
        &&& self.d <= self.ctx.depth()
        &&& self.h.fits(self.d as nat)
        &&& self.bases@.len() == self.h.b
        &&& forall|b: int| 0 <= b < self.h.b ==> wf_node(#[trigger] self.bases@[b], self.h.a as nat, self.d as nat)
    }

    /// `x` is a cid at the tree's depth.
    pub open spec fn is_leaf(&self, x: int) -> bool {
        self.h.is_cid(x) && self.h.spec_level(x) == self.d
    }

    /// The leaf `x` is covered.
    pub open spec fn covered(&self, x: int) -> bool {
        &&& self.is_leaf(x)
        &&& covers(
            self.bases@[self.h.lead(x) - self.h.a],
            self.h.a as nat,
            self.d as nat,
            x % pow(self.h.a as int, self.d as nat),
        )
    }

    /// The covered leaves.
    pub open spec fn leaf_set(&self) -> Set<int> {
        Set::new(|x: int| self.covered(x))
    }

    /// The hashes of the base subtrees.
    pub open spec fn spec_base_hashes(&self) -> Seq<Seq<u8>> {
        Seq::new(self.h.b as nat, |i: int| nh(self.bases@[i], self.h.a as nat, self.d as nat))
    }

    /// The 32-byte root.
    pub open spec fn spec_root(&self) -> Seq<u8> {
        spec_root(self.spec_base_hashes())
    }

    /// Leaf `i` of base `b` is covered exactly when the base node covers it.
    pub proof fn lemma_base_leaf(&self, b: int, i: int)
        requires
            self.wf(),
            0 <= b < self.h.b,
            0 <= i < pow(self.h.a as int, self.d as nat),
        ensures
            self.is_leaf((self.h.a + b) * pow(self.h.a as int, self.d as nat) + i),
            self.covered((self.h.a + b) * pow(self.h.a as int, self.d as nat) + i)
                == covers(self.bases@[b], self.h.a as nat, self.d as nat, i),
    {
        self.h.lemma_block_leaf(self.h.a + b, self.d as nat, i);
    }

    /// Whether a leaf lies under one of the cells.
    pub open spec fn under_some(h: Hierarchy, cids: Seq<Cid>, x: int) -> bool {
        exists|j: int| 0 <= j < cids.len() && h.spec_is_ancestor(#[trigger] cids[j] as int, x)
    }

    /// Cover every cid (any levels up to `d`, any order, duplicates allowed). Built in one pass:
    /// each cell becomes its range of leaves, the ranges are merged, and the canonical tree is
    /// read off them top-down, so each node is hashed once.
    pub fn from_cells(h: Hierarchy, d: u32, cids: &[Cid], ctx: Arc<Ctx>) -> (r: Result<Tree>)
        requires
            h.valid(),
            ctx.wf(),
        ensures
            r is Ok <==> ctx.a == h.a && ctx.b == h.b && d <= ctx.depth() && h.fits(d as nat)
                && forall|j: int| 0 <= j < cids@.len() ==> h.is_cid(#[trigger] cids@[j] as int) && h.spec_level(cids@[j] as int) <= d,
            r matches Ok(t) ==> t.wf() && t.h == h && t.d == d && t.ctx == ctx
                && forall|x: int| #[trigger] t.covered(x) <==> t.is_leaf(x) && Tree::under_some(h, cids@, x),
    {
        let empty = Tree::empty(h, d, ctx)?;
        let a = h.a as u64;
        let n = cids.len();
        let mut spans: Vec<(u128, u128)> = Vec::new();
        let mut j: usize = 0;
        while j < n
            invariant
                h.valid(),
                a == h.a,
                h.fits(d as nat),
                n == cids@.len(),
                j <= n,
                spans@.len() == j,
                forall|k: int| 0 <= k < j ==> h.is_cid(#[trigger] cids@[k] as int) && h.spec_level(cids@[k] as int) <= d,
                forall|k: int| 0 <= k < j ==> (#[trigger] spans@[k]).0 == cids@[k] * pow(a as int, (d - h.spec_level(cids@[k] as int)) as nat)
                    && spans@[k].1 == (cids@[k] + 1) * pow(a as int, (d - h.spec_level(cids@[k] as int)) as nat)
                    && spans@[k].0 < spans@[k].1,
            decreases n - j,
        {
            let c = cids[j];
            let r = h.check(c, Some(d))?;
            proof {
                lemma_pow_increases(a as nat, (d - r) as nat, d as nat);
                lemma_pow_pos(a as int, d as nat);
                lemma_pow_pos(a as int, (d - r) as nat);
                lemma_mul_inequality(1, (a + h.b) as int, pow(a as int, d as nat));
                assert(h.fits(d as nat));
            }
            let w = upow(a, d - r);
            proof {
                assert((c as u128) * (w as u128) < 0x1_0000_0000_0000_0000 * 0x1_0000_0000_0000_0000u128) by (nonlinear_arith)
                    requires
                        c < 0x1_0000_0000_0000_0000,
                        w < 0x1_0000_0000_0000_0000,
                ;
                assert((c as u128 + 1) * (w as u128) < 0x1_0000_0000_0000_0000 * 0x1_0000_0000_0000_0000u128) by (nonlinear_arith)
                    requires
                        c < 0x1_0000_0000_0000_0000,
                        w < 0x1_0000_0000_0000_0000,
                ;
                lemma_mul_is_distributive_add_other_way(w as int, c as int, 1);
                lemma_mul_is_commutative(w as int, c as int);
                lemma_mul_is_commutative(w as int, c as int + 1);
            }
            spans.push((c as u128 * w as u128, (c as u128 + 1) * w as u128));
            j = j + 1;
        }
        let ghost orig = spans@;
        sort_spans(&mut spans);
        proof {
            orig.to_multiset_ensures();
            spans@.to_multiset_ensures();
            assert forall|k: int| 0 <= k < spans@.len() implies #[trigger] spans@[k].0 < spans@[k].1 by {
                assert(spans@.contains(spans@[k]));
                assert(spans@.to_multiset().count(spans@[k]) > 0);
                assert(orig.contains(spans@[k]));
            }
            assert forall|x: int| in_spans(spans@, x) <==> in_spans(orig, x) by {
                if in_spans(spans@, x) {
                    let k = choose|k: int| 0 <= k < spans@.len() && spans@[k].0 <= x < #[trigger] spans@[k].1;
                    assert(spans@.contains(spans@[k]));
                    assert(spans@.to_multiset().count(spans@[k]) > 0);
                    assert(orig.contains(spans@[k]));
                }
                if in_spans(orig, x) {
                    let k = choose|k: int| 0 <= k < orig.len() && orig[k].0 <= x < #[trigger] orig[k].1;
                    assert(orig.contains(orig[k]));
                    assert(orig.to_multiset().count(orig[k]) > 0);
                    assert(spans@.contains(orig[k]));
                }
            }
        }
        let merged = merge_spans(&spans);
        let ctx = empty.ctx;
        proof {
            lemma_pow_pos(a as int, d as nat);
            lemma_mul_inequality(2, (a + h.b) as int, pow(a as int, d as nat));
        }
        let span = upow(a, d);
        proof {
            lemma_pow_pos(a as int, d as nat);
        }
        let mut bases: Vec<Node> = Vec::new();
        let mut b: u32 = 0;
        while b < h.b
            invariant
                h.valid(),
                ctx.wf(),
                ctx.a == h.a,
                ctx.b == h.b,
                d <= ctx.depth(),
                h.fits(d as nat),
                a == h.a,
                span == pow(a as int, d as nat),
                span >= 1,
                separated(merged@),
                b <= h.b,
                bases@.len() == b,
                forall|k: int| 0 <= k < b ==> wf_node(#[trigger] bases@[k], a as nat, d as nat),
                forall|k: int, i: int| 0 <= k < b && 0 <= i < span ==> #[trigger] covers(bases@[k], a as nat, d as nat, i) == in_spans(merged@, (a + k) * span + i),
            decreases h.b - b,
        {
            proof {
                lemma_mul_inequality(a + b + 1, (a + h.b) as int, span as int);
                lemma_mul_is_distributive_add_other_way(span as int, a + b, 1);
                lemma_mul_is_commutative(span as int, a + b);
                lemma_mul_is_commutative(span as int, a + b + 1);
                lemma_mul_is_commutative(span as int, (a + h.b) as int);
            }
            let lo = (a as u128 + b as u128) * span as u128;
            let node = build(lo, span as u128, d, &merged, 0, merged.len(), &ctx);
            bases.push(node);
            b = b + 1;
        }
        let t = Tree { h, d, bases, ctx };
        proof {
            assert forall|x: int| #[trigger] t.covered(x) <==> t.is_leaf(x) && Tree::under_some(h, cids@, x) by {
                if t.is_leaf(x) {
                    h.lemma_leaf_split(x);
                    let lead = h.lead(x);
                    let i = x % pow(a as int, d as nat);
                    let k = lead - a;
                    assert(covers(t.bases@[k], a as nat, d as nat, i) == in_spans(merged@, (a + k) * span + i));
                    if in_spans(orig, x) {
                        let m = choose|m: int| 0 <= m < orig.len() && orig[m].0 <= x < #[trigger] orig[m].1;
                        h.lemma_block_ancestor(cids@[m] as int, x);
                        assert(h.spec_is_ancestor(cids@[m] as int, x));
                    }
                    if Tree::under_some(h, cids@, x) {
                        let m = choose|m: int| 0 <= m < cids@.len() && h.spec_is_ancestor(#[trigger] cids@[m] as int, x);
                        h.lemma_block_ancestor(cids@[m] as int, x);
                        assert(orig[m].0 <= x < orig[m].1);
                    }
                }
            }
        }
        Ok(t)
    }

/// `node` with the sub-block named by `path[pos..]` covered too.
    fn set_rec(&self, node: &Node, path: &Vec<u32>, pos: usize, d: u32) -> (r: Node)
        requires
            self.ctx.wf(),
            self.ctx.a >= 2,
            d <= self.ctx.depth(),
            wf_node(*node, self.ctx.a as nat, d as nat),
            pos <= path@.len(),
            path@.len() - pos <= d,
            forall|j: int| pos <= j < path@.len() ==> #[trigger] path@[j] < self.ctx.a,
        ensures
            wf_node(r, self.ctx.a as nat, d as nat),
            forall|i: int| 0 <= i < pow(self.ctx.a as int, d as nat) ==> #[trigger] covers(r, self.ctx.a as nat, d as nat, i)
                == (covers(*node, self.ctx.a as nat, d as nat, i) || in_block(path@.subrange(pos as int, path@.len() as int), self.ctx.a as nat, d as nat, i)),
        decreases path@.len() - pos,
    {
        let ghost ds = path@.subrange(pos as int, path@.len() as int);
        let ghost a = self.ctx.a as nat;
        if pos == path.len() {
            return Node::Full;
        }
        if let Node::Full = node {
            return Node::Full;
        }
        let k = path[pos] as usize;
        let n = self.ctx.a as usize;
        let mut children: Vec<Node> = Vec::new();
        let mut j: usize = 0;
        while j < n
            invariant
                n == a,
                j <= n,
                *node is Branch ==> node->Branch_0.children@.len() == n,
                children@.len() == j,
                forall|m: int| 0 <= m < j ==> #[trigger] children@[m] == spec_child(*node, m),
            decreases n - j,
        {
            children.push(node.child(j));
            j = j + 1;
        }
        proof {
            assert forall|m: int| 0 <= m < n implies wf_node(#[trigger] children@[m], a, (d - 1) as nat) by {
                assert(children@[m] == spec_child(*node, m));
            }
        }
        let new = self.set_rec(&children[k], path, pos + 1, d - 1);
        let ghost old_children = children@;
        children[k] = new;
        let r = make_branch(children, d, &self.ctx);
        proof {
            let s = pow(a as int, (d - 1) as nat);
            assert(ds.drop_first() =~= path@.subrange(pos + 1, path@.len() as int));
            assert forall|i: int| 0 <= i < pow(a as int, d as nat) implies #[trigger] covers(r, a, d as nat, i)
                == (covers(*node, a, d as nat, i) || in_block(ds, a, d as nat, i)) by {
                lemma_leaf_child(a, d as nat, i);
                let m = i / s;
                assert(covers(old_children[m], a, (d - 1) as nat, i % s) == covers(*node, a, d as nat, i));
            }
        }
        r
    }

    /// A new tree with the whole subtree at `cid` covered.
    pub fn set_full(&self, cid: Cid) -> (r: Result<Tree>)
        requires
            self.wf(),
        ensures
            r is Ok <==> self.h.is_cid(cid as int) && self.h.spec_level(cid as int) <= self.d,
            r matches Ok(t) ==> t.wf() && t.h == self.h && t.d == self.d && t.ctx == self.ctx
                && forall|x: int| #[trigger] t.covered(x) <==> self.covered(x) || (self.is_leaf(x) && self.h.spec_is_ancestor(cid as int, x)),
    {
        let lvl = self.h.check(cid, Some(self.d))?;
        let path = self.h.path(cid)?;
        proof {
            self.h.lemma_path_cid(cid as int);
        }
        let b = path[0] as usize;
        let new_base = self.set_rec(&self.bases[b], &path, 1, self.d);
        let mut bases: Vec<Node> = Vec::new();
        let nb = self.h.b as usize;
        let mut j: usize = 0;
        while j < nb
            invariant
                nb == self.h.b,
                nb == self.bases@.len(),
                b < nb,
                j <= nb,
                bases@.len() == j,
                forall|m: int| 0 <= m < j ==> #[trigger] bases@[m] == (if m == b { new_base } else { self.bases@[m] }),
            decreases nb - j,
        {
            if j == b {
                bases.push(new_base.clone_node());
            } else {
                bases.push(self.bases[j].clone_node());
            }
            j = j + 1;
        }
        let t = Tree { h: self.h, d: self.d, bases, ctx: self.ctx.clone() };
        proof {
            let a = self.h.a as nat;
            let ds = path@.subrange(1, path@.len() as int);
            assert(ds =~= path@.drop_first());
            assert forall|x: int| #[trigger] t.covered(x) <==> self.covered(x) || (self.is_leaf(x) && self.h.spec_is_ancestor(cid as int, x)) by {
                if self.is_leaf(x) {
                    self.h.lemma_leaf_split(x);
                    self.h.lemma_ancestor_digits(cid as int, x);
                    let i = x % pow(a as int, self.d as nat);
                    if self.h.lead(x) - self.h.a == b {
                        lemma_in_block_val(ds, a, self.d as nat, i);
                    }
                }
            }
        }
        Ok(t)
    }

    pub fn base_hashes(&self) -> (r: Vec<Digest>)
        requires
            self.wf(),
        ensures
            views(r@) == self.spec_base_hashes(),
    {
        let mut out: Vec<Digest> = Vec::new();
        let n = self.bases.len();
        let mut j: usize = 0;
        while j < n
            invariant
                self.wf(),
                n == self.bases@.len(),
                j <= n,
                out@.len() == j,
                forall|m: int| 0 <= m < j ==> (#[trigger] out@[m])@ == nh(self.bases@[m], self.h.a as nat, self.d as nat),
            decreases n - j,
        {
            out.push(node_hash(&self.bases[j], self.d, &self.ctx));
            j = j + 1;
        }
        assert(views(out@) =~= self.spec_base_hashes());
        out
    }

    /// The 32-byte root: `H(0x03 ‖ b_0 ‖ … ‖ b_{B-1})` over the base subtree hashes.
    pub fn root(&self) -> (r: Digest)
        requires
            self.wf(),
        ensures
            r@ == self.spec_root(),
    {
        let hs = self.base_hashes();
        self.ctx.hasher.root(hs.as_slice())
    }

    pub fn root_hex(&self) -> (r: String)
        requires
            self.wf(),
        ensures
            r@ == spec_hex(self.spec_root()),
    {
        hex(&self.root())
    }

    /// The hash of one base subtree.
    pub fn subtree_hash(&self, base: usize) -> (r: Digest)
        requires
            self.wf(),
            base < self.h.b,
        ensures
            r@ == nh(self.bases@[base as int], self.h.a as nat, self.d as nat),
    {
        node_hash(&self.bases[base], self.d, &self.ctx)
    }

    /// No leaf is covered.
    pub fn is_empty(&self) -> (r: bool)
        requires
            self.wf(),
        ensures
            r <==> self.leaf_set() == Set::<int>::empty(),
    {
        let n = self.bases.len();
        let mut j: usize = 0;
        while j < n
            invariant
                self.wf(),
                n == self.bases@.len(),
                j <= n,
                forall|m: int| 0 <= m < j ==> #[trigger] self.bases@[m] is Empty,
            decreases n - j,
        {
            if !matches!(self.bases[j], Node::Empty) {
                proof {
                    let a = self.h.a as nat;
                    lemma_nonempty(self.bases@[j as int], a, self.d as nat);
                    let i = choose|i: int| 0 <= i < pow(a as int, self.d as nat) && #[trigger] covers(self.bases@[j as int], a, self.d as nat, i);
                    self.lemma_base_leaf(j as int, i);
                    assert(self.leaf_set().contains((self.h.a + j) * pow(a as int, self.d as nat) + i));
                }
                return false;
            }
            j = j + 1;
        }
        proof {
            assert forall|x: int| !self.leaf_set().contains(x) by {
                if self.is_leaf(x) {
                    self.h.lemma_cid_digits(x);
                }
            }
            assert(self.leaf_set() =~= Set::<int>::empty());
        }
        true
    }

    /// Every leaf is covered.
    pub fn is_full(&self) -> (r: bool)
        requires
            self.wf(),
        ensures
            r <==> forall|x: int| self.is_leaf(x) ==> #[trigger] self.covered(x),
    {
        let n = self.bases.len();
        let mut j: usize = 0;
        while j < n
            invariant
                self.wf(),
                n == self.bases@.len(),
                j <= n,
                forall|m: int| 0 <= m < j ==> #[trigger] self.bases@[m] is Full,
            decreases n - j,
        {
            if !matches!(self.bases[j], Node::Full) {
                proof {
                    let a = self.h.a as nat;
                    lemma_nonfull(self.bases@[j as int], a, self.d as nat);
                    let i = choose|i: int| 0 <= i < pow(a as int, self.d as nat) && !#[trigger] covers(self.bases@[j as int], a, self.d as nat, i);
                    self.lemma_base_leaf(j as int, i);
                    let x = (self.h.a + j) * pow(a as int, self.d as nat) + i;
                    assert(self.is_leaf(x) && !self.covered(x));
                }
                return false;
            }
            j = j + 1;
        }
        proof {
            assert forall|x: int| self.is_leaf(x) implies #[trigger] self.covered(x) by {
                self.h.lemma_cid_digits(x);
            }
        }
        true
    }

    /// `(node, d, exact)`: the node at `cid` with its levels-below count, or the constant
    /// ancestor reached first (`exact` false).
    pub fn node_at(&self, cid: Cid) -> (r: Result<(Node, u32, bool)>)
        requires
            self.wf(),
        ensures
            r is Ok <==> self.h.is_cid(cid as int) && self.h.spec_level(cid as int) <= self.d,
            r matches Ok((n, dd, exact)) ==> {
                let w = descend(self.bases@[self.h.path_of(cid as int)[0] as int], self.h.path_of(cid as int).drop_first());
                n == w.0 && dd == self.d - w.1 && exact == w.2
            },
    {
        let lvl = self.h.check(cid, Some(self.d))?;
        let path = self.h.path(cid)?;
        proof {
            self.h.lemma_path_cid(cid as int);
        }
        let ghost ds = path@.drop_first();
        let mut node = self.bases[path[0] as usize].clone_node();
        let mut d = self.d;
        let n = path.len();
        let mut pos: usize = 1;
        while pos < n
            invariant
                self.wf(),
                n == path@.len(),
                1 <= pos <= n,
                n - 1 <= self.d,
                ds == path@.drop_first(),
                path@ == self.h.path_of(cid as int),
                self.h.is_cid(cid as int),
                self.h.spec_level(cid as int) <= self.d,
                forall|j: int| 1 <= j < n ==> #[trigger] path@[j] < self.h.a,
                d == self.d - (pos - 1),
                wf_node(node, self.h.a as nat, d as nat),
                ({
                    let w = descend(self.bases@[path@[0] as int], ds);
                    let v = descend(node, path@.subrange(pos as int, n as int));
                    w.0 == v.0 && w.1 == v.1 + (pos - 1) && w.2 == v.2
                }),
            decreases n - pos,
        {
            let ghost rest = path@.subrange(pos as int, n as int);
            assert(rest.drop_first() =~= path@.subrange(pos + 1, n as int));
            match node {
                Node::Branch(ref b) => {
                    let next = b.children[path[pos] as usize].clone_node();
                    node = next;
                    d = d - 1;
                },
                _ => {
                    return Ok((node, d, false));
                },
            }
            pos = pos + 1;
        }
        proof {
            assert(path@.subrange(n as int, n as int).len() == 0);
        }
        Ok((node, d, true))
    }

    /// Every leaf under a cell.
    pub open spec fn covers_cell(&self, c: int) -> bool {
        forall|x: int| self.is_leaf(x) && self.h.spec_is_ancestor(c, x) ==> #[trigger] self.covered(x)
    }

    /// The node the path of a cell leads to, the levels descended, and whether every digit was
    /// followed (`false` when a constant ancestor was reached first).
    pub open spec fn cell_node(&self, c: int) -> (Node, nat, bool) {
        descend(self.bases@[self.h.path_of(c)[0] as int], self.h.path_of(c).drop_first())
    }

    /// A cell is wholly covered exactly when the node its path leads to is `Full`.
    pub proof fn lemma_covers_cell(&self, c: int)
        requires
            self.wf(),
            self.h.is_cid(c),
            self.h.spec_level(c) <= self.d,
        ensures
            self.covers_cell(c) == (self.cell_node(c).0 is Full),
    {
        let node = self.cell_node(c).0;
        let dd = (self.d - self.cell_node(c).1) as nat;
        let exact = self.cell_node(c).2;
        let v = node is Full;
        let h = self.h;
        let a = h.a as nat;
        let d = self.d as nat;
        h.lemma_path_cid(c);
        let p = h.path_of(c);
        let ds = p.drop_first();
        let b = p[0] as int;
        let r = h.spec_level(c);
        let wk = pow(a as int, (d - r) as nat);
        let val = digits_val(ds, a);
        lemma_digits_val_bound(ds, a);
        lemma_pow_pos(a as int, (d - r) as nat);
        lemma_pow_pos(a as int, r);
        lemma_pow_adds(a as int, r, (d - r) as nat);
        assert forall|x: int| self.is_leaf(x) && h.spec_is_ancestor(c, x) implies
            covers(self.bases@[b], a, d, x % pow(a as int, d)) == covers(node, a, dd as nat, (x % pow(a as int, d)) % pow(a as int, dd as nat))
            && self.h.lead(x) - self.h.a == b by {
            h.lemma_ancestor_digits(c, x);
            h.lemma_leaf_split(x);
            lemma_in_block_val(ds, a, d, x % pow(a as int, d));
            lemma_descend_covers(self.bases@[b], ds, a, d, x % pow(a as int, d));
        }
        if !v {
            // the walk's end node is canonical, and a branch only when every digit was followed
            let i0 = val * wk;
            assert(0 <= i0 < pow(a as int, d)) by (nonlinear_arith)
                requires
                    0 <= val < pow(a as int, r),
                    wk > 0,
                    pow(a as int, d) == pow(a as int, r) * wk,
                    i0 == val * wk,
            ;
            lemma_div_multiples_vanish_fancy(val, 0, wk);
            lemma_mul_is_commutative(val, wk);
            assert(i0 == wk * val + 0);
            assert(i0 / wk == val);
            assert(ds.len() == r);
            lemma_in_block_val(ds, a, d, i0);
            assert(in_block(ds, a, d, i0));
            lemma_descend_covers(self.bases@[b], ds, a, d, i0);
            // a leaf under cid, at offset j inside the cid's block, that is not covered
            let j: int = if node is Empty {
                0
            } else {
                assert(exact);
                lemma_nonfull(node, a, dd as nat);
                choose|j: int| 0 <= j < pow(a as int, dd as nat) && !#[trigger] covers(node, a, dd as nat, j)
            };
            assert(0 <= j < wk);
            let i = val * wk + j;
            assert(0 <= i < pow(a as int, d)) by (nonlinear_arith)
                requires
                    0 <= val < pow(a as int, r),
                    0 <= j < wk,
                    pow(a as int, d) == pow(a as int, r) * wk,
                    i == val * wk + j,
            ;
            h.lemma_block_leaf(h.a + b, d, i);
            let x = (h.a + b) * pow(a as int, d) + i;
            lemma_div_multiples_vanish_fancy(val, j, wk);
            lemma_mul_is_commutative(val, wk);
            lemma_in_block_val(ds, a, d, i);
            h.lemma_ancestor_digits(c, x);
            lemma_descend_covers(self.bases@[b], ds, a, d, i);
            if exact {
                lemma_mod_multiples_vanish(val, j, wk);
                lemma_small_mod(j as nat, wk as nat);
            }
            assert(self.is_leaf(x) && h.spec_is_ancestor(c, x) && !self.covered(x));
        }
        }

    /// A leaf is wholly covered exactly when it is covered.
    pub proof fn lemma_covers_leaf(&self, c: int)
        requires
            self.wf(),
            self.is_leaf(c),
        ensures
            self.covers_cell(c) == self.covered(c),
    {
        reveal(pow);
        assert(pow(self.h.a as int, 0) == 1);
        assert(self.h.spec_is_ancestor(c, c));
        assert forall|x: int| self.is_leaf(x) && self.h.spec_is_ancestor(c, x) implies x == c by {
            assert(x / 1 == x);
        }
    }

    /// A cell of the canonical cover (the compact zone list): wholly covered, with a parent that
    /// is not (or a base cell).
    pub open spec fn is_cell(&self, c: int) -> bool {
        &&& self.h.is_cid(c)
        &&& self.h.spec_level(c) <= self.d
        &&& self.covers_cell(c)
        &&& (self.h.spec_level(c) == 0 || !self.covers_cell(c / self.h.a as int))
    }

    /// Climbing from a wholly covered cell over `x`, the coarsest wholly covered one is a cell of
    /// the cover.
    proof fn lemma_cell_above(&self, x: int, k: nat)
        requires
            self.wf(),
            self.is_leaf(x),
            k <= self.d,
            self.covers_cell(x / pow(self.h.a as int, k)),
        ensures
            exists|c: int| #[trigger] self.is_cell(c) && self.h.spec_is_ancestor(c, x),
        decreases self.d - k,
    {
        let h = self.h;
        let a = h.a as int;
        h.lemma_ancestor_up(x, k);
        let c = x / pow(a, k);
        if h.spec_level(c) == 0 || !self.covers_cell(c / a) {
            assert(self.is_cell(c));
        } else {
            lemma_pow_succ(a, k);
            lemma_pow_pos(a, k);
            vstd::arithmetic::div_mod::lemma_div_denominator(x, pow(a, k), a);
            vstd::arithmetic::mul::lemma_mul_is_commutative(a, pow(a, k));
            self.lemma_cell_above(x, k + 1);
        }
    }

    /// The cells of the canonical cover tile the covered leaves: a leaf is covered exactly when a
    /// cell of the cover lies over it.
    pub proof fn lemma_cells_tile(&self, x: int)
        requires
            self.wf(),
            self.is_leaf(x),
        ensures
            self.covered(x) <==> exists|c: int| #[trigger] self.is_cell(c) && self.h.spec_is_ancestor(c, x),
    {
        if self.covered(x) {
            self.lemma_covers_leaf(x);
            reveal(pow);
            assert(pow(self.h.a as int, 0) == 1);
            assert(x / 1 == x);
            self.lemma_cell_above(x, 0);
        }
    }

    /// No cell of the canonical cover lies under another: the cover is a set of disjoint cells.
    pub proof fn lemma_cells_disjoint(&self, c1: int, c2: int)
        requires
            self.wf(),
            self.is_cell(c1),
            self.is_cell(c2),
            c1 != c2,
        ensures
            !self.h.spec_is_ancestor(c1, c2),
    {
        let h = self.h;
        let a = h.a as int;
        if h.spec_is_ancestor(c1, c2) {
            let l2 = h.spec_level(c2);
            if h.spec_level(c1) == l2 {
                reveal(pow);
                assert(pow(a, 0) == 1);
                assert(c2 / 1 == c2);
            }
            assert(l2 >= 1);
            let p = c2 / a;
            h.lemma_parent_path(c2);
            vstd::arithmetic::power::lemma_pow1(a);
            assert(h.spec_is_ancestor(p, c2));
            h.lemma_ancestors_nest(c1, p, c2);
            assert forall|x: int| self.is_leaf(x) && h.spec_is_ancestor(p, x) implies #[trigger] self.covered(x) by {
                h.lemma_ancestor_trans(c1, p, x);
            }
            assert(self.covers_cell(p));
        }
    }

    /// `y` lies below the node at path `p` and the walk down to it ends, every digit followed,
    /// at a `Full` node.
    pub open spec fn found_cid(&self, node: Node, p: Seq<u32>, y: int) -> bool {
        &&& self.h.is_cid(y)
        &&& self.h.path_of(y).len() >= p.len()
        &&& self.h.path_of(y).take(p.len() as int) == p
        &&& descend(node, self.h.path_of(y).skip(p.len() as int)).0 is Full
        &&& descend(node, self.h.path_of(y).skip(p.len() as int)).2
    }

    /// A cell is a cell of the canonical cover exactly when its path leads, every digit followed,
    /// to a `Full` node.
    pub proof fn lemma_cell_exact(&self, c: int)
        requires
            self.wf(),
            self.h.is_cid(c),
            self.h.spec_level(c) <= self.d,
        ensures
            self.is_cell(c) == (self.cell_node(c).0 is Full && self.cell_node(c).2),
    {
        let h = self.h;
        self.lemma_covers_cell(c);
        h.lemma_path_cid(c);
        let p = h.path_of(c);
        let ds = p.drop_first();
        if h.spec_level(c) >= 1 {
            let q = c / h.a as int;
            h.lemma_parent_path(c);
            self.lemma_covers_cell(q);
            assert(h.path_of(q)[0] == p[0]);
            assert(h.path_of(q).drop_first() =~= ds.drop_last());
            lemma_descend_drop_last(self.bases@[p[0] as int], ds);
        } else {
            assert(ds.len() == 0);
        }
    }

    /// Below a branch, `y` is found under the child its next digit names.
    proof fn lemma_found_child(&self, node: Node, p: Seq<u32>, y: int)
        requires
            node is Branch,
        ensures
            self.found_cid(node, p, y) <==> self.h.is_cid(y) && self.h.path_of(y).len() > p.len()
                && self.found_cid(spec_child(node, self.h.path_of(y)[p.len() as int] as int), p.push(self.h.path_of(y)[p.len() as int]), y),
    {
        let q = self.h.path_of(y);
        let b = node->Branch_0;
        if self.h.is_cid(y) && q.len() > p.len() {
            let ds = q.skip(p.len() as int);
            assert(ds.drop_first() =~= q.skip(p.len() + 1 as int));
            assert(ds[0] == q[p.len() as int]);
            assert(spec_child(node, ds[0] as int) == b.children@[ds[0] as int]);
            let r = descend(b.children@[ds[0] as int], ds.drop_first());
            assert(descend(node, ds) == (r.0, r.1 + 1, r.2));
            if q.take(p.len() as int) == p {
                assert(q.take(p.len() + 1 as int) =~= p.push(q[p.len() as int]));
            }
            if q.take(p.len() + 1 as int) == p.push(q[p.len() as int]) {
                assert(q.take(p.len() as int) =~= q.take(p.len() + 1 as int).drop_last());
                assert(p.push(q[p.len() as int]).drop_last() =~= p);
            }
        }
        if self.h.is_cid(y) && q.len() == p.len() {
            assert(q.skip(p.len() as int) =~= Seq::<u32>::empty());
            assert(descend(node, q.skip(p.len() as int)).0 == node);
        }
    }

    /// Append the cells under `node`, the node at path `p` (cid `cid`) `dd` levels above the
    /// leaves, in walk order.
    fn walk_cells(&self, node: &Node, cid: Cid, dd: u32, Ghost(p): Ghost<Seq<u32>>, out: &mut Vec<Cid>)
        requires
            self.wf(),
            wf_node(*node, self.h.a as nat, dd as nat),
            self.h.valid_path(p),
            p.len() - 1 + dd == self.d,
            cid == self.h.spec_cid(p),
        ensures
            final(out)@.len() >= old(out)@.len(),
            final(out)@.take(old(out)@.len() as int) == old(out)@,
            final(out)@.skip(old(out)@.len() as int).no_duplicates(),
            forall|y: Cid| #[trigger] final(out)@.skip(old(out)@.len() as int).contains(y) <==> self.found_cid(*node, p, y as int),
        decreases dd,
    {
        let ghost start = out@.len();
        let ghost before = out@;
        proof {
            self.h.lemma_cid_path(p);
        }
        match node {
            Node::Empty => {
                proof {
                    assert(out@.skip(start as int) =~= Seq::<Cid>::empty());
                    assert forall|y: Cid| !self.found_cid(*node, p, y as int) by {
                        let q = self.h.path_of(y as int);
                        if q.len() > p.len() {
                            assert(q.skip(p.len() as int).len() > 0);
                        }
                    }
                    assert(out@.take(start as int) =~= before);
                }
            },
            Node::Full => {
                out.push(cid);
                proof {
                    assert(out@.skip(start as int) =~= seq![cid]);
                    assert(out@.take(start as int) =~= before);
                    assert forall|y: Cid| #[trigger] out@.skip(start as int).contains(y) <==> self.found_cid(*node, p, y as int) by {
                        let q = self.h.path_of(y as int);
                        if self.found_cid(*node, p, y as int) {
                            if q.len() > p.len() {
                                assert(q.skip(p.len() as int).len() > 0);
                            }
                            assert(q =~= q.take(p.len() as int));
                            self.h.lemma_path_cid(y as int);
                            assert(out@.skip(start as int)[0] == y);
                        }
                        if y == cid {
                            assert(q.skip(p.len() as int).len() == 0);
                            assert(q.take(p.len() as int) =~= q);
                        }
                    }
                }
            },
            Node::Branch(b) => {
                let n = self.h.a as usize;
                let mut k: usize = 0;
                proof {
                    assert(out@.skip(start as int) =~= Seq::<Cid>::empty());
                    assert(out@.take(start as int) =~= before);
                    self.h.lemma_cid_bounds(p);
                }
                while k < n
                    invariant
                        self.wf(),
                        *node is Branch,
                        b == node->Branch_0,
                        wf_node(*node, self.h.a as nat, dd as nat),
                        n == self.h.a,
                        k <= n,
                        self.h.valid_path(p),
                        p.len() - 1 + dd == self.d,
                        cid == self.h.spec_cid(p),
                        start <= out@.len(),
                        out@.take(start as int) == before,
                        out@.skip(start as int).no_duplicates(),
                        forall|y: Cid| #[trigger] out@.skip(start as int).contains(y) <==> self.found_cid(*node, p, y as int)
                            && self.h.path_of(y as int)[p.len() as int] < k,
                    decreases n - k,
                {
                    let ghost pk = p.push(k as u32);
                    let ghost mid = out@;
                    proof {
                        assert(self.h.valid_path(pk));
                        self.h.lemma_cid_bounds(pk);
                        self.h.lemma_fits_mono((pk.len() - 1) as nat, self.d as nat);
                        crate::arith::lemma_pow_pos(self.h.a as int, (pk.len() - 1) as nat);
                        assert((self.h.a + pk[0] + 1) * pow(self.h.a as int, (pk.len() - 1) as nat)
                            <= (self.h.a + self.h.b) * pow(self.h.a as int, (pk.len() - 1) as nat)) by (nonlinear_arith)
                            requires
                                pk[0] + 1 <= self.h.b,
                                pow(self.h.a as int, (pk.len() - 1) as nat) >= 1,
                        ;
                        assert(pk.drop_last() =~= p);
                        assert(self.h.spec_cid(pk) == self.h.spec_cid(p) * self.h.a + k);
                        vstd::arithmetic::mul::lemma_mul_is_commutative(self.h.a as int, cid as int);
                        assert(self.h.spec_cid(pk) < 0x1_0000_0000_0000_0000);
                    }
                    let child_cid = self.h.a as u64 * cid + k as u64;
                    self.walk_cells(&b.children[k], child_cid, dd - 1, Ghost(pk), out);
                    proof {
                        let added = out@.skip(start as int);
                        let old_added = mid.skip(start as int);
                        let new_part = out@.skip(mid.len() as int);
                        assert(out@.take(mid.len() as int) == mid);
                        assert(added =~= old_added + new_part);
                        assert(out@.take(start as int) =~= mid.take(start as int));
                        assert forall|y: Cid| #[trigger] added.contains(y) <==> self.found_cid(*node, p, y as int)
                            && self.h.path_of(y as int)[p.len() as int] < k + 1 by {
                            self.lemma_found_child(*node, p, y as int);
                            if added.contains(y) {
                                let i = choose|i: int| 0 <= i < added.len() && added[i] == y;
                                if i < old_added.len() {
                                    assert(old_added.contains(y));
                                } else {
                                    assert(new_part.contains(y));
                                }
                            }
                            if self.found_cid(*node, p, y as int) && self.h.path_of(y as int)[p.len() as int] < k + 1 {
                                if self.h.path_of(y as int)[p.len() as int] < k {
                                    assert(old_added.contains(y));
                                    let i = choose|i: int| 0 <= i < old_added.len() && old_added[i] == y;
                                    assert(added[i] == y);
                                } else {
                                    assert(new_part.contains(y));
                                    let i = choose|i: int| 0 <= i < new_part.len() && new_part[i] == y;
                                    assert(added[old_added.len() + i] == y);
                                }
                            }
                        }
                        assert forall|i: int, j: int| 0 <= i < added.len() && 0 <= j < added.len() && i != j implies added[i] != added[j] by {
                            if i < old_added.len() && j >= old_added.len() {
                                let y = added[j];
                                assert(new_part.contains(y));
                                assert(old_added.contains(added[i]));
                                self.lemma_found_child(*node, p, y as int);
                                self.lemma_found_child(*node, p, added[i] as int);
                            } else if j < old_added.len() && i >= old_added.len() {
                                let y = added[i];
                                assert(new_part.contains(y));
                                assert(old_added.contains(added[j]));
                                self.lemma_found_child(*node, p, y as int);
                                self.lemma_found_child(*node, p, added[j] as int);
                            } else if i < old_added.len() {
                                assert(old_added[i] == added[i] && old_added[j] == added[j]);
                            } else {
                                assert(new_part[i - old_added.len()] == added[i]);
                                assert(new_part[j - old_added.len()] == added[j]);
                            }
                        }
                    }
                    k = k + 1;
                }
                proof {
                    assert forall|y: Cid| #[trigger] out@.skip(start as int).contains(y) <==> self.found_cid(*node, p, y as int) by {
                        self.lemma_found_child(*node, p, y as int);
                        if self.found_cid(*node, p, y as int) {
                            self.h.lemma_path_cid(y as int);
                            assert(self.h.valid_path(self.h.path_of(y as int)));
                            assert(self.h.path_of(y as int)[p.len() as int] < self.h.a);
                        }
                    }
                }
            },
        }
    }

    /// A walk that ends, every digit followed, at a `Full` node stays within the depth.
    proof fn lemma_found_depth(node: Node, ds: Seq<u32>, a: nat, d: nat)
        requires
            wf_node(node, a, d),
            forall|j: int| 0 <= j < ds.len() ==> #[trigger] ds[j] < a,
            descend(node, ds).0 is Full,
            descend(node, ds).2,
        ensures
            ds.len() <= d,
        decreases ds.len(),
    {
        if ds.len() > 0 {
            if let Node::Branch(b) = node {
                assert(ds[0] < a);
                Tree::lemma_found_depth(b.children@[ds[0] as int], ds.drop_first(), a, (d - 1) as nat);
            }
        }
    }

    /// The canonical (coarsest) covered cids, sorted ascending, each once: the compact zone list.
    pub fn cells(&self) -> (r: Vec<Cid>)
        requires
            self.wf(),
        ensures
            forall|i: int, j: int| 0 <= i < j < r@.len() ==> r@[i] < r@[j],
            forall|c: Cid| #[trigger] r@.contains(c) <==> self.is_cell(c as int),
    {
        let mut out: Vec<Cid> = Vec::new();
        let nb = self.h.b as usize;
        let mut b: usize = 0;
        while b < nb
            invariant
                self.wf(),
                nb == self.h.b,
                b <= nb,
                out@.no_duplicates(),
                forall|y: Cid| #[trigger] out@.contains(y) <==> self.h.is_cid(y as int) && self.h.path_of(y as int)[0] < b
                    && self.found_cid(self.bases@[self.h.path_of(y as int)[0] as int], seq![self.h.path_of(y as int)[0]], y as int),
            decreases nb - b,
        {
            let ghost p = seq![b as u32];
            let ghost before = out@;
            proof {
                assert(self.h.valid_path(p));
            }
            self.walk_cells(&self.bases[b], self.h.a as u64 + b as u64, self.d, Ghost(p), &mut out);
            proof {
                let added = out@.skip(before.len() as int);
                assert(out@ =~= before + added);
                assert forall|y: Cid| #[trigger] out@.contains(y) <==> self.h.is_cid(y as int) && self.h.path_of(y as int)[0] < b + 1
                    && self.found_cid(self.bases@[self.h.path_of(y as int)[0] as int], seq![self.h.path_of(y as int)[0]], y as int) by {
                    let q = self.h.path_of(y as int);
                    if self.found_cid(self.bases@[b as int], p, y as int) {
                        assert(q.take(1)[0] == q[0]);
                        assert(q[0] == b);
                    }
                    if out@.contains(y) {
                        let i = choose|i: int| 0 <= i < out@.len() && out@[i] == y;
                        if i < before.len() {
                            assert(before.contains(y));
                        } else {
                            assert(added[i - before.len()] == y);
                            assert(added.contains(y));
                        }
                    }
                    if self.h.is_cid(y as int) && q[0] < b + 1
                        && self.found_cid(self.bases@[q[0] as int], seq![q[0]], y as int) {
                        if q[0] < b {
                            assert(before.contains(y));
                            let i = choose|i: int| 0 <= i < before.len() && before[i] == y;
                            assert(out@[i] == y);
                        } else {
                            assert(added.contains(y));
                            let i = choose|i: int| 0 <= i < added.len() && added[i] == y;
                            assert(out@[before.len() + i] == y);
                        }
                    }
                }
                assert forall|i: int, j: int| 0 <= i < out@.len() && 0 <= j < out@.len() && i != j implies out@[i] != out@[j] by {
                    if i < before.len() && j >= before.len() {
                        assert(added.contains(out@[j]));
                        assert(before.contains(out@[i]));
                        let y = out@[j];
                        assert(self.h.path_of(y as int).take(1)[0] == self.h.path_of(y as int)[0]);
                    } else if j < before.len() && i >= before.len() {
                        assert(added.contains(out@[i]));
                        assert(before.contains(out@[j]));
                        let y = out@[i];
                        assert(self.h.path_of(y as int).take(1)[0] == self.h.path_of(y as int)[0]);
                    } else if i >= before.len() {
                        assert(added[i - before.len()] == out@[i]);
                        assert(added[j - before.len()] == out@[j]);
                    }
                }
            }
            b = b + 1;
        }
        let ghost unsorted = out@;
        sort_cids(&mut out);
        proof {
            unsorted.lemma_multiset_has_no_duplicates();
            out@.lemma_multiset_has_no_duplicates_conv();
            unsorted.to_multiset_ensures();
            out@.to_multiset_ensures();
            assert forall|c: Cid| #[trigger] out@.contains(c) <==> self.is_cell(c as int) by {
                assert(out@.to_multiset().count(c) == unsorted.to_multiset().count(c));
                assert(out@.contains(c) == unsorted.contains(c));
                let q = self.h.path_of(c as int);
                if self.h.is_cid(c as int) {
                    self.h.lemma_path_cid(c as int);
                    if self.found_cid(self.bases@[q[0] as int], seq![q[0]], c as int) {
                        assert(q.skip(1) =~= q.drop_first());
                        assert forall|j: int| 0 <= j < q.drop_first().len() implies #[trigger] q.drop_first()[j] < self.h.a by {
                            assert(q.drop_first()[j] == q[j + 1]);
                        }
                        Tree::lemma_found_depth(self.bases@[q[0] as int], q.drop_first(), self.h.a as nat, self.d as nat);
                        self.lemma_cell_exact(c as int);
                    }
                    if self.is_cell(c as int) {
                        self.lemma_cell_exact(c as int);
                        assert(q.skip(1) =~= q.drop_first());
                        assert(q.take(1) =~= seq![q[0]]);
                    }
                }
            }
        }
        out
    }

    /// The number of covered leaves under a node `dd` levels above the leaves.
    fn count_leaves(&self, node: &Node, dd: u32) -> (r: u64)
        requires
            self.wf(),
            dd <= self.d,
            wf_node(*node, self.h.a as nat, dd as nat),
        ensures
            covered_in(*node, self.h.a as nat, dd as nat).finite(),
            r == covered_in(*node, self.h.a as nat, dd as nat).len(),
            r <= pow(self.h.a as int, dd as nat),
        decreases dd,
    {
        let ghost a = self.h.a as nat;
        proof {
            lemma_pow_pos(a as int, dd as nat);
            lemma_pow_increases(a, dd as nat, self.d as nat);
            lemma_mul_inequality(2, (self.h.a + self.h.b) as int, pow(a as int, self.d as nat));
            vstd::set_lib::lemma_int_range(0, pow(a as int, dd as nat));
            vstd::set_lib::lemma_len_subset(covered_in(*node, a, dd as nat), vstd::set_lib::set_int_range(0, pow(a as int, dd as nat)));
        }
        match node {
            Node::Empty => {
                proof {
                    assert(covered_in(*node, a, dd as nat) =~= Set::<int>::empty());
                }
                0
            },
            Node::Full => {
                proof {
                    assert(covered_in(*node, a, dd as nat) =~= vstd::set_lib::set_int_range(0, pow(a as int, dd as nat)));
                }
                upow(self.h.a as u64, dd)
            },
            Node::Branch(b) => {
                let ghost s = pow(a as int, (dd - 1) as nat);
                proof {
                    lemma_pow_succ(a as int, (dd - 1) as nat);
                    lemma_pow_pos(a as int, (dd - 1) as nat);
                    assert(covered_below(*node, a, dd as nat, 0) =~= Set::<int>::empty());
                }
                let n = self.h.a as usize;
                let mut total: u64 = 0;
                let mut k: usize = 0;
                while k < n
                    invariant
                        self.wf(),
                        *node is Branch,
                        b == node->Branch_0,
                        wf_node(*node, a, dd as nat),
                        1 <= dd <= self.d,
                        n == a,
                        a == self.h.a,
                        k <= n,
                        s == pow(a as int, (dd - 1) as nat),
                        s >= 1,
                        pow(a as int, dd as nat) == a * s,
                        pow(a as int, dd as nat) < 0x1_0000_0000_0000_0000,
                        covered_below(*node, a, dd as nat, k * s).finite(),
                        total == covered_below(*node, a, dd as nat, k * s).len(),
                        total <= k * s,
                    decreases n - k,
                {
                    let c = self.count_leaves(&b.children[k], dd - 1);
                    proof {
                        let child = b.children@[k as int];
                        let old_set = covered_below(*node, a, dd as nat, k * s);
                        let shifted = Set::new(|x: int| covered_in(child, a, (dd - 1) as nat).contains(x - k * s));
                        lemma_shift_len(covered_in(child, a, (dd - 1) as nat), k * s);
                        assert forall|x: int| #[trigger] covered_below(*node, a, dd as nat, (k + 1) * s).contains(x)
                            <==> old_set.contains(x) || shifted.contains(x) by {
                            lemma_mul_is_distributive_add_other_way(s, k as int, 1);
                            lemma_mul_is_commutative(s, k as int);
                            lemma_mul_is_commutative(s, k as int + 1);
                            if k * s <= x < (k + 1) * s {
                                lemma_child_index(a, dd as nat, k as int, x - k * s);
                                lemma_leaf_child(a, dd as nat, x);
                            }
                            if 0 <= x < (k + 1) * s {
                                assert(x < pow(a as int, dd as nat)) by (nonlinear_arith)
                                    requires
                                        x < (k + 1) * s,
                                        k + 1 <= a,
                                        pow(a as int, dd as nat) == a * s,
                                        s >= 1,
                                ;
                            }
                            if shifted.contains(x) {
                                lemma_child_index(a, dd as nat, k as int, x - k * s);
                            }
                            if old_set.contains(x) {
                                assert(x < (k + 1) * s);
                            }
                        }
                        assert(covered_below(*node, a, dd as nat, (k + 1) * s) =~= old_set + shifted);
                        assert(old_set.disjoint(shifted));
                        vstd::set_lib::lemma_set_disjoint_lens(old_set, shifted);
                        assert(total + c <= (k + 1) * s) by (nonlinear_arith)
                            requires
                                total <= k * s,
                                c <= s,
                        ;
                        assert((k + 1) * s <= a * s) by (nonlinear_arith)
                            requires
                                k + 1 <= a,
                                s >= 1,
                        ;
                    }
                    total = total + c;
                    k = k + 1;
                }
                proof {
                    assert(covered_below(*node, a, dd as nat, a * s) =~= covered_in(*node, a, dd as nat));
                }
                total
            },
        }
    }

    /// Number of covered leaves at depth `d` (exact).
    pub fn leaf_count(&self) -> (r: u64)
        requires
            self.wf(),
        ensures
            self.leaf_set().finite(),
            r == self.leaf_set().len(),
    {
        let ghost a = self.h.a as nat;
        let ghost w = pow(a as int, self.d as nat);
        proof {
            lemma_pow_pos(a as int, self.d as nat);
            assert(Set::new(|x: int| self.covered(x) && x < a * w) =~= Set::<int>::empty()) by {
                assert forall|x: int| !(self.covered(x) && x < a * w) by {
                    if self.covered(x) {
                        self.h.lemma_leaf_split(x);
                        lemma_mul_inequality(a as int, self.h.lead(x), w);
                    }
                }
            }
        }
        let nb = self.h.b as usize;
        let mut total: u64 = 0;
        let mut b: usize = 0;
        while b < nb
            invariant
                self.wf(),
                nb == self.h.b,
                a == self.h.a,
                w == pow(a as int, self.d as nat),
                w >= 1,
                b <= nb,
                Set::new(|x: int| self.covered(x) && x < (a + b) * w).finite(),
                total == Set::new(|x: int| self.covered(x) && x < (a + b) * w).len(),
                total <= b * w,
            decreases nb - b,
        {
            let c = self.count_leaves(&self.bases[b], self.d);
            proof {
                let lo = (a + b) * w;
                let old_set = Set::new(|x: int| self.covered(x) && x < lo);
                let base_set = covered_in(self.bases@[b as int], a, self.d as nat);
                let shifted = Set::new(|x: int| base_set.contains(x - lo));
                lemma_shift_len(base_set, lo);
                let new_set = Set::new(|x: int| self.covered(x) && x < (a + b + 1) * w);
                assert forall|x: int| #[trigger] new_set.contains(x) <==> old_set.contains(x) || shifted.contains(x) by {
                    if self.covered(x) {
                        self.h.lemma_leaf_split(x);
                        let l = self.h.lead(x);
                        let i = x as int % w;
                        assert((x < (a + b) * w <==> l < a + b) && (x < (a + b + 1) * w <==> l < a + b + 1)) by (nonlinear_arith)
                            requires
                                x == l * w + i,
                                0 <= i < w,
                                w >= 1,
                        ;
                        if l == a + b {
                            assert(x - lo == i);
                        }
                    }
                    if shifted.contains(x) {
                        self.lemma_base_leaf(b as int, x - lo);
                    }
                    if lo <= x < lo + w {
                        self.lemma_base_leaf(b as int, x - lo);
                    }
                    lemma_mul_is_distributive_add_other_way(w, a + b, 1);
                    lemma_mul_is_commutative(w, a + b);
                    lemma_mul_is_commutative(w, a + b + 1);
                }
                assert(new_set =~= old_set + shifted);
                assert(old_set.disjoint(shifted)) by {
                    assert forall|x: int| !(old_set.contains(x) && shifted.contains(x)) by {}
                }
                vstd::set_lib::lemma_set_disjoint_lens(old_set, shifted);
                assert(total + c <= (b + 1) * w) by (nonlinear_arith)
                    requires
                        total <= b * w,
                        c <= w,
                ;
                assert((b + 1) * w < (self.h.a + self.h.b) * w) by (nonlinear_arith)
                    requires
                        b + 1 <= self.h.b,
                        self.h.a >= 1,
                        w >= 1,
                ;
                assert(self.h.fits(self.d as nat));
            }
            total = total + c;
            b = b + 1;
        }
        proof {
            assert(Set::new(|x: int| self.covered(x) && x < (a + nb) * w) =~= self.leaf_set()) by {
                assert forall|x: int| self.covered(x) implies x < (a + nb) * w by {
                    self.h.lemma_leaf_split(x);
                    let l = self.h.lead(x);
                    let i = x as int % w;
                    assert(x < (a + nb) * w) by (nonlinear_arith)
                        requires
                            x == l * w + i,
                            0 <= i < w,
                            l + 1 <= a + nb,
                    ;
                }
            }
        }
        total
    }

    /// Append, ascending, the covered leaves under a node `dd` levels above the leaves whose first
    /// leaf is `lo`.
    fn walk_leaves(&self, node: &Node, lo: u64, dd: u32, out: &mut Vec<Cid>)
        requires
            self.wf(),
            dd <= self.d,
            wf_node(*node, self.h.a as nat, dd as nat),
            lo >= 1,
            lo + pow(self.h.a as int, dd as nat) <= cid_space(),
        ensures
            final(out)@.len() >= old(out)@.len(),
            final(out)@.take(old(out)@.len() as int) == old(out)@,
            forall|i: int, j: int| 0 <= i < j < final(out)@.skip(old(out)@.len() as int).len()
                ==> final(out)@.skip(old(out)@.len() as int)[i] < final(out)@.skip(old(out)@.len() as int)[j],
            forall|i: int| 0 <= i < final(out)@.skip(old(out)@.len() as int).len()
                ==> lo <= #[trigger] final(out)@.skip(old(out)@.len() as int)[i] < lo + pow(self.h.a as int, dd as nat),
            forall|x: Cid| #[trigger] final(out)@.skip(old(out)@.len() as int).contains(x)
                <==> lo <= x < lo + pow(self.h.a as int, dd as nat) && covers(*node, self.h.a as nat, dd as nat, x - lo),
        decreases dd,
    {
        let ghost a = self.h.a as nat;
        let ghost start = out@.len();
        let ghost before = out@;
        proof {
            lemma_pow_pos(a as int, dd as nat);
        }
        match node {
            Node::Empty => {
                proof {
                    assert(out@.skip(start as int) =~= Seq::<Cid>::empty());
                    assert(out@.take(start as int) =~= before);
                }
            },
            Node::Full => {
                let w = upow(self.h.a as u64, dd);
                let mut i: u64 = 0;
                while i < w
                    invariant
                        w == pow(a as int, dd as nat),
                        lo + w <= cid_space(),
                        i <= w,
                        out@.len() == start + i,
                        out@.take(start as int) == before,
                        forall|j: int| 0 <= j < i ==> #[trigger] out@.skip(start as int)[j] == lo + j,
                    decreases w - i,
                {
                    let ghost prev = out@;
                    out.push(lo + i);
                    proof {
                        assert(out@.take(start as int) =~= before);
                        assert forall|j: int| 0 <= j < i + 1 implies #[trigger] out@.skip(start as int)[j] == lo + j by {
                            assert(out@.skip(start as int)[j] == out@[start + j]);
                            if j < i {
                                assert(prev.skip(start as int)[j] == prev[start + j]);
                                assert(out@[start + j] == prev[start + j]);
                            }
                        }
                    }
                    i = i + 1;
                }
                proof {
                    let added = out@.skip(start as int);
                    assert forall|x: Cid| #[trigger] added.contains(x)
                        <==> lo <= x < lo + w && covers(*node, a, dd as nat, x - lo) by {
                        if lo <= x < lo + w {
                            assert(added[x - lo] == x);
                        }
                    }
                }
            },
            Node::Branch(b) => {
                proof {
                    lemma_pow_increases(a, (dd - 1) as nat, dd as nat);
                }
                let s = upow(self.h.a as u64, dd - 1);
                proof {
                    lemma_pow_succ(a as int, (dd - 1) as nat);
                    lemma_pow_pos(a as int, (dd - 1) as nat);
                    assert(out@.skip(start as int) =~= Seq::<Cid>::empty());
                    assert(out@.take(start as int) =~= before);
                }
                let n = self.h.a as usize;
                let mut k: usize = 0;
                while k < n
                    invariant
                        self.wf(),
                        *node is Branch,
                        b == node->Branch_0,
                        wf_node(*node, a, dd as nat),
                        1 <= dd <= self.d,
                        n == a,
                        a == self.h.a,
                        k <= n,
                        s == pow(a as int, (dd - 1) as nat),
                        s >= 1,
                        pow(a as int, dd as nat) == a * s,
                        lo >= 1,
                        lo + a * s <= cid_space(),
                        start <= out@.len(),
                        out@.take(start as int) == before,
                        forall|i: int, j: int| 0 <= i < j < out@.skip(start as int).len()
                            ==> out@.skip(start as int)[i] < out@.skip(start as int)[j],
                        forall|i: int| 0 <= i < out@.skip(start as int).len()
                            ==> lo <= #[trigger] out@.skip(start as int)[i] < lo + k * s,
                        forall|x: Cid| #[trigger] out@.skip(start as int).contains(x)
                            <==> lo <= x < lo + k * s && covers(*node, a, dd as nat, x - lo),
                    decreases n - k,
                {
                    let ghost mid = out@;
                    proof {
                        assert((k + 1) * s <= a * s) by (nonlinear_arith)
                            requires
                                k + 1 <= a,
                                s >= 1,
                        ;
                        lemma_mul_is_distributive_add_other_way(s as int, k as int, 1);
                        lemma_mul_is_commutative(s as int, k as int);
                        lemma_mul_is_commutative(s as int, k as int + 1);
                    }
                    self.walk_leaves(&b.children[k], lo + k as u64 * s, dd - 1, out);
                    proof {
                        let added = out@.skip(start as int);
                        let old_added = mid.skip(start as int);
                        let new_part = out@.skip(mid.len() as int);
                        let clo = lo + k * s;
                        assert(out@.take(mid.len() as int) == mid);
                        assert(added =~= old_added + new_part);
                        assert(out@.take(start as int) =~= mid.take(start as int));
                        assert forall|i: int| 0 <= i < added.len() implies lo <= #[trigger] added[i] < lo + (k + 1) * s by {
                            if i >= old_added.len() {
                                assert(added[i] == new_part[i - old_added.len()]);
                            } else {
                                assert(added[i] == old_added[i]);
                            }
                        }
                        assert forall|i: int, j: int| 0 <= i < j < added.len() implies added[i] < added[j] by {
                            if i < old_added.len() && j >= old_added.len() {
                                assert(added[i] == old_added[i]);
                                assert(added[j] == new_part[j - old_added.len()]);
                            } else if i >= old_added.len() {
                                assert(added[i] == new_part[i - old_added.len()]);
                                assert(added[j] == new_part[j - old_added.len()]);
                            } else {
                                assert(added[i] == old_added[i]);
                                assert(added[j] == old_added[j]);
                            }
                        }
                        assert forall|x: Cid| #[trigger] added.contains(x)
                            <==> lo <= x < lo + (k + 1) * s && covers(*node, a, dd as nat, x - lo) by {
                            if clo <= x < clo + s {
                                lemma_child_index(a, dd as nat, k as int, x - clo);
                                lemma_leaf_child(a, dd as nat, x - lo);
                            }
                            if added.contains(x) {
                                let i = choose|i: int| 0 <= i < added.len() && added[i] == x;
                                if i < old_added.len() {
                                    assert(old_added.contains(x));
                                } else {
                                    assert(new_part.contains(x));
                                }
                            }
                            if lo <= x < lo + (k + 1) * s && covers(*node, a, dd as nat, x - lo) {
                                if x < clo {
                                    assert(old_added.contains(x));
                                    let i = choose|i: int| 0 <= i < old_added.len() && old_added[i] == x;
                                    assert(added[i] == x);
                                } else {
                                    assert(new_part.contains(x));
                                    let i = choose|i: int| 0 <= i < new_part.len() && new_part[i] == x;
                                    assert(added[old_added.len() + i] == x);
                                }
                            }
                        }
                    }
                    k = k + 1;
                }
            },
        }
    }

    /// Every covered leaf at depth `d`, ascending.
    pub fn leaves(&self) -> (r: Vec<Cid>)
        requires
            self.wf(),
        ensures
            forall|i: int, j: int| 0 <= i < j < r@.len() ==> r@[i] < r@[j],
            forall|x: Cid| #[trigger] r@.contains(x) <==> self.covered(x as int),
    {
        let ghost a = self.h.a as nat;
        let ghost w = pow(a as int, self.d as nat);
        proof {
            lemma_pow_pos(a as int, self.d as nat);
            lemma_mul_inequality(2, (self.h.a + self.h.b) as int, w);
            assert forall|x: Cid| !(self.covered(x as int) && x < a * w) by {
                if self.covered(x as int) {
                    self.h.lemma_leaf_split(x as int);
                    lemma_mul_inequality(a as int, self.h.lead(x as int), w);
                }
            }
        }
        let span = upow(self.h.a as u64, self.d);
        let mut out: Vec<Cid> = Vec::new();
        let nb = self.h.b as usize;
        let mut b: usize = 0;
        while b < nb
            invariant
                self.wf(),
                nb == self.h.b,
                a == self.h.a,
                w == pow(a as int, self.d as nat),
                span == w,
                w >= 1,
                b <= nb,
                forall|i: int, j: int| 0 <= i < j < out@.len() ==> out@[i] < out@[j],
                forall|i: int| 0 <= i < out@.len() ==> #[trigger] out@[i] < (a + b) * w,
                forall|x: Cid| #[trigger] out@.contains(x) <==> self.covered(x as int) && x < (a + b) * w,
            decreases nb - b,
        {
            let ghost before = out@;
            proof {
                assert((a + b + 1) * w <= (self.h.a + self.h.b) * w) by (nonlinear_arith)
                    requires
                        b + 1 <= self.h.b,
                        a == self.h.a,
                        w >= 1,
                ;
                assert((a + b) * w >= 1) by (nonlinear_arith)
                    requires
                        a >= 1,
                        w >= 1,
                ;
                lemma_mul_is_distributive_add_other_way(w, a + b, 1);
                lemma_mul_is_commutative(w, a + b);
                lemma_mul_is_commutative(w, a + b + 1);
            }
            let lo = (self.h.a as u64 + b as u64) * span;
            self.walk_leaves(&self.bases[b], lo, self.d, &mut out);
            proof {
                let added = out@.skip(before.len() as int);
                assert(out@.take(before.len() as int) == before);
                assert(out@ =~= before + added);
                assert forall|i: int| 0 <= i < out@.len() implies #[trigger] out@[i] < (a + b + 1) * w by {
                    if i >= before.len() {
                        assert(added[i - before.len()] == out@[i]);
                    }
                }
                assert forall|i: int, j: int| 0 <= i < j < out@.len() implies out@[i] < out@[j] by {
                    if i < before.len() && j >= before.len() {
                        assert(added[j - before.len()] == out@[j]);
                    } else if i >= before.len() {
                        assert(added[i - before.len()] == out@[i]);
                        assert(added[j - before.len()] == out@[j]);
                    }
                }
                assert forall|x: Cid| #[trigger] out@.contains(x) <==> self.covered(x as int) && x < (a + b + 1) * w by {
                    if lo <= x < lo + w {
                        self.lemma_base_leaf(b as int, x - lo);
                    }
                    if self.covered(x as int) {
                        self.h.lemma_leaf_split(x as int);
                        let l = self.h.lead(x as int);
                        let i = x as int % w;
                        assert((x < (a + b) * w <==> l < a + b) && (x < (a + b + 1) * w <==> l < a + b + 1)) by (nonlinear_arith)
                            requires
                                x == l * w + i,
                                0 <= i < w,
                                w >= 1,
                        ;
                    }
                    if out@.contains(x) {
                        let i = choose|i: int| 0 <= i < out@.len() && out@[i] == x;
                        if i < before.len() {
                            assert(before.contains(x));
                        } else {
                            assert(added[i - before.len()] == x);
                            assert(added.contains(x));
                        }
                    }
                    if self.covered(x as int) && x < (a + b + 1) * w {
                        if x < (a + b) * w {
                            assert(before.contains(x));
                            let i = choose|i: int| 0 <= i < before.len() && before[i] == x;
                            assert(out@[i] == x);
                        } else {
                            assert(added.contains(x));
                            let i = choose|i: int| 0 <= i < added.len() && added[i] == x;
                            assert(out@[before.len() + i] == x);
                        }
                    }
                }
            }
            b = b + 1;
        }
        proof {
            assert forall|x: Cid| #[trigger] out@.contains(x) <==> self.covered(x as int) by {
                if self.covered(x as int) {
                    self.h.lemma_leaf_split(x as int);
                    let l = self.h.lead(x as int);
                    let i = x as int % w;
                    assert(x < (a + nb) * w) by (nonlinear_arith)
                        requires
                            x == l * w + i,
                            0 <= i < w,
                            l + 1 <= a + nb,
                    ;
                }
            }
        }
        out
    }

    /// Whether the whole subtree at `cid` is covered.
    pub fn covers(&self, cid: Cid) -> (r: Result<bool>)
        requires
            self.wf(),
        ensures
            r is Ok <==> self.h.is_cid(cid as int) && self.h.spec_level(cid as int) <= self.d,
            r matches Ok(v) ==> v == self.covers_cell(cid as int),
    {
        let (node, dd, exact) = self.node_at(cid)?;
        let v = matches!(node, Node::Full);
        proof {
            self.lemma_covers_cell(cid as int);
        }
        Ok(v)
    }

    pub fn empty(h: Hierarchy, d: u32, ctx: Arc<Ctx>) -> (r: Result<Tree>)
        requires
            h.valid(),
            ctx.wf(),
        ensures
            r is Ok <==> ctx.a == h.a && ctx.b == h.b && d <= ctx.depth() && h.fits(d as nat),
            r matches Ok(t) ==> t.wf() && t.h == h && t.d == d && t.ctx == ctx && t.leaf_set() == Set::<int>::empty(),
    {
        if ctx.a != h.a || ctx.b != h.b {
            return invalid("hashing context does not match the hierarchy");
        }
        if ctx.ladders.depth() < d {
            return invalid("context ladders are not deep enough for the tree");
        }
        let deepest = h.max_level();
        if d > deepest {
            proof {
                if h.fits(d as nat) {
                    h.lemma_fits_mono((deepest + 1) as nat, d as nat);
                }
            }
            return invalid("depth is deeper than the deepest level");
        }
        proof {
            h.lemma_fits_mono(d as nat, deepest as nat);
        }
        let mut bases: Vec<Node> = Vec::new();
        let mut k: u32 = 0;
        while k < h.b
            invariant
                k <= h.b,
                bases@.len() == k,
                forall|j: int| 0 <= j < k ==> #[trigger] bases@[j] is Empty,
            decreases h.b - k,
        {
            bases.push(Node::Empty);
            k = k + 1;
        }
        let t = Tree { h, d, bases, ctx };
        assert(t.leaf_set() =~= Set::<int>::empty());
        Ok(t)
    }
}


impl Clone for Tree {
    /// A copy sharing every subtree and the context.
    fn clone(&self) -> (r: Tree)
        ensures
            r.h == self.h,
            r.d == self.d,
            r.ctx == self.ctx,
            r.bases@ == self.bases@,
    {
        let n = self.bases.len();
        let mut bases: Vec<Node> = Vec::new();
        let mut j: usize = 0;
        while j < n
            invariant
                n == self.bases@.len(),
                j <= n,
                bases@ == self.bases@.take(j as int),
            decreases n - j,
        {
            bases.push(self.bases[j].clone_node());
            j = j + 1;
            assert(bases@ =~= self.bases@.take(j as int));
        }
        assert(self.bases@.take(n as int) =~= self.bases@);
        Tree { h: self.h, d: self.d, bases, ctx: self.ctx.clone() }
    }
}

/// The root is a function of the covered leaf set, the depth and the hierarchy: two canonical
/// trees covering the same leaves, however they were built, have the same root.
pub proof fn lemma_root_determined_by_leaves(t1: &Tree, t2: &Tree)
    requires
        t1.wf(),
        t2.wf(),
        t1.h == t2.h,
        t1.d == t2.d,
        t1.leaf_set() == t2.leaf_set(),
    ensures
        t1.spec_root() == t2.spec_root(),
        t1.spec_base_hashes() == t2.spec_base_hashes(),
{
    let a = t1.h.a as nat;
    let d = t1.d as nat;
    assert forall|b: int| 0 <= b < t1.h.b implies nh(t1.bases@[b], a, d) == nh(t2.bases@[b], a, d) by {
        assert forall|i: int| 0 <= i < pow(a as int, d) implies #[trigger] covers(t1.bases@[b], a, d, i) == covers(t2.bases@[b], a, d, i) by {
            t1.lemma_base_leaf(b, i);
            t2.lemma_base_leaf(b, i);
            let x = (t1.h.a + b) * pow(a as int, d) + i;
            assert(t1.leaf_set().contains(x) == t1.covered(x));
            assert(t2.leaf_set().contains(x) == t2.covered(x));
            assert(t1.leaf_set().contains(x) == t2.leaf_set().contains(x));
        }
        lemma_unique(t1.bases@[b], t2.bases@[b], a, d);
    }
    assert(t1.spec_base_hashes() =~= t2.spec_base_hashes());
}

/// The converse: absent a SHA-256 collision, two canonical trees of one hierarchy and depth with
/// one root cover the same leaves.
pub proof fn lemma_leaves_determined_by_root(t1: &Tree, t2: &Tree)
    requires
        !sha256_collision(),
        t1.wf(),
        t2.wf(),
        t1.h == t2.h,
        t1.d == t2.d,
        t1.spec_root() == t2.spec_root(),
    ensures
        t1.leaf_set() == t2.leaf_set(),
{
    let a = t1.h.a as nat;
    let d = t1.d as nat;
    let (p, q) = (t1.spec_base_hashes(), t2.spec_base_hashes());
    lemma_tagged_inj(3u8, p, 3u8, q);
    t1.ctx.lemma_rungs();
    assert forall|i: int| 0 <= i < p.len() implies (#[trigger] p[i]).len() == 32 && q[i].len() == 32 by {
        lemma_nh_len(t1.bases@[i], a, d);
        lemma_nh_len(t2.bases@[i], a, d);
    }
    lemma_concat_inj(p, q);
    assert forall|x: int| t1.leaf_set().contains(x) == t2.leaf_set().contains(x) by {
        if t1.is_leaf(x) {
            t1.h.lemma_leaf_split(x);
            let b = t1.h.lead(x) - t1.h.a;
            assert(p[b] == q[b]);
            lemma_hash_determines_cover(t1.bases@[b], t2.bases@[b], a, d);
        }
    }
    assert(t1.leaf_set() =~= t2.leaf_set());
}

/// The compact cell list is self-verifying: a tree rebuilt, at the same depth, from exactly the
/// cells of the canonical cover of `t` covers the same leaves as `t` and has the same root.
pub proof fn lemma_cells_round_trip(t: &Tree, cells: Seq<Cid>, back: &Tree)
    requires
        t.wf(),
        back.wf(),
        back.h == t.h,
        back.d == t.d,
        forall|c: Cid| #[trigger] cells.contains(c) <==> t.is_cell(c as int),
        forall|x: int| #[trigger] back.covered(x) <==> back.is_leaf(x) && Tree::under_some(t.h, cells, x),
    ensures
        back.leaf_set() == t.leaf_set(),
        back.spec_root() == t.spec_root(),
{
    let h = t.h;
    assert forall|x: int| back.leaf_set().contains(x) == t.leaf_set().contains(x) by {
        if t.is_leaf(x) {
            t.lemma_cells_tile(x);
            if t.covered(x) {
                let c = choose|c: int| #[trigger] t.is_cell(c) && h.spec_is_ancestor(c, x);
                h.lemma_leaf_split(c);
                h.lemma_fits_mono(h.spec_level(c), t.d as nat);
                let pl = pow(h.a as int, h.spec_level(c));
                assert(c < (h.a + h.b) * pl) by (nonlinear_arith)
                    requires
                        c == h.lead(c) * pl + c % pl,
                        c % pl < pl,
                        h.lead(c) + 1 <= h.a + h.b,
                ;
                let cc = c as Cid;
                assert(cells.contains(cc));
                let j = choose|j: int| 0 <= j < cells.len() && cells[j] == cc;
                assert(h.spec_is_ancestor(cells[j] as int, x));
                assert(back.covered(x));
            }
            if back.covered(x) {
                let j = choose|j: int| 0 <= j < cells.len() && h.spec_is_ancestor(#[trigger] cells[j] as int, x);
                assert(cells.contains(cells[j]));
                assert(t.is_cell(cells[j] as int));
            }
        }
    }
    assert(back.leaf_set() =~= t.leaf_set());
    lemma_root_determined_by_leaves(back, t);
}

/// `x` lies in one of the half-open ranges.
pub open spec fn in_spans(spans: Seq<(u128, u128)>, x: int) -> bool {
    exists|j: int| 0 <= j < spans.len() && spans[j].0 <= x < #[trigger] spans[j].1
}

/// Ranges in ascending order, each nonempty, with a gap between neighbours.
pub open spec fn separated(spans: Seq<(u128, u128)>) -> bool {
    &&& forall|j: int| 0 <= j < spans.len() ==> #[trigger] spans[j].0 < spans[j].1
    &&& forall|i: int, j: int| 0 <= i < j < spans.len() ==> #[trigger] spans[i].1 < #[trigger] spans[j].0
}

/// `slice::sort_unstable` on ranges: ascending in the lexicographic order of the pairs, and a
/// permutation of the input.
#[verifier::external_body]
fn sort_spans(v: &mut Vec<(u128, u128)>)
    ensures
        final(v)@.to_multiset() == old(v)@.to_multiset(),
        forall|i: int, j: int| 0 <= i < j < final(v)@.len() ==> (#[trigger] final(v)@[i]).0 <= (#[trigger] final(v)@[j]).0,
{
    v.sort_unstable();
}

/// Coalesce ranges sorted by start into separated ranges covering the same points.
fn merge_spans(sorted: &Vec<(u128, u128)>) -> (r: Vec<(u128, u128)>)
    requires
        forall|i: int, j: int| 0 <= i < j < sorted@.len() ==> (#[trigger] sorted@[i]).0 <= (#[trigger] sorted@[j]).0,
        forall|j: int| 0 <= j < sorted@.len() ==> #[trigger] sorted@[j].0 < sorted@[j].1,
    ensures
        separated(r@),
        forall|x: int| in_spans(r@, x) <==> in_spans(sorted@, x),
{
    let mut merged: Vec<(u128, u128)> = Vec::new();
    let n = sorted.len();
    let mut k: usize = 0;
    while k < n
        invariant
            n == sorted@.len(),
            k <= n,
            forall|i: int, j: int| 0 <= i < j < sorted@.len() ==> (#[trigger] sorted@[i]).0 <= (#[trigger] sorted@[j]).0,
            forall|j: int| 0 <= j < sorted@.len() ==> #[trigger] sorted@[j].0 < sorted@[j].1,
            separated(merged@),
            k == 0 <==> merged@.len() == 0,
            k > 0 ==> merged@.last().0 <= sorted@[k - 1].0,
            forall|x: int| in_spans(merged@, x) <==> in_spans(sorted@.take(k as int), x),
        decreases n - k,
    {
        let (lo, hi) = sorted[k];
        let m = merged.len();
        let ghost old_merged = merged@;
        if m > 0 && lo <= merged[m - 1].1 {
            let (l0, h0) = merged[m - 1];
            let nh = if hi > h0 { hi } else { h0 };
            merged[m - 1] = (l0, nh);
            proof {
                assert forall|x: int| in_spans(merged@, x) <==> in_spans(sorted@.take(k + 1), x) by {
                    if in_spans(merged@, x) {
                        let j = choose|j: int| 0 <= j < merged@.len() && merged@[j].0 <= x < #[trigger] merged@[j].1;
                        if j == m - 1 {
                            if x < h0 {
                                assert(old_merged[j].0 <= x < old_merged[j].1);
                                assert(in_spans(old_merged, x));
                                let i = choose|i: int| 0 <= i < sorted@.take(k as int).len() && sorted@.take(k as int)[i].0 <= x < #[trigger] sorted@.take(k as int)[i].1;
                                assert(sorted@.take(k + 1)[i] == sorted@.take(k as int)[i]);
                            } else {
                                assert(sorted@.take(k + 1)[k as int] == sorted@[k as int]);
                            }
                        } else {
                            assert(old_merged[j] == merged@[j]);
                            assert(in_spans(old_merged, x));
                            let i = choose|i: int| 0 <= i < sorted@.take(k as int).len() && sorted@.take(k as int)[i].0 <= x < #[trigger] sorted@.take(k as int)[i].1;
                            assert(sorted@.take(k + 1)[i] == sorted@.take(k as int)[i]);
                        }
                    }
                    if in_spans(sorted@.take(k + 1), x) {
                        let i = choose|i: int| 0 <= i < sorted@.take(k + 1).len() && sorted@.take(k + 1)[i].0 <= x < #[trigger] sorted@.take(k + 1)[i].1;
                        if i == k {
                            assert(merged@[m - 1].0 <= x < merged@[m - 1].1);
                        } else {
                            assert(sorted@.take(k as int)[i] == sorted@.take(k + 1)[i]);
                            assert(in_spans(sorted@.take(k as int), x));
                            assert(in_spans(old_merged, x));
                            let j = choose|j: int| 0 <= j < old_merged.len() && old_merged[j].0 <= x < #[trigger] old_merged[j].1;
                            if j == m - 1 {
                                assert(merged@[j].0 <= x < merged@[j].1);
                            } else {
                                assert(merged@[j] == old_merged[j]);
                            }
                        }
                    }
                }
            }
        } else {
            merged.push((lo, hi));
            proof {
                if m > 0 {
                    assert forall|i: int, j: int| 0 <= i < j < merged@.len() implies #[trigger] merged@[i].1 < #[trigger] merged@[j].0 by {
                        if j == m {
                            assert(old_merged[i].1 <= old_merged[m - 1].1);
                        } else {
                            assert(merged@[i] == old_merged[i]);
                            assert(merged@[j] == old_merged[j]);
                        }
                    }
                }
                assert forall|x: int| in_spans(merged@, x) <==> in_spans(sorted@.take(k + 1), x) by {
                    if in_spans(merged@, x) {
                        let j = choose|j: int| 0 <= j < merged@.len() && merged@[j].0 <= x < #[trigger] merged@[j].1;
                        if j == m {
                            assert(sorted@.take(k + 1)[k as int] == sorted@[k as int]);
                        } else {
                            assert(old_merged[j] == merged@[j]);
                            assert(in_spans(old_merged, x));
                            let i = choose|i: int| 0 <= i < sorted@.take(k as int).len() && sorted@.take(k as int)[i].0 <= x < #[trigger] sorted@.take(k as int)[i].1;
                            assert(sorted@.take(k + 1)[i] == sorted@.take(k as int)[i]);
                        }
                    }
                    if in_spans(sorted@.take(k + 1), x) {
                        let i = choose|i: int| 0 <= i < sorted@.take(k + 1).len() && sorted@.take(k + 1)[i].0 <= x < #[trigger] sorted@.take(k + 1)[i].1;
                        if i == k {
                            assert(merged@[m as int].0 <= x < merged@[m as int].1);
                        } else {
                            assert(sorted@.take(k as int)[i] == sorted@.take(k + 1)[i]);
                            assert(in_spans(sorted@.take(k as int), x));
                            assert(in_spans(old_merged, x));
                            let j = choose|j: int| 0 <= j < old_merged.len() && old_merged[j].0 <= x < #[trigger] old_merged[j].1;
                            assert(merged@[j] == old_merged[j]);
                        }
                    }
                }
            }
        }
        k = k + 1;
    }
    proof {
        assert(sorted@.take(n as int) =~= sorted@);
    }
    merged
}


/// The covered leaves under a node `d` levels above the leaves, by index.
pub open spec fn covered_in(node: Node, a: nat, d: nat) -> Set<int> {
    Set::new(|i: int| 0 <= i < pow(a as int, d) && covers(node, a, d, i))
}

/// The covered leaves among the first `m` under a node.
pub open spec fn covered_below(node: Node, a: nat, d: nat, m: int) -> Set<int> {
    Set::new(|i: int| 0 <= i < m && covers(node, a, d, i))
}

/// A finite set of integers moved by `off` keeps its size.
pub proof fn lemma_shift_len(s: Set<int>, off: int)
    requires
        s.finite(),
    ensures
        Set::new(|x: int| s.contains(x - off)).finite(),
        Set::new(|x: int| s.contains(x - off)).len() == s.len(),
{
    let f = |i: int| i + off;
    let t = Set::new(|x: int| s.contains(x - off));
    assert forall|x: int| #[trigger] t.contains(x) <==> s.map(f).contains(x) by {
        if t.contains(x) {
            assert(s.contains(x - off) && f(x - off) == x);
        }
    }
    assert(s.map(f) =~= t);
    vstd::set_lib::lemma_map_size(s, t, f);
}

/// `slice::sort_unstable` on cids: ascending, and a permutation of the input.
#[verifier::external_body]
pub(crate) fn sort_cids(v: &mut Vec<Cid>)
    ensures
        final(v)@.to_multiset() == old(v)@.to_multiset(),
        forall|i: int, j: int| 0 <= i < j < final(v)@.len() ==> final(v)@[i] <= final(v)@[j],
{
    v.sort_unstable();
}

/// In separated ranges, ends ascend as starts do.
proof fn lemma_separated_ends(spans: Seq<(u128, u128)>, i: int, j: int)
    requires
        separated(spans),
        0 <= i <= j < spans.len(),
    ensures
        spans[i].0 <= spans[j].0,
        spans[i].1 <= spans[j].1,
{
    if i < j {
        assert(spans[i].1 < spans[j].0);
        assert(spans[i].0 < spans[i].1);
        assert(spans[j].0 < spans[j].1);
    }
}

/// The first range in `[start, end)` that ends after `lo`.
fn first_ending_after(spans: &Vec<(u128, u128)>, start: usize, end: usize, lo: u128) -> (r: usize)
    requires
        separated(spans@),
        start <= end <= spans@.len(),
    ensures
        start <= r <= end,
        forall|j: int| start <= j < r ==> #[trigger] spans@[j].1 <= lo,
        forall|j: int| r <= j < end ==> #[trigger] spans@[j].1 > lo,
{
    let mut l = start;
    let mut h = end;
    while l < h
        invariant
            separated(spans@),
            start <= l <= h <= end,
            end <= spans@.len(),
            forall|j: int| start <= j < l ==> #[trigger] spans@[j].1 <= lo,
            forall|j: int| h <= j < end ==> #[trigger] spans@[j].1 > lo,
        decreases h - l,
    {
        let mid = l + (h - l) / 2;
        if spans[mid].1 <= lo {
            proof {
                assert forall|j: int| start <= j < mid + 1 implies #[trigger] spans@[j].1 <= lo by {
                    lemma_separated_ends(spans@, j, mid as int);
                }
            }
            l = mid + 1;
        } else {
            proof {
                assert forall|j: int| mid <= j < end implies #[trigger] spans@[j].1 > lo by {
                    lemma_separated_ends(spans@, mid as int, j);
                }
            }
            h = mid;
        }
    }
    l
}

/// The first range in `[start, end)` that starts at or after `hi`.
fn first_starting_from(spans: &Vec<(u128, u128)>, start: usize, end: usize, hi: u128) -> (r: usize)
    requires
        separated(spans@),
        start <= end <= spans@.len(),
    ensures
        start <= r <= end,
        forall|j: int| start <= j < r ==> #[trigger] spans@[j].0 < hi,
        forall|j: int| r <= j < end ==> #[trigger] spans@[j].0 >= hi,
{
    let mut l = start;
    let mut h = end;
    while l < h
        invariant
            separated(spans@),
            start <= l <= h <= end,
            end <= spans@.len(),
            forall|j: int| start <= j < l ==> #[trigger] spans@[j].0 < hi,
            forall|j: int| h <= j < end ==> #[trigger] spans@[j].0 >= hi,
        decreases h - l,
    {
        let mid = l + (h - l) / 2;
        if spans[mid].0 < hi {
            proof {
                assert forall|j: int| start <= j < mid + 1 implies #[trigger] spans@[j].0 < hi by {
                    lemma_separated_ends(spans@, j, mid as int);
                }
            }
            l = mid + 1;
        } else {
            proof {
                assert forall|j: int| mid <= j < end implies #[trigger] spans@[j].0 >= hi by {
                    lemma_separated_ends(spans@, mid as int, j);
                }
            }
            h = mid;
        }
    }
    l
}

/// The canonical node over the leaves `[lo, lo + width)`, `width = a^above`, covering the points
/// of the separated ranges; only ranges `[start, end)` can meet the block.
fn build(lo: u128, width: u128, above: u32, spans: &Vec<(u128, u128)>, start: usize, end: usize, ctx: &Ctx) -> (r: Node)
    requires
        ctx.wf(),
        ctx.a >= 2,
        above <= ctx.depth(),
        width == pow(ctx.a as int, above as nat),
        lo + width <= cid_space(),
        separated(spans@),
        start <= end <= spans@.len(),
        forall|j: int| 0 <= j < start ==> #[trigger] spans@[j].1 <= lo,
        forall|j: int| end <= j < spans@.len() ==> #[trigger] spans@[j].0 >= lo + width,
    ensures
        wf_node(r, ctx.a as nat, above as nat),
        forall|i: int| 0 <= i < width ==> #[trigger] covers(r, ctx.a as nat, above as nat, i) == in_spans(spans@, lo + i),
    decreases above,
{
    let hi = lo + width;
    let s = first_ending_after(spans, start, end, lo);
    let e = first_starting_from(spans, s, end, hi);
    if s == e {
        proof {
            assert forall|i: int| 0 <= i < width implies #[trigger] covers(Node::Empty, ctx.a as nat, above as nat, i) == in_spans(spans@, lo + i) by {
                if in_spans(spans@, lo + i) {
                    let j = choose|j: int| 0 <= j < spans@.len() && spans@[j].0 <= lo + i < #[trigger] spans@[j].1;
                    if j < s {
                    } else if j < end {
                    } else {
                    }
                }
            }
        }
        return Node::Empty;
    }
    let (s0, e0) = spans[s];
    if s0 <= lo && e0 >= hi {
        proof {
            assert forall|i: int| 0 <= i < width implies #[trigger] covers(Node::Full, ctx.a as nat, above as nat, i) == in_spans(spans@, lo + i) by {
                assert(spans@[s as int].0 <= lo + i < spans@[s as int].1);
            }
        }
        return Node::Full;
    }
    proof {
        if above == 0 {
            reveal(pow);
            assert(false);
        }
    }
    let a = ctx.a;
    let step = width / a as u128;
    proof {
        lemma_pow_succ(a as int, (above - 1) as nat);
        lemma_pow_pos(a as int, (above - 1) as nat);
        lemma_mul_is_commutative(a as int, pow(a as int, (above - 1) as nat));
        lemma_div_by_multiple(pow(a as int, (above - 1) as nat), a as int);
    }
    let mut children: Vec<Node> = Vec::new();
    let mut k: u32 = 0;
    while k < a
        invariant
            ctx.wf(),
            a == ctx.a,
            a >= 2,
            1 <= above <= ctx.depth(),
            step == pow(a as int, (above - 1) as nat),
            width == step * a,
            hi == lo + width,
            lo + width <= cid_space(),
            separated(spans@),
            start <= s <= e <= end <= spans@.len(),
            forall|j: int| 0 <= j < s ==> #[trigger] spans@[j].1 <= lo,
            forall|j: int| e <= j < spans@.len() ==> #[trigger] spans@[j].0 >= hi,
            k <= a,
            children@.len() == k,
            forall|j: int| 0 <= j < k ==> wf_node(#[trigger] children@[j], a as nat, (above - 1) as nat),
            forall|j: int, i: int| 0 <= j < k && 0 <= i < step ==> #[trigger] covers(children@[j], a as nat, (above - 1) as nat, i) == in_spans(spans@, lo + j * step + i),
        decreases a - k,
    {
        proof {
            lemma_mul_inequality(k as int + 1, a as int, step as int);
            lemma_mul_is_distributive_add_other_way(step as int, k as int, 1);
            lemma_mul_is_commutative(k as int + 1, step as int);
            lemma_mul_is_commutative(a as int, step as int);
            lemma_mul_nonnegative(k as int, step as int);
            assert forall|j: int| 0 <= j < s implies #[trigger] spans@[j].1 <= lo + k * step by {
                if j < start {
                } else {
                }
            }
        }
        let child_lo = lo + k as u128 * step;
        let child = build(child_lo, step, above - 1, spans, s, e, ctx);
        children.push(child);
        k = k + 1;
    }
    let r = make_branch(children, above, ctx);
    proof {
        assert forall|i: int| 0 <= i < width implies #[trigger] covers(r, ctx.a as nat, above as nat, i) == in_spans(spans@, lo + i) by {
            lemma_leaf_child(a as nat, above as nat, i);
            let j = i / (step as int);
            let m = i % (step as int);
            lemma_mul_is_commutative(j, step as int);
            assert(covers(children@[j], a as nat, (above - 1) as nat, m) == in_spans(spans@, lo + j * step + m));
        }
    }
    r
}

} // verus!
