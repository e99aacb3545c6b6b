//! Set algebra over coverage trees.
//!
//! Node-local identities on the ladder values decide a combination without descending:
//! ```text
//! union:      FULL ∪ X = FULL     EMPTY ∪ X = X
//! intersect:  EMPTY ∩ X = EMPTY   FULL ∩ X = X
//! difference: EMPTY \ X = EMPTY   X \ FULL = EMPTY   X \ EMPTY = X
//! ```
//! and equal hashes mean equal sets. A walk descends only over the interface (both partial and
//! different). The transcript records `(h_a, h_b, h_c)` per step; a verifier replays the
//! identities with no access to either tree.

use vstd::prelude::*;
use vstd::arithmetic::power::*;
use crate::error::{invalid, Error, Result};
use crate::hash::{digest_eq, ladder, lemma_concat_inj, lemma_tagged_inj, rungs_are_digests, sha256_collision, sha256_id, spec_node, spec_root, str_is, views, Ctx, Digest, Hasher};
use crate::hierarchy::{Cid, Hierarchy};
use crate::opening::{spec_valid_shape, valid_shape};
use crate::tree::{child_hashes, covers, kid_hashes, lemma_cover_child, lemma_leaf_child, lemma_hash_determines_cover, lemma_nh_len, lemma_node_hash_form, make_branch, nh, node_hash, spec_child, wf_node, Node, Tree};

verus! {

/// The three set operations.
#[derive(Debug, Clone, Copy, PartialEq, Eq, Structural)]
pub enum Op {
    Union,
    Intersect,
    Difference,
}

/// The wire name of an operation.
pub open spec fn spec_op_name(op: Op) -> Seq<char> {
    match op {
        Op::Union => seq!['u', 'n', 'i', 'o', 'n'],
        Op::Intersect => seq!['i', 'n', 't', 'e', 'r', 's', 'e', 'c', 't'],
        Op::Difference => seq!['d', 'i', 'f', 'f', 'e', 'r', 'e', 'n', 'c', 'e'],
    }
}

/// The operation a wire name names.
pub open spec fn spec_op_parse(s: Seq<char>) -> Option<Op> {
    if s == spec_op_name(Op::Union) {
        Some(Op::Union)
    } else if s == spec_op_name(Op::Intersect) {
        Some(Op::Intersect)
    } else if s == spec_op_name(Op::Difference) {
        Some(Op::Difference)
    } else {
        None
    }
}

/// Whether a leaf is in the result, from whether it is in each operand.
pub open spec fn spec_apply(op: Op, x: bool, y: bool) -> bool {
    match op {
        Op::Union => x || y,
        Op::Intersect => x && y,
        Op::Difference => x && !y,
    }
}

/// The operation on sets.
pub open spec fn spec_set_op(op: Op, s1: Set<int>, s2: Set<int>) -> Set<int> {
    match op {
        Op::Union => s1.union(s2),
        Op::Intersect => s1.intersect(s2),
        Op::Difference => s1.difference(s2),
    }
}

/// An operation's wire name says what it does to leaf sets: `union` joins them, `intersect` keeps
/// the shared leaves, `difference` keeps the first's leaves outside the second; every operation
/// has one of these names, and each name reads back as the operation that does that.
pub proof fn lemma_op_names(op: Op, s1: Set<int>, s2: Set<int>)
    ensures
        spec_op_name(op) == seq!['u', 'n', 'i', 'o', 'n'] || spec_op_name(op) == seq!['i', 'n', 't', 'e', 'r', 's', 'e', 'c', 't']
            || spec_op_name(op) == seq!['d', 'i', 'f', 'f', 'e', 'r', 'e', 'n', 'c', 'e'],
        spec_op_name(op) == seq!['u', 'n', 'i', 'o', 'n'] ==> spec_set_op(op, s1, s2) == s1.union(s2),
        spec_op_name(op) == seq!['i', 'n', 't', 'e', 'r', 's', 'e', 'c', 't'] ==> spec_set_op(op, s1, s2) == s1.intersect(s2),
        spec_op_name(op) == seq!['d', 'i', 'f', 'f', 'e', 'r', 'e', 'n', 'c', 'e'] ==> spec_set_op(op, s1, s2) == s1.difference(s2),
        spec_op_parse(seq!['u', 'n', 'i', 'o', 'n']) matches Some(o) && spec_set_op(o, s1, s2) == s1.union(s2),
        spec_op_parse(seq!['i', 'n', 't', 'e', 'r', 's', 'e', 'c', 't']) matches Some(o) && spec_set_op(o, s1, s2) == s1.intersect(s2),
        spec_op_parse(seq!['d', 'i', 'f', 'f', 'e', 'r', 'e', 'n', 'c', 'e']) matches Some(o) && spec_set_op(o, s1, s2) == s1.difference(s2),
        spec_op_parse(spec_op_name(op)) == Some(op),
{
    let (u, i, d) = (seq!['u', 'n', 'i', 'o', 'n'], seq!['i', 'n', 't', 'e', 'r', 's', 'e', 'c', 't'], seq!['d', 'i', 'f', 'f', 'e', 'r', 'e', 'n', 'c', 'e']);
    assert(u != i && u != d && i != d) by {
        assert(u.len() != i.len() && u.len() != d.len());
        assert(i[0] != d[0]);
    }
}

impl Op {
    pub fn name(self) -> (r: &'static str)
        ensures
            r@ == spec_op_name(self),
    {
        proof {
            reveal_strlit("union");
            reveal_strlit("intersect");
            reveal_strlit("difference");
        }
        match self {
            Op::Union => "union",
            Op::Intersect => "intersect",
            Op::Difference => "difference",
        }
    }

    pub fn parse(s: &str) -> (r: Option<Op>)
        ensures
            r == spec_op_parse(s@),
    {
        proof {
            reveal_strlit("union");
            reveal_strlit("intersect");
            reveal_strlit("difference");
            assert("union"@ =~= spec_op_name(Op::Union));
            assert("intersect"@ =~= spec_op_name(Op::Intersect));
            assert("difference"@ =~= spec_op_name(Op::Difference));
        }
        if str_is(s, "union") {
            Some(Op::Union)
        } else if str_is(s, "intersect") {
            Some(Op::Intersect)
        } else if str_is(s, "difference") {
            Some(Op::Difference)
        } else {
            None
        }
    }
}

/// The identities: the result hash at a node with hashes `ha` and `hb`, given the empty and full
/// ladder values `e` and `f` there, or `None` when both are partial and differ.
pub open spec fn spec_rule(op: Op, ha: Seq<u8>, hb: Seq<u8>, e: Seq<u8>, f: Seq<u8>) -> Option<Seq<u8>> {
    if ha == hb {
        Some(if op == Op::Difference { e } else { ha })
    } else {
        match op {
            Op::Union => if ha == f || hb == f {
                Some(f)
            } else if ha == e {
                Some(hb)
            } else if hb == e {
                Some(ha)
            } else {
                None
            },
            Op::Intersect => if ha == e || hb == e {
                Some(e)
            } else if ha == f {
                Some(hb)
            } else if hb == f {
                Some(ha)
            } else {
                None
            },
            Op::Difference => if ha == e || hb == f {
                Some(e)
            } else if hb == e {
                Some(ha)
            } else {
                None
            },
        }
    }
}

/// The identities at `d` levels above the leaves of aperture `a`.
pub open spec fn rule_at(op: Op, ha: Seq<u8>, hb: Seq<u8>, a: nat, d: nat) -> Option<Seq<u8>> {
    spec_rule(op, ha, hb, ladder(false, a, d), ladder(true, a, d))
}

/// A digest, if any, as its bytes.
pub open spec fn opt_view(o: Option<Digest>) -> Option<Seq<u8>> {
    match o {
        Some(x) => Some(x@),
        None => None,
    }
}

/// The result hash at a node, or `None` if both operands are partial and differ.
pub fn rule(op: Op, ha: &Digest, hb: &Digest, d: u32, ctx: &Ctx) -> (r: Option<Digest>)
    requires
        ctx.wf(),
        d <= ctx.depth(),
    ensures
        opt_view(r) == rule_at(op, ha@, hb@, ctx.a as nat, d as nat),
{
    let f = ctx.ladders.full(d);
    let e = ctx.ladders.empty(d);
    if digest_eq(ha, hb) {
        return Some(
            match op {
                Op::Difference => e,
                _ => *ha,
            },
        );
    }
    match op {
        Op::Union => {
            if digest_eq(ha, &f) || digest_eq(hb, &f) {
                Some(f)
            } else if digest_eq(ha, &e) {
                Some(*hb)
            } else if digest_eq(hb, &e) {
                Some(*ha)
            } else {
                None
            }
        },
        Op::Intersect => {
            if digest_eq(ha, &e) || digest_eq(hb, &e) {
                Some(e)
            } else if digest_eq(ha, &f) {
                Some(*hb)
            } else if digest_eq(hb, &f) {
                Some(*ha)
            } else {
                None
            }
        },
        Op::Difference => {
            if digest_eq(ha, &e) || digest_eq(hb, &f) {
                Some(e)
            } else if digest_eq(hb, &e) {
                Some(*ha)
            } else {
                None
            }
        },
    }
}

/// The hash of the combination of two nodes `d` levels above the leaves: the identity where one
/// decides, else the node over the combinations of the children.
pub open spec fn combined_hash(na: Node, nb: Node, op: Op, a: nat, d: nat) -> Seq<u8>
    decreases d, 1nat,
{
    match rule_at(op, nh(na, a, d), nh(nb, a, d), a, d) {
        Some(r) => r,
        None => spec_node(combined_kids(na, nb, op, a, d)),
    }
}

/// The hashes of the combinations of the children of two nodes `d` levels above the leaves.
pub open spec fn combined_kids(na: Node, nb: Node, op: Op, a: nat, d: nat) -> Seq<Seq<u8>>
    decreases d, 0nat,
{
    if d == 0 {
        Seq::empty()
    } else {
        Seq::new(a, |k: int| combined_hash(spec_child(na, k), spec_child(nb, k), op, a, (d - 1) as nat))
    }
}

/// The root of the combination of two trees.
pub open spec fn combined_root(t1: Tree, t2: Tree, op: Op) -> Seq<u8> {
    spec_root(Seq::new(t1.h.b as nat, |i: int| combined_hash(t1.bases@[i], t2.bases@[i], op, t1.h.a as nat, t1.d as nat)))
}

/// The canonical combination of two canonical nodes `d` levels above the leaves.
fn combine_nodes(na: &Node, nb: &Node, op: Op, d: u32, ctx: &Ctx) -> (r: Node)
    requires
        ctx.wf(),
        ctx.a >= 2,
        d <= ctx.depth(),
        wf_node(*na, ctx.a as nat, d as nat),
        wf_node(*nb, ctx.a as nat, d as nat),
    ensures
        wf_node(r, ctx.a as nat, d as nat),
        nh(r, ctx.a as nat, d as nat) == combined_hash(*na, *nb, op, ctx.a as nat, d as nat),
        !sha256_collision() ==> forall|i: int| 0 <= i < pow(ctx.a as int, d as nat) ==> #[trigger] covers(r, ctx.a as nat, d as nat, i)
            == spec_apply(op, covers(*na, ctx.a as nat, d as nat, i), covers(*nb, ctx.a as nat, d as nat, i)),
    decreases d,
{
    let ghost a = ctx.a as nat;
    let ha = node_hash(na, d, ctx);
    let hb = node_hash(nb, d, ctx);
    if let Some(r) = rule(op, &ha, &hb, d, ctx) {
        let e = ctx.ladders.empty(d);
        let f = ctx.ladders.full(d);
        let res = if digest_eq(&r, &e) {
            Node::Empty
        } else if digest_eq(&r, &f) {
            Node::Full
        } else if digest_eq(&r, &ha) {
            na.clone_node()
        } else {
            nb.clone_node()
        };
        proof {
            assert(rule_at(op, ha@, hb@, a, d as nat) == Some(r@));
            assert(combined_hash(*na, *nb, op, a, d as nat) == r@);
            assert(nh(res, a, d as nat) == r@);
            if !sha256_collision() {
                ctx.lemma_rungs();
                assert(rungs_are_digests(a, d as nat));
                if ha@ == e@ {
                    lemma_hash_determines_cover(*na, Node::Empty, a, d as nat);
                }
                if ha@ == f@ {
                    lemma_hash_determines_cover(*na, Node::Full, a, d as nat);
                }
                if hb@ == e@ {
                    lemma_hash_determines_cover(*nb, Node::Empty, a, d as nat);
                }
                if hb@ == f@ {
                    lemma_hash_determines_cover(*nb, Node::Full, a, d as nat);
                }
                if ha@ == hb@ {
                    lemma_hash_determines_cover(*na, *nb, a, d as nat);
                }
                assert forall|i: int| 0 <= i < pow(a as int, d as nat) implies #[trigger] covers(res, a, d as nat, i)
                    == spec_apply(op, covers(*na, a, d as nat, i), covers(*nb, a, d as nat, i)) by {
                    assert(covers(Node::Empty, a, d as nat, i) == false);
                    assert(covers(Node::Full, a, d as nat, i) == true);
                }
            }
        }
        return res;
    }
    proof {
        if d == 0 {
            assert(!(*na is Branch) && !(*nb is Branch));
            assert(false);
        }
        lemma_node_hash_form(*na, a, d as nat);
        lemma_node_hash_form(*nb, a, d as nat);
    }
    let n = ctx.a as usize;
    let mut kids: Vec<Node> = Vec::new();
    let mut k: usize = 0;
    while k < n
        invariant
            ctx.wf(),
            ctx.a >= 2,
            1 <= d <= ctx.depth(),
            n == a,
            a == ctx.a,
            k <= n,
            *na is Branch ==> na->Branch_0.children@.len() == n,
            *nb is Branch ==> nb->Branch_0.children@.len() == n,
            forall|j: int| 0 <= j < a ==> wf_node(#[trigger] spec_child(*na, j), a, (d - 1) as nat),
            forall|j: int| 0 <= j < a ==> wf_node(#[trigger] spec_child(*nb, j), a, (d - 1) as nat),
            kids@.len() == k,
            forall|j: int| 0 <= j < k ==> wf_node(#[trigger] kids@[j], a, (d - 1) as nat),
            forall|j: int| 0 <= j < k ==> nh(#[trigger] kids@[j], a, (d - 1) as nat)
                == combined_hash(spec_child(*na, j), spec_child(*nb, j), op, a, (d - 1) as nat),
            !sha256_collision() ==> forall|j: int, i: int| 0 <= j < k && 0 <= i < pow(a as int, (d - 1) as nat)
                ==> #[trigger] covers(kids@[j], a, (d - 1) as nat, i)
                == spec_apply(op, covers(spec_child(*na, j), a, (d - 1) as nat, i), covers(spec_child(*nb, j), a, (d - 1) as nat, i)),
        decreases n - k,
    {
        let kid = combine_nodes(&na.child(k), &nb.child(k), op, d - 1, ctx);
        kids.push(kid);
        k = k + 1;
    }
    let ghost kids_v = kids@;
    let r = make_branch(kids, d, ctx);
    proof {
        assert(crate::tree::child_hashes(kids_v, a, d as nat) =~= combined_kids(*na, *nb, op, a, d as nat));
        if !sha256_collision() {
            assert forall|i: int| 0 <= i < pow(a as int, d as nat) implies #[trigger] covers(r, a, d as nat, i)
                == spec_apply(op, covers(*na, a, d as nat, i), covers(*nb, a, d as nat, i)) by {
                crate::tree::lemma_leaf_child(a, d as nat, i);
                lemma_cover_child(*na, a, d as nat, i);
                lemma_cover_child(*nb, a, d as nat, i);
                let s = pow(a as int, (d - 1) as nat);
                let j = i / s;
                assert(covers(r, a, d as nat, i) == covers(kids_v[j], a, (d - 1) as nat, i % s));
                assert(covers(kids_v[j], a, (d - 1) as nat, i % s) == spec_apply(op, covers(spec_child(*na, j), a, (d - 1) as nat, i % s), covers(spec_child(*nb, j), a, (d - 1) as nat, i % s)));
            }
        }
    }
    r
}

/// Two trees can be combined: one hierarchy, one depth (a depth is part of a root's identity)
/// and one hash.
fn compatible(t1: &Tree, t2: &Tree) -> (r: Result<()>)
    ensures
        r is Ok <==> t1.h == t2.h && t1.d == t2.d,
{
    if t1.h != t2.h {
        return invalid("topology mismatch");
    }
    if t1.d != t2.d {
        return invalid("depth mismatch; depth is part of a root's identity");
    }
    if !str_is(t1.ctx.hasher.id(), t2.ctx.hasher.id()) {
        return invalid("hash mismatch");
    }
    Ok(())
}

/// The combination of two trees of one hierarchy and depth.
pub fn combine(t1: &Tree, t2: &Tree, op: Op) -> (r: Result<Tree>)
    requires
        t1.wf(),
        t2.wf(),
    ensures
        r is Ok <==> t1.h == t2.h && t1.d == t2.d,
        r matches Ok(t) ==> t.wf() && t.h == t1.h && t.d == t1.d && t.ctx == t1.ctx
            && t.spec_root() == combined_root(*t1, *t2, op)
            && (!sha256_collision() ==> t.leaf_set() == spec_set_op(op, t1.leaf_set(), t2.leaf_set())),
{
    compatible(t1, t2)?;
    let ctx = &t1.ctx;
    let ghost a = t1.h.a as nat;
    let nb = t1.h.b as usize;
    let mut bases: Vec<Node> = Vec::new();
    let mut i: usize = 0;
    while i < nb
        invariant
            t1.wf(),
            t2.wf(),
            t1.h == t2.h,
            t1.d == t2.d,
            ctx == &t1.ctx,
            a == t1.h.a,
            nb == t1.h.b,
            i <= nb,
            bases@.len() == i,
            forall|j: int| 0 <= j < i ==> wf_node(#[trigger] bases@[j], a, t1.d as nat),
            forall|j: int| 0 <= j < i ==> nh(#[trigger] bases@[j], a, t1.d as nat)
                == combined_hash(t1.bases@[j], t2.bases@[j], op, a, t1.d as nat),
            !sha256_collision() ==> forall|j: int, x: int| 0 <= j < i && 0 <= x < pow(a as int, t1.d as nat)
                ==> #[trigger] covers(bases@[j], a, t1.d as nat, x)
                == spec_apply(op, covers(t1.bases@[j], a, t1.d as nat, x), covers(t2.bases@[j], a, t1.d as nat, x)),
        decreases nb - i,
    {
        bases.push(combine_nodes(&t1.bases[i], &t2.bases[i], op, t1.d, ctx));
        i = i + 1;
    }
    let t = Tree { h: t1.h, d: t1.d, bases, ctx: t1.ctx.clone() };
    proof {
        assert(t.spec_base_hashes() =~= Seq::new(t1.h.b as nat, |i: int| combined_hash(t1.bases@[i], t2.bases@[i], op, a, t1.d as nat)));
        if !sha256_collision() {
            assert forall|x: int| t.leaf_set().contains(x) == spec_set_op(op, t1.leaf_set(), t2.leaf_set()).contains(x) by {
                if t.is_leaf(x) {
                    t1.h.lemma_leaf_split(x);
                }
            }
            assert(t.leaf_set() =~= spec_set_op(op, t1.leaf_set(), t2.leaf_set()));
        }
    }
    Ok(t)
}

pub fn union(t1: &Tree, t2: &Tree) -> (r: Result<Tree>)
    requires
        t1.wf(),
        t2.wf(),
    ensures
        r is Ok <==> t1.h == t2.h && t1.d == t2.d,
        r matches Ok(t) ==> t.wf() && t.h == t1.h && t.d == t1.d && t.ctx == t1.ctx
            && t.spec_root() == combined_root(*t1, *t2, Op::Union)
            && (!sha256_collision() ==> t.leaf_set() == t1.leaf_set().union(t2.leaf_set())),
{
    combine(t1, t2, Op::Union)
}

pub fn intersect(t1: &Tree, t2: &Tree) -> (r: Result<Tree>)
    requires
        t1.wf(),
        t2.wf(),
    ensures
        r is Ok <==> t1.h == t2.h && t1.d == t2.d,
        r matches Ok(t) ==> t.wf() && t.h == t1.h && t.d == t1.d && t.ctx == t1.ctx
            && t.spec_root() == combined_root(*t1, *t2, Op::Intersect)
            && (!sha256_collision() ==> t.leaf_set() == t1.leaf_set().intersect(t2.leaf_set())),
{
    combine(t1, t2, Op::Intersect)
}

pub fn difference(t1: &Tree, t2: &Tree) -> (r: Result<Tree>)
    requires
        t1.wf(),
        t2.wf(),
    ensures
        r is Ok <==> t1.h == t2.h && t1.d == t2.d,
        r matches Ok(t) ==> t.wf() && t.h == t1.h && t.d == t1.d && t.ctx == t1.ctx
            && t.spec_root() == combined_root(*t1, *t2, Op::Difference)
            && (!sha256_collision() ==> t.leaf_set() == t1.leaf_set().difference(t2.leaf_set())),
{
    combine(t1, t2, Op::Difference)
}

/// The covered leaves of any of the trees.
pub open spec fn union_all(trees: Seq<Tree>) -> Set<int>
    decreases trees.len(),
{
    if trees.len() == 0 {
        Set::empty()
    } else {
        union_all(trees.drop_last()).union(trees.last().leaf_set())
    }
}

/// Union of one or more trees.
pub fn merge(trees: &[Tree]) -> (r: Result<Tree>)
    requires
        forall|i: int| 0 <= i < trees@.len() ==> (#[trigger] trees@[i]).wf(),
    ensures
        r is Ok <==> trees@.len() >= 1 && forall|i: int| 0 <= i < trees@.len() ==> (#[trigger] trees@[i]).h == trees@[0].h
            && trees@[i].d == trees@[0].d,
        r matches Ok(t) ==> t.wf() && t.h == trees@[0].h && t.d == trees@[0].d
            && (!sha256_collision() ==> t.leaf_set() == union_all(trees@)),
{
    let n = trees.len();
    if n == 0 {
        return invalid("merge() needs at least one tree");
    }
    let mut acc = trees[0].clone();
    proof {
        assert(acc.leaf_set() =~= trees@[0].leaf_set());
        let first = trees@.take(1);
        assert(first.drop_last() =~= Seq::<Tree>::empty());
        assert(union_all(first.drop_last()) =~= Set::<int>::empty());
        assert(first.last() == trees@[0]);
        assert(union_all(first) =~= trees@[0].leaf_set());
    }
    let mut i: usize = 1;
    while i < n
        invariant
            n == trees@.len(),
            1 <= i <= n,
            forall|j: int| 0 <= j < trees@.len() ==> (#[trigger] trees@[j]).wf(),
            forall|j: int| 0 <= j < i ==> (#[trigger] trees@[j]).h == trees@[0].h && trees@[j].d == trees@[0].d,
            acc.wf(),
            acc.h == trees@[0].h,
            acc.d == trees@[0].d,
            !sha256_collision() ==> acc.leaf_set() == union_all(trees@.take(i as int)),
        decreases n - i,
    {
        acc = union(&acc, &trees[i])?;
        proof {
            assert(trees@.take(i + 1).drop_last() =~= trees@.take(i as int));
        }
        i = i + 1;
    }
    proof {
        assert(trees@.take(n as int) =~= trees@);
    }
    Ok(acc)
}

/// A canonical tree of this hierarchy and depth with this root covers some leaf exactly when
/// `v` holds.
pub open spec fn root_says(h: Hierarchy, d: u32, root: Seq<u8>, v: bool) -> bool {
    exists|t: Tree| #[trigger] t.spec_root() == root && t.wf() && t.h == h && t.d == d && v == (t.leaf_set() != Set::<int>::empty())
}

/// Whether the trees share a covered leaf: whether the canonical tree with the combined root of
/// their intersection covers a leaf, and so, absent a collision, whether their leaf sets meet.
pub fn intersects(t1: &Tree, t2: &Tree) -> (r: Result<bool>)
    requires
        t1.wf(),
        t2.wf(),
    ensures
        r is Ok <==> t1.h == t2.h && t1.d == t2.d,
        r matches Ok(v) ==> root_says(t1.h, t1.d, combined_root(*t1, *t2, Op::Intersect), v),
        r matches Ok(v) ==> (!sha256_collision() ==> v == (t1.leaf_set().intersect(t2.leaf_set()) != Set::<int>::empty())),
{
    let t = intersect(t1, t2)?;
    let v = !t.is_empty();
    proof {
        assert(t.spec_root() == combined_root(*t1, *t2, Op::Intersect) && t.wf() && t.h == t1.h && t.d == t1.d
            && v == (t.leaf_set() != Set::<int>::empty()));
    }
    Ok(v)
}

/// Whether the trees share no covered leaf: whether the canonical tree with the combined root of
/// their intersection covers none, and so, absent a collision, whether their leaf sets are apart.
pub fn disjoint(t1: &Tree, t2: &Tree) -> (r: Result<bool>)
    requires
        t1.wf(),
        t2.wf(),
    ensures
        r is Ok <==> t1.h == t2.h && t1.d == t2.d,
        r matches Ok(v) ==> root_says(t1.h, t1.d, combined_root(*t1, *t2, Op::Intersect), !v),
        r matches Ok(v) ==> (!sha256_collision() ==> v == (t1.leaf_set().intersect(t2.leaf_set()) == Set::<int>::empty())),
{
    let t = intersect(t1, t2)?;
    let v = t.is_empty();
    proof {
        assert(t.spec_root() == combined_root(*t1, *t2, Op::Intersect) && t.wf() && t.h == t1.h && t.d == t1.d
            && !v == (t.leaf_set() != Set::<int>::empty()));
    }
    Ok(v)
}

/// Whether every leaf of `t2` is a leaf of `t1`, B ⊆ A: whether the canonical tree with the
/// combined root of B minus A covers no leaf, and so, absent a collision, whether B's leaves are
/// among A's.
pub fn contains(t1: &Tree, t2: &Tree) -> (r: Result<bool>)
    requires
        t1.wf(),
        t2.wf(),
    ensures
        r is Ok <==> t1.h == t2.h && t1.d == t2.d,
        r matches Ok(v) ==> root_says(t1.h, t1.d, combined_root(*t2, *t1, Op::Difference), !v),
        r matches Ok(v) ==> (!sha256_collision() ==> v == t2.leaf_set().subset_of(t1.leaf_set())),
{
    let d = difference(t2, t1)?;
    let v = d.is_empty();
    proof {
        assert(d.spec_root() == combined_root(*t2, *t1, Op::Difference) && d.wf() && d.h == t1.h && d.d == t1.d
            && !v == (d.leaf_set() != Set::<int>::empty()));
        if !sha256_collision() {
            if v {
                assert forall|x: int| t2.leaf_set().contains(x) implies t1.leaf_set().contains(x) by {
                    assert(!d.leaf_set().contains(x));
                }
            } else {
                assert(d.leaf_set() != Set::<int>::empty());
                let x = choose|x: int| !(d.leaf_set().contains(x) == Set::<int>::empty().contains(x));
                assert(d.leaf_set() =~= Set::<int>::empty() || d.leaf_set().contains(x));
            }
        }
    }
    Ok(v)
}

/// One step of a transcript: the two operand hashes and the result hash at a node, with the
/// children's steps where the identities did not decide.
#[derive(Debug, PartialEq, Eq)]
pub struct Step {
    pub a: Digest,
    pub b: Digest,
    pub c: Digest,
    pub children: Option<Vec<Step>>,
}

/// A deep copy of a step.
fn copy_step(s: &Step) -> (r: Step)
    ensures
        r.a == s.a,
        r.b == s.b,
        r.c == s.c,
        r.children is Some <==> s.children is Some,
        r.children matches Some(k) ==> k@.len() == s.children->0@.len(),
    decreases *s,
{
    let children = match &s.children {
        Some(k) => {
            let n = k.len();
            let mut v: Vec<Step> = Vec::new();
            let mut i: usize = 0;
            while i < n
                invariant
                    n == k@.len(),
                    s.children == Some(*k),
                    i <= n,
                    v@.len() == i,
                decreases n - i,
            {
                proof {
                    assert(decreases_to!(*s => s.children));
                    assert(decreases_to!(s.children => s.children->0));
                    assert(decreases_to!(*k => k@));
                    assert(decreases_to!(k@ => k@[i as int]));
                }
                v.push(copy_step(&k[i]));
                i = i + 1;
            }
            Some(v)
        },
        None => None,
    };
    Step { a: s.a, b: s.b, c: s.c, children }
}

impl Clone for Step {
    fn clone(&self) -> (r: Step)
        ensures
            r.a == self.a,
            r.b == self.b,
            r.c == self.c,
            r.children is Some <==> self.children is Some,
    {
        copy_step(self)
    }
}

/// The operand-`a` hashes of steps.
pub open spec fn col_a(ks: Seq<Step>) -> Seq<Seq<u8>> {
    ks.map_values(|s: Step| s.a@)
}

/// The operand-`b` hashes of steps.
pub open spec fn col_b(ks: Seq<Step>) -> Seq<Seq<u8>> {
    ks.map_values(|s: Step| s.b@)
}

/// The result hashes of steps.
pub open spec fn col_c(ks: Seq<Step>) -> Seq<Seq<u8>> {
    ks.map_values(|s: Step| s.c@)
}

/// A step `d` levels above the leaves replays: where the identities decide, it has no children
/// and its result is theirs; elsewhere it has `a` children that replay one level down, and each
/// of its three hashes is the node over the children's.
pub open spec fn step_ok(s: Step, d: nat, op: Op, a: nat) -> bool
    decreases s,
{
    match rule_at(op, s.a@, s.b@, a, d) {
        Some(r) => s.children is None && s.c@ == r,
        None => match s.children {
            Some(k) => {
                &&& d > 0
                &&& k@.len() == a
                &&& forall|i: int| 0 <= i < k@.len() ==> step_ok(#[trigger] k@[i], (d - 1) as nat, op, a)
                &&& s.a@ == spec_node(col_a(k@))
                &&& s.b@ == spec_node(col_b(k@))
                &&& s.c@ == spec_node(col_c(k@))
            },
            None => false,
        },
    }
}

/// The number of steps in a step and all its descendants.
pub open spec fn step_count(s: Step) -> nat
    decreases s, 1nat,
{
    1 + match s.children {
        Some(k) => steps_count(k@),
        None => 0,
    }
}

/// The number of steps in a list of steps and all their descendants.
pub open spec fn steps_count(ks: Seq<Step>) -> nat
    decreases ks, 0nat,
{
    if ks.len() == 0 {
        0
    } else {
        steps_count(ks.drop_last()) + step_count(ks.last())
    }
}

/// A prefix of a list has no more steps than the list.
proof fn lemma_steps_count_prefix(ks: Seq<Step>, i: int)
    requires
        0 <= i <= ks.len(),
    ensures
        steps_count(ks.take(i)) <= steps_count(ks),
    decreases ks.len() - i,
{
    if i < ks.len() {
        lemma_steps_count_prefix(ks, i + 1);
        assert(ks.take(i + 1).drop_last() =~= ks.take(i));
    } else {
        assert(ks.take(i) =~= ks);
    }
}

fn count_step(s: &Step) -> (r: usize)
    requires
        step_count(*s) <= usize::MAX,
    ensures
        r == step_count(*s),
    decreases *s,
{
    match &s.children {
        None => 1,
        Some(k) => {
            let n = k.len();
            let mut total: usize = 0;
            let mut i: usize = 0;
            while i < n
                invariant
                    n == k@.len(),
                    i <= n,
                    s.children == Some(*k),
                    step_count(*s) <= usize::MAX,
                    step_count(*s) == 1 + steps_count(k@),
                    total == steps_count(k@.take(i as int)),
                decreases n - i,
            {
                proof {
                    lemma_steps_count_prefix(k@, i + 1);
                    assert(k@.take(i + 1).drop_last() =~= k@.take(i as int));
                    assert(k@.take(i + 1).last() == k@[i as int]);
                }
                let c = count_step(&k[i]);
                total = total + c;
                i = i + 1;
            }
            proof {
                assert(k@.take(n as int) =~= k@);
            }
            1 + total
        },
    }
}

/// Evidence that `root_c = root_a ⊕ root_b` for `op`; size O(interface).
#[derive(Debug, PartialEq, Eq)]
pub struct SetOpProof {
    pub op: Op,
    pub hash: String,
    pub root_a: Digest,
    pub root_b: Digest,
    pub root_c: Digest,
    pub a: u32,
    pub b: u32,
    pub d: u32,
    pub steps: Vec<Step>,
}

impl Clone for SetOpProof {
    fn clone(&self) -> (r: SetOpProof)
        ensures
            r.op == self.op,
            r.hash@ == self.hash@,
            r.root_a == self.root_a,
            r.root_b == self.root_b,
            r.root_c == self.root_c,
            r.a == self.a,
            r.b == self.b,
            r.d == self.d,
            r.steps@.len() == self.steps@.len(),
    {
        let n = self.steps.len();
        let mut steps: Vec<Step> = Vec::new();
        let mut i: usize = 0;
        while i < n
            invariant
                n == self.steps@.len(),
                i <= n,
                steps@.len() == i,
            decreases n - i,
        {
            steps.push(copy_step(&self.steps[i]));
            i = i + 1;
        }
        SetOpProof {
            op: self.op,
            hash: self.hash.clone(),
            root_a: self.root_a,
            root_b: self.root_b,
            root_c: self.root_c,
            a: self.a,
            b: self.b,
            d: self.d,
            steps,
        }
    }
}

impl SetOpProof {
    /// The transcript replays: a known hash, a valid shape, one step per base cell, each
    /// replaying, and the three roots over the base steps' hashes.
    pub open spec fn spec_verifies(&self) -> bool {
        &&& self.hash@ == sha256_id()
        &&& spec_valid_shape(self.a, self.b, self.d)
        &&& self.steps@.len() == self.b
        &&& forall|i: int| 0 <= i < self.steps@.len() ==> step_ok(#[trigger] self.steps@[i], self.d as nat, self.op, self.a as nat)
        &&& spec_root(col_a(self.steps@)) == self.root_a@
        &&& spec_root(col_b(self.steps@)) == self.root_b@
        &&& spec_root(col_c(self.steps@)) == self.root_c@
    }

    /// The number of steps.
    pub fn size(&self) -> (r: usize)
        requires
            steps_count(self.steps@) <= usize::MAX,
        ensures
            r == steps_count(self.steps@),
    {
        let n = self.steps.len();
        let mut total: usize = 0;
        let mut i: usize = 0;
        while i < n
            invariant
                n == self.steps@.len(),
                i <= n,
                steps_count(self.steps@) <= usize::MAX,
                total == steps_count(self.steps@.take(i as int)),
            decreases n - i,
        {
            proof {
                lemma_steps_count_prefix(self.steps@, i + 1);
                assert(self.steps@.take(i + 1).drop_last() =~= self.steps@.take(i as int));
                assert(self.steps@.take(i + 1).last() == self.steps@[i as int]);
            }
            let c = count_step(&self.steps[i]);
            total = total + c;
            i = i + 1;
        }
        proof {
            assert(self.steps@.take(n as int) =~= self.steps@);
        }
        total
    }

    /// Replay the identities; `false` on any defect. Never panics.
    pub fn verify(&self) -> (r: bool)
        ensures
            r == self.spec_verifies(),
    {
        let h = match crate::hash::hasher_for(self.hash.as_str()) {
            Some(h) => h,
            None => return false,
        };
        if !valid_shape(self.a, self.b, self.d) || self.steps.len() != self.b as usize {
            return false;
        }
        let ctx = Ctx::new(h, self.a, self.b, self.d);
        let n = self.steps.len();
        let mut i: usize = 0;
        while i < n
            invariant
                n == self.steps@.len(),
                i <= n,
                ctx.wf(),
                ctx.a == self.a,
                ctx.depth() == self.d,
                forall|j: int| 0 <= j < i ==> step_ok(#[trigger] self.steps@[j], self.d as nat, self.op, self.a as nat),
            decreases n - i,
        {
            if !check_step(&self.steps[i], self.d, self.op, &ctx) {
                return false;
            }
            i = i + 1;
        }
        let (ha, hb, hc) = columns(self.steps.as_slice());
        let ra = ctx.hasher.root(ha.as_slice());
        let rb = ctx.hasher.root(hb.as_slice());
        let rc = ctx.hasher.root(hc.as_slice());
        digest_eq(&ra, &self.root_a) && digest_eq(&rb, &self.root_b) && digest_eq(&rc, &self.root_c)
    }
}

/// The three hash columns of a list of steps.
fn columns(ks: &[Step]) -> (r: (Vec<Digest>, Vec<Digest>, Vec<Digest>))
    ensures
        views(r.0@) == col_a(ks@),
        views(r.1@) == col_b(ks@),
        views(r.2@) == col_c(ks@),
{
    let mut ha: Vec<Digest> = Vec::new();
    let mut hb: Vec<Digest> = Vec::new();
    let mut hc: Vec<Digest> = Vec::new();
    let n = ks.len();
    let mut i: usize = 0;
    while i < n
        invariant
            n == ks@.len(),
            i <= n,
            ha@.len() == i,
            hb@.len() == i,
            hc@.len() == i,
            forall|j: int| 0 <= j < i ==> (#[trigger] ha@[j]) == ks@[j].a,
            forall|j: int| 0 <= j < i ==> (#[trigger] hb@[j]) == ks@[j].b,
            forall|j: int| 0 <= j < i ==> (#[trigger] hc@[j]) == ks@[j].c,
        decreases n - i,
    {
        ha.push(ks[i].a);
        hb.push(ks[i].b);
        hc.push(ks[i].c);
        i = i + 1;
    }
    assert(views(ha@) =~= col_a(ks@));
    assert(views(hb@) =~= col_b(ks@));
    assert(views(hc@) =~= col_c(ks@));
    (ha, hb, hc)
}

/// Whether one step replays `d` levels above the leaves.
fn check_step(s: &Step, d: u32, op: Op, ctx: &Ctx) -> (r: bool)
    requires
        ctx.wf(),
        d <= ctx.depth(),
    ensures
        r == step_ok(*s, d as nat, op, ctx.a as nat),
    decreases d,
{
    match rule(op, &s.a, &s.b, d, ctx) {
        Some(r) => {
            return s.children.is_none() && digest_eq(&s.c, &r);
        },
        None => {},
    }
    let kids = match &s.children {
        Some(k) => {
            if d > 0 && k.len() == ctx.a as usize {
                k
            } else {
                return false;
            }
        },
        None => return false,
    };
    let n = kids.len();
    let mut i: usize = 0;
    while i < n
        invariant
            ctx.wf(),
            1 <= d <= ctx.depth(),
            n == kids@.len(),
            i <= n,
            s.children == Some(*kids),
            rule_at(op, s.a@, s.b@, ctx.a as nat, d as nat) is None,
            forall|j: int| 0 <= j < i ==> step_ok(#[trigger] kids@[j], (d - 1) as nat, op, ctx.a as nat),
        decreases n - i,
    {
        if !check_step(&kids[i], d - 1, op, ctx) {
            return false;
        }
        i = i + 1;
    }
    let (ha, hb, hc) = columns(kids.as_slice());
    let na = ctx.hasher.node(ha.as_slice());
    let nb = ctx.hasher.node(hb.as_slice());
    let nc = ctx.hasher.node(hc.as_slice());
    digest_eq(&s.a, &na) && digest_eq(&s.b, &nb) && digest_eq(&s.c, &nc)
}

/// The transcript of combining two canonical nodes `d` levels above the leaves.
fn build_step(na: &Node, nb: &Node, d: u32, op: Op, ctx: &Ctx) -> (r: Step)
    requires
        ctx.wf(),
        ctx.a >= 2,
        d <= ctx.depth(),
        wf_node(*na, ctx.a as nat, d as nat),
        wf_node(*nb, ctx.a as nat, d as nat),
    ensures
        step_ok(r, d as nat, op, ctx.a as nat),
        r.a@ == nh(*na, ctx.a as nat, d as nat),
        r.b@ == nh(*nb, ctx.a as nat, d as nat),
        r.c@ == combined_hash(*na, *nb, op, ctx.a as nat, d as nat),
    decreases d,
{
    let ghost a = ctx.a as nat;
    let ha = node_hash(na, d, ctx);
    let hb = node_hash(nb, d, ctx);
    if let Some(r) = rule(op, &ha, &hb, d, ctx) {
        return Step { a: ha, b: hb, c: r, children: None };
    }
    proof {
        if d == 0 {
            assert(!(*na is Branch) && !(*nb is Branch));
            assert(false);
        }
        lemma_node_hash_form(*na, a, d as nat);
        lemma_node_hash_form(*nb, a, d as nat);
    }
    let n = ctx.a as usize;
    let mut kids: Vec<Step> = Vec::new();
    let mut k: usize = 0;
    while k < n
        invariant
            ctx.wf(),
            ctx.a >= 2,
            1 <= d <= ctx.depth(),
            n == a,
            a == ctx.a,
            k <= n,
            *na is Branch ==> na->Branch_0.children@.len() == n,
            *nb is Branch ==> nb->Branch_0.children@.len() == n,
            forall|j: int| 0 <= j < a ==> wf_node(#[trigger] spec_child(*na, j), a, (d - 1) as nat),
            forall|j: int| 0 <= j < a ==> wf_node(#[trigger] spec_child(*nb, j), a, (d - 1) as nat),
            kids@.len() == k,
            forall|j: int| 0 <= j < k ==> step_ok(#[trigger] kids@[j], (d - 1) as nat, op, a),
            forall|j: int| 0 <= j < k ==> (#[trigger] kids@[j]).a@ == nh(spec_child(*na, j), a, (d - 1) as nat),
            forall|j: int| 0 <= j < k ==> (#[trigger] kids@[j]).b@ == nh(spec_child(*nb, j), a, (d - 1) as nat),
            forall|j: int| 0 <= j < k ==> (#[trigger] kids@[j]).c@
                == combined_hash(spec_child(*na, j), spec_child(*nb, j), op, a, (d - 1) as nat),
        decreases n - k,
    {
        let kid = build_step(&na.child(k), &nb.child(k), d - 1, op, ctx);
        kids.push(kid);
        k = k + 1;
    }
    let (_ka, _kb, kc) = columns(kids.as_slice());
    let c = ctx.hasher.node(kc.as_slice());
    proof {
        assert(col_a(kids@) =~= kid_hashes(*na, a, d as nat));
        assert(col_b(kids@) =~= kid_hashes(*nb, a, d as nat));
        assert(col_c(kids@) =~= combined_kids(*na, *nb, op, a, d as nat));
    }
    Step { a: ha, b: hb, c, children: Some(kids) }
}

/// A transcript of `op` on two trees, which a verifier replays with neither tree at hand.
pub fn prove(t1: &Tree, t2: &Tree, op: Op) -> (r: Result<SetOpProof>)
    requires
        t1.wf(),
        t2.wf(),
    ensures
        r is Ok <==> t1.h == t2.h && t1.d == t2.d,
        r matches Ok(p) ==> (t1.h.a <= crate::hierarchy::MAX_APERTURE ==> p.spec_verifies()) && p.op == op && p.a == t1.h.a && p.b == t1.h.b && p.d == t1.d
            && p.root_a@ == t1.spec_root() && p.root_b@ == t2.spec_root() && p.root_c@ == combined_root(*t1, *t2, op),
{
    compatible(t1, t2)?;
    let ctx = &t1.ctx;
    let ghost a = t1.h.a as nat;
    let nb = t1.h.b as usize;
    let mut steps: Vec<Step> = Vec::new();
    let mut i: usize = 0;
    while i < nb
        invariant
            t1.wf(),
            t2.wf(),
            t1.h == t2.h,
            t1.d == t2.d,
            ctx == &t1.ctx,
            a == t1.h.a,
            nb == t1.h.b,
            i <= nb,
            steps@.len() == i,
            forall|j: int| 0 <= j < i ==> step_ok(#[trigger] steps@[j], t1.d as nat, op, a),
            forall|j: int| 0 <= j < i ==> (#[trigger] steps@[j]).a@ == nh(t1.bases@[j], a, t1.d as nat),
            forall|j: int| 0 <= j < i ==> (#[trigger] steps@[j]).b@ == nh(t2.bases@[j], a, t1.d as nat),
            forall|j: int| 0 <= j < i ==> (#[trigger] steps@[j]).c@ == combined_hash(t1.bases@[j], t2.bases@[j], op, a, t1.d as nat),
        decreases nb - i,
    {
        steps.push(build_step(&t1.bases[i], &t2.bases[i], t1.d, op, ctx));
        i = i + 1;
    }
    let (_sa, _sb, sc) = columns(steps.as_slice());
    let root_c = ctx.hasher.root(sc.as_slice());
    let root_a = t1.root();
    let root_b = t2.root();
    let hash = ctx.hasher.id().to_string();
    proof {
        assert(col_a(steps@) =~= t1.spec_base_hashes());
        assert(col_b(steps@) =~= t2.spec_base_hashes());
        assert(col_c(steps@) =~= Seq::new(t1.h.b as nat, |i: int| combined_hash(t1.bases@[i], t2.bases@[i], op, a, t1.d as nat)));
    }
    Ok(SetOpProof { op, hash, root_a, root_b, root_c, a: t1.h.a, b: t1.h.b, d: t1.d, steps })
}

/// Without a collision, the combined hash of two canonical nodes `d` levels above the leaves is
/// the hash of the canonical node covering `op` of their leaves: where the identities decide, the
/// hash they give is that node's, and where they do not, combining child by child gives it.
pub proof fn lemma_combined_hash_is_op(na: Node, nb: Node, n: Node, op: Op, a: nat, d: nat)
    requires
        !sha256_collision(),
        a >= 1,
        wf_node(na, a, d),
        wf_node(nb, a, d),
        wf_node(n, a, d),
        rungs_are_digests(a, d),
        forall|i: int| 0 <= i < pow(a as int, d) ==> #[trigger] covers(n, a, d, i)
            == spec_apply(op, covers(na, a, d, i), covers(nb, a, d, i)),
    ensures
        combined_hash(na, nb, op, a, d) == nh(n, a, d),
    decreases d,
{
    let (ha, hb) = (nh(na, a, d), nh(nb, a, d));
    let (e, f) = (ladder(false, a, d), ladder(true, a, d));
    if ha == e {
        lemma_hash_determines_cover(na, Node::Empty, a, d);
    }
    if ha == f {
        lemma_hash_determines_cover(na, Node::Full, a, d);
    }
    if hb == e {
        lemma_hash_determines_cover(nb, Node::Empty, a, d);
    }
    if hb == f {
        lemma_hash_determines_cover(nb, Node::Full, a, d);
    }
    if ha == hb {
        lemma_hash_determines_cover(na, nb, a, d);
    }
    match rule_at(op, ha, hb, a, d) {
        Some(r) => {
            let x = if r == e {
                Node::Empty
            } else if r == f {
                Node::Full
            } else if r == ha {
                na
            } else {
                nb
            };
            assert(nh(x, a, d) == r);
            assert forall|i: int| 0 <= i < pow(a as int, d) implies #[trigger] covers(n, a, d, i) == covers(x, a, d, i) by {
                assert(covers(Node::Empty, a, d, i) == false);
                assert(covers(Node::Full, a, d, i) == true);
            }
            crate::tree::lemma_unique(n, x, a, d);
        },
        None => {
            if d == 0 {
                assert(!(na is Branch) && !(nb is Branch));
                assert(false);
            }
            lemma_node_hash_form(na, a, d);
            lemma_node_hash_form(nb, a, d);
            lemma_node_hash_form(n, a, d);
            let s = pow(a as int, (d - 1) as nat);
            assert forall|k: int| 0 <= k < a implies #[trigger] combined_kids(na, nb, op, a, d)[k] == kid_hashes(n, a, d)[k] by {
                let (ca, cb, c) = (spec_child(na, k), spec_child(nb, k), spec_child(n, k));
                assert forall|j: int| 0 <= j < pow(a as int, (d - 1) as nat) implies #[trigger] covers(c, a, (d - 1) as nat, j)
                    == spec_apply(op, covers(ca, a, (d - 1) as nat, j), covers(cb, a, (d - 1) as nat, j)) by {
                    crate::tree::lemma_child_index(a, d, k, j);
                    lemma_cover_child(n, a, d, k * s + j);
                    lemma_cover_child(na, a, d, k * s + j);
                    lemma_cover_child(nb, a, d, k * s + j);
                }
                lemma_combined_hash_is_op(ca, cb, c, op, a, (d - 1) as nat);
            }
            assert(combined_kids(na, nb, op, a, d) =~= kid_hashes(n, a, d));
        },
    }
}

/// Without a collision, a decided identity is sound: when the rule decides the combination of two
/// canonical nodes `d` levels above the leaves from their hashes alone, the hash it gives is that
/// of the canonical node covering `op` of their leaves.
pub proof fn lemma_rule_sound(na: Node, nb: Node, n: Node, op: Op, a: nat, d: nat)
    requires
        !sha256_collision(),
        a >= 1,
        wf_node(na, a, d),
        wf_node(nb, a, d),
        wf_node(n, a, d),
        rungs_are_digests(a, d),
        forall|i: int| 0 <= i < pow(a as int, d) ==> #[trigger] covers(n, a, d, i)
            == spec_apply(op, covers(na, a, d, i), covers(nb, a, d, i)),
    ensures
        rule_at(op, nh(na, a, d), nh(nb, a, d), a, d) matches Some(r) ==> r == nh(n, a, d),
{
    lemma_combined_hash_is_op(na, nb, n, op, a, d);
}

/// The combined root of two trees is the root of the leaf set `op` makes of theirs: the root a
/// set operation on roots gives is the one any canonical tree covering those leaves has (as long
/// as SHA-256 has no collision).
pub proof fn lemma_combined_root_is_root_of_op(t1: Tree, t2: Tree, t: Tree, op: Op)
    requires
        !sha256_collision(),
        t1.wf(),
        t2.wf(),
        t.wf(),
        t1.h == t2.h && t.h == t1.h,
        t1.d == t2.d && t.d == t1.d,
        t.leaf_set() == spec_set_op(op, t1.leaf_set(), t2.leaf_set()),
    ensures
        t.spec_root() == combined_root(t1, t2, op),
{
    let a = t1.h.a as nat;
    let d = t1.d as nat;
    t1.ctx.lemma_rungs();
    assert(rungs_are_digests(a, d));
    assert forall|b: int| 0 <= b < t1.h.b implies #[trigger] t.spec_base_hashes()[b] == combined_hash(t1.bases@[b], t2.bases@[b], op, a, d) by {
        assert forall|i: int| 0 <= i < pow(a as int, d) implies #[trigger] covers(t.bases@[b], a, d, i)
            == spec_apply(op, covers(t1.bases@[b], a, d, i), covers(t2.bases@[b], a, d, i)) by {
            t.lemma_base_leaf(b, i);
            t1.lemma_base_leaf(b, i);
            t2.lemma_base_leaf(b, i);
            let x = (t1.h.a + b) * pow(a as int, d) + i;
            assert(t.leaf_set().contains(x) == t.covered(x));
            assert(t1.leaf_set().contains(x) == t1.covered(x));
            assert(t2.leaf_set().contains(x) == t2.covered(x));
            assert(spec_set_op(op, t1.leaf_set(), t2.leaf_set()).contains(x)
                == spec_apply(op, t1.leaf_set().contains(x), t2.leaf_set().contains(x)));
        }
        lemma_combined_hash_is_op(t1.bases@[b], t2.bases@[b], t.bases@[b], op, a, d);
    }
    assert(t.spec_base_hashes() =~= Seq::new(t1.h.b as nat, |i: int| combined_hash(t1.bases@[i], t2.bases@[i], op, a, d)));
}

/// A step that replays over two canonical nodes, whose operand hashes are theirs, has their
/// combined hash as its result (as long as SHA-256 has no collision).
proof fn lemma_step_sound(s: Step, na: Node, nb: Node, op: Op, a: nat, d: nat)
    requires
        !sha256_collision(),
        a >= 1,
        step_ok(s, d, op, a),
        wf_node(na, a, d),
        wf_node(nb, a, d),
        rungs_are_digests(a, d),
        s.a@ == nh(na, a, d),
        s.b@ == nh(nb, a, d),
    ensures
        s.c@ == combined_hash(na, nb, op, a, d),
    decreases d,
{
    if rule_at(op, s.a@, s.b@, a, d) is None {
        let k = s.children->0;
        lemma_node_hash_form(na, a, d);
        lemma_node_hash_form(nb, a, d);
        assert(rungs_are_digests(a, (d - 1) as nat));
        let (ka, kb) = (kid_hashes(na, a, d), kid_hashes(nb, a, d));
        lemma_tagged_inj(2u8, col_a(k@), 2u8, ka);
        lemma_tagged_inj(2u8, col_b(k@), 2u8, kb);
        assert forall|i: int| 0 <= i < a implies (#[trigger] ka[i]).len() == 32 && kb[i].len() == 32 by {
            lemma_nh_len(spec_child(na, i), a, (d - 1) as nat);
            lemma_nh_len(spec_child(nb, i), a, (d - 1) as nat);
        }
        assert forall|i: int| 0 <= i < a implies (#[trigger] col_a(k@)[i]).len() == 32 && col_b(k@)[i].len() == 32 by {
            assert(col_a(k@)[i] == k@[i].a@);
            assert(col_b(k@)[i] == k@[i].b@);
        }
        lemma_concat_inj(col_a(k@), ka);
        lemma_concat_inj(col_b(k@), kb);
        assert forall|i: int| 0 <= i < a implies #[trigger] col_c(k@)[i] == combined_kids(na, nb, op, a, d)[i] by {
            assert(col_a(k@)[i] == ka[i]);
            assert(col_b(k@)[i] == kb[i]);
            lemma_step_sound(k@[i], spec_child(na, i), spec_child(nb, i), op, a, (d - 1) as nat);
        }
        assert(col_c(k@) =~= combined_kids(na, nb, op, a, d));
    }
}

/// Soundness of a transcript: one that replays, for two canonical trees of its shape whose roots
/// are its operand roots, has as its result root the root of every canonical tree covering `op`
/// of their leaves (as long as SHA-256 has no collision).
pub proof fn lemma_transcript_sound(p: SetOpProof, t1: Tree, t2: Tree, t: Tree)
    requires
        !sha256_collision(),
        p.spec_verifies(),
        t1.wf(),
        t2.wf(),
        t.wf(),
        t1.h == t2.h && t.h == t1.h,
        t1.d == t2.d && t.d == t1.d,
        p.a == t1.h.a,
        p.b == t1.h.b,
        p.d == t1.d,
        p.root_a@ == t1.spec_root(),
        p.root_b@ == t2.spec_root(),
        t.leaf_set() == spec_set_op(p.op, t1.leaf_set(), t2.leaf_set()),
    ensures
        p.root_c@ == t.spec_root(),
        p.root_c@ == combined_root(t1, t2, p.op),
{
    let a = t1.h.a as nat;
    let d = t1.d as nat;
    let ks = p.steps@;
    t1.ctx.lemma_rungs();
    assert(rungs_are_digests(a, d));
    lemma_tagged_inj(3u8, col_a(ks), 3u8, t1.spec_base_hashes());
    lemma_tagged_inj(3u8, col_b(ks), 3u8, t2.spec_base_hashes());
    assert forall|i: int| 0 <= i < t1.h.b implies (#[trigger] t1.spec_base_hashes()[i]).len() == 32 && t2.spec_base_hashes()[i].len() == 32 by {
        lemma_nh_len(t1.bases@[i], a, d);
        lemma_nh_len(t2.bases@[i], a, d);
    }
    assert forall|i: int| 0 <= i < t1.h.b implies (#[trigger] col_a(ks)[i]).len() == 32 && col_b(ks)[i].len() == 32 by {
        assert(col_a(ks)[i] == ks[i].a@);
        assert(col_b(ks)[i] == ks[i].b@);
    }
    lemma_concat_inj(col_a(ks), t1.spec_base_hashes());
    lemma_concat_inj(col_b(ks), t2.spec_base_hashes());
    assert forall|i: int| 0 <= i < t1.h.b implies #[trigger] col_c(ks)[i] == combined_hash(t1.bases@[i], t2.bases@[i], p.op, a, d) by {
        assert(col_a(ks)[i] == t1.spec_base_hashes()[i]);
        assert(col_b(ks)[i] == t2.spec_base_hashes()[i]);
        lemma_step_sound(ks[i], t1.bases@[i], t2.bases@[i], p.op, a, d);
    }
    assert(col_c(ks) =~= Seq::new(t1.h.b as nat, |i: int| combined_hash(t1.bases@[i], t2.bases@[i], p.op, a, d)));
    lemma_combined_root_is_root_of_op(t1, t2, t, p.op);
}

/// A maximal subtree where two coverages differ: its cid and the two hashes there.
#[derive(Debug, Clone, Copy, PartialEq, Eq)]
pub struct Divergence {
    pub cid: Cid,
    pub hash_a: Digest,
    pub hash_b: Digest,
}

/// A divergence as plain values.
pub open spec fn div_view(x: Divergence) -> (int, Seq<u8>, Seq<u8>) {
    (x.cid as int, x.hash_a@, x.hash_b@)
}

/// The divergences under two nodes at cid `cid`, `d` levels above the leaves, in cid order: none
/// where the hashes agree; the node itself where they differ and either is constant (or at the
/// leaves); else those of the children.
pub open spec fn div_walk(na: Node, nb: Node, a: nat, d: nat, cid: int) -> Seq<(int, Seq<u8>, Seq<u8>)>
    decreases d, 1nat, 0nat,
{
    let (ha, hb) = (nh(na, a, d), nh(nb, a, d));
    if ha == hb {
        Seq::empty()
    } else if d == 0 || !(na is Branch && nb is Branch) {
        seq![(cid, ha, hb)]
    } else {
        div_kids(na, nb, a, d, cid, a)
    }
}

/// The divergences under the first `k` children of two nodes.
pub open spec fn div_kids(na: Node, nb: Node, a: nat, d: nat, cid: int, k: nat) -> Seq<(int, Seq<u8>, Seq<u8>)>
    decreases d, 0nat, k,
{
    if k == 0 || d == 0 {
        Seq::empty()
    } else {
        div_kids(na, nb, a, d, cid, (k - 1) as nat) + div_walk(spec_child(na, k - 1), spec_child(nb, k - 1), a, (d - 1) as nat, a * cid + k - 1)
    }
}

/// The divergences over the first `k` base cells of two trees.
pub open spec fn div_bases(t1: Tree, t2: Tree, k: nat) -> Seq<(int, Seq<u8>, Seq<u8>)>
    decreases k,
{
    if k == 0 {
        Seq::empty()
    } else {
        div_bases(t1, t2, (k - 1) as nat) + div_walk(t1.bases@[k - 1], t2.bases@[k - 1], t1.h.a as nat, t1.d as nat, t1.h.a + k - 1)
    }
}

fn div_walk_exec(na: &Node, nb: &Node, d: u32, cid: Cid, ctx: &Ctx, out: &mut Vec<Divergence>)
    requires
        ctx.wf(),
        ctx.a >= 2,
        d <= ctx.depth(),
        wf_node(*na, ctx.a as nat, d as nat),
        wf_node(*nb, ctx.a as nat, d as nat),
        (cid + 1) * pow(ctx.a as int, d as nat) <= crate::hierarchy::cid_space(),
    ensures
        final(out)@.map_values(|x: Divergence| div_view(x)) == old(out)@.map_values(|x: Divergence| div_view(x))
            + div_walk(*na, *nb, ctx.a as nat, d as nat, cid as int),
    decreases d,
{
    let ghost a = ctx.a as nat;
    let ghost before = out@.map_values(|x: Divergence| div_view(x));
    let ha = node_hash(na, d, ctx);
    let hb = node_hash(nb, d, ctx);
    if digest_eq(&ha, &hb) {
        assert(out@.map_values(|x: Divergence| div_view(x)) =~= before + div_walk(*na, *nb, a, d as nat, cid as int));
        return;
    }
    if d == 0 || !(na.is_branch() && nb.is_branch()) {
        out.push(Divergence { cid, hash_a: ha, hash_b: hb });
        assert(out@.map_values(|x: Divergence| div_view(x)) =~= before + div_walk(*na, *nb, a, d as nat, cid as int));
        return;
    }
    let n = ctx.a as usize;
    let mut k: usize = 0;
    proof {
        lemma_node_hash_form(*na, a, d as nat);
        lemma_node_hash_form(*nb, a, d as nat);
        assert(div_kids(*na, *nb, a, d as nat, cid as int, 0) =~= Seq::empty());
    }
    while k < n
        invariant
            ctx.wf(),
            ctx.a >= 2,
            1 <= d <= ctx.depth(),
            n == a,
            a == ctx.a,
            k <= n,
            *na is Branch && *nb is Branch,
            na->Branch_0.children@.len() == n,
            nb->Branch_0.children@.len() == n,
            forall|j: int| 0 <= j < a ==> wf_node(#[trigger] spec_child(*na, j), a, (d - 1) as nat),
            forall|j: int| 0 <= j < a ==> wf_node(#[trigger] spec_child(*nb, j), a, (d - 1) as nat),
            (cid + 1) * pow(a as int, d as nat) <= crate::hierarchy::cid_space(),
            out@.map_values(|x: Divergence| div_view(x)) == before + div_kids(*na, *nb, a, d as nat, cid as int, k as nat),
        decreases n - k,
    {
        proof {
            crate::arith::lemma_pow_succ(a as int, (d - 1) as nat);
            crate::arith::lemma_pow_pos(a as int, (d - 1) as nat);
            let p = pow(a as int, (d - 1) as nat);
            assert((a * cid + k + 1) * p <= (cid + 1) * pow(a as int, d as nat)) by (nonlinear_arith)
                requires
                    k < a,
                    p >= 1,
                    pow(a as int, d as nat) == a * p,
                    cid >= 0,
            ;
            assert(a * cid + k + 1 <= (a * cid + k + 1) * p) by (nonlinear_arith)
                requires
                    p >= 1,
                    a * cid + k + 1 >= 0,
            ;
        }
        let child = ctx.a as u64 * cid + k as u64;
        div_walk_exec(&na.child(k), &nb.child(k), d - 1, child, ctx, out);
        k = k + 1;
    }
}

/// Maximal subtrees where two coverages differ, in cid order within each base cell; O(differences).
pub fn divergence(t1: &Tree, t2: &Tree) -> (r: Result<Vec<Divergence>>)
    requires
        t1.wf(),
        t2.wf(),
    ensures
        r is Ok <==> t1.h == t2.h && t1.d == t2.d,
        r matches Ok(v) ==> v@.map_values(|x: Divergence| div_view(x)) == div_bases(*t1, *t2, t1.h.b as nat),
{
    compatible(t1, t2)?;
    let mut out: Vec<Divergence> = Vec::new();
    let nb = t1.h.b as usize;
    let mut i: usize = 0;
    proof {
        assert(out@.map_values(|x: Divergence| div_view(x)) =~= div_bases(*t1, *t2, 0));
    }
    while i < nb
        invariant
            t1.wf(),
            t2.wf(),
            t1.h == t2.h,
            t1.d == t2.d,
            nb == t1.h.b,
            i <= nb,
            out@.map_values(|x: Divergence| div_view(x)) == div_bases(*t1, *t2, i as nat),
        decreases nb - i,
    {
        proof {
            let a = t1.h.a as int;
            crate::arith::lemma_pow_pos(a, t1.d as nat);
            assert((a + i + 1) * pow(a, t1.d as nat) <= (a + t1.h.b) * pow(a, t1.d as nat)) by (nonlinear_arith)
                requires
                    i < t1.h.b,
                    pow(a, t1.d as nat) >= 1,
            ;
        }
        div_walk_exec(&t1.bases[i], &t2.bases[i], t1.d, t1.h.a as u64 + i as u64, &t1.ctx, &mut out);
        i = i + 1;
    }
    Ok(out)
}

/// The cell `k` levels above `x`, for aperture `a`.
pub open spec fn up(a: nat, x: int, k: nat) -> int {
    x / pow(a as int, k)
}

/// A listed divergence lies over `x`: its cid is `x` itself or `x`'s ancestor at most `d` levels up.
pub open spec fn listed_over(s: Seq<(int, Seq<u8>, Seq<u8>)>, a: nat, d: nat, x: int) -> bool {
    exists|j: int, k: nat| #![trigger s[j], up(a, x, k)] 0 <= j < s.len() && k <= d && s[j].0 == up(a, x, k)
}

/// What lies over `x` in either part lies over it in the whole.
proof fn lemma_listed_over_concat(s1: Seq<(int, Seq<u8>, Seq<u8>)>, s2: Seq<(int, Seq<u8>, Seq<u8>)>, a: nat, d: nat, x: int)
    ensures
        listed_over(s1, a, d, x) || listed_over(s2, a, d, x) ==> listed_over(s1 + s2, a, d, x),
        s1.len() > 0 || s2.len() > 0 ==> (s1 + s2).len() > 0,
{
    if listed_over(s1, a, d, x) {
        let (j, k) = choose|j: int, k: nat| #![trigger s1[j], up(a, x, k)] 0 <= j < s1.len() && k <= d && s1[j].0 == up(a, x, k);
        assert((s1 + s2)[j] == s1[j]);
    } else if listed_over(s2, a, d, x) {
        let (j, k) = choose|j: int, k: nat| #![trigger s2[j], up(a, x, k)] 0 <= j < s2.len() && k <= d && s2[j].0 == up(a, x, k);
        assert((s1 + s2)[s1.len() + j] == s2[j]);
    }
}

/// The divergences under child `k0` are among those under the first `m` children.
proof fn lemma_div_kids_include(na: Node, nb: Node, a: nat, d: nat, cid: int, m: nat, k0: int, x: int)
    requires
        d >= 1,
        0 <= k0 < m,
    ensures
        listed_over(div_walk(spec_child(na, k0), spec_child(nb, k0), a, (d - 1) as nat, a * cid + k0), a, d, x)
            ==> listed_over(div_kids(na, nb, a, d, cid, m), a, d, x),
        div_walk(spec_child(na, k0), spec_child(nb, k0), a, (d - 1) as nat, a * cid + k0).len() > 0
            ==> div_kids(na, nb, a, d, cid, m).len() > 0,
    decreases m,
{
    let prev = div_kids(na, nb, a, d, cid, (m - 1) as nat);
    let last = div_walk(spec_child(na, m - 1), spec_child(nb, m - 1), a, (d - 1) as nat, a * cid + m - 1);
    assert(div_kids(na, nb, a, d, cid, m) == prev + last);
    if k0 < m - 1 {
        lemma_div_kids_include(na, nb, a, d, cid, (m - 1) as nat, k0, x);
    }
    lemma_listed_over_concat(prev, last, a, d, x);
}

/// Two canonical nodes have divergences exactly when their hashes differ.
proof fn lemma_div_walk_empty(na: Node, nb: Node, a: nat, d: nat, cid: int)
    requires
        a >= 1,
        wf_node(na, a, d),
        wf_node(nb, a, d),
    ensures
        div_walk(na, nb, a, d, cid).len() == 0 <==> nh(na, a, d) == nh(nb, a, d),
    decreases d,
{
    if nh(na, a, d) != nh(nb, a, d) && d > 0 && na is Branch && nb is Branch {
        let (ca, cb) = (child_hashes(na->0.children@, a, d), child_hashes(nb->0.children@, a, d));
        if forall|k: int| 0 <= k < a ==> #[trigger] ca[k] == cb[k] {
            assert(ca =~= cb);
        }
        let k0 = choose|k: int| 0 <= k < a && #[trigger] ca[k] != cb[k];
        assert(spec_child(na, k0) == na->0.children@[k0]);
        assert(spec_child(nb, k0) == nb->0.children@[k0]);
        assert(wf_node(na->0.children@[k0], a, (d - 1) as nat));
        assert(wf_node(nb->0.children@[k0], a, (d - 1) as nat));
        lemma_div_walk_empty(spec_child(na, k0), spec_child(nb, k0), a, (d - 1) as nat, a * cid + k0);
        lemma_div_kids_include(na, nb, a, d, cid, a, k0, 0);
    }
}

/// Absent a collision, a leaf under two canonical nodes that one covers and the other does not
/// lies under a divergence between them.
proof fn lemma_div_walk_complete(na: Node, nb: Node, a: nat, d: nat, cid: int, i: int)
    requires
        !sha256_collision(),
        a >= 1,
        wf_node(na, a, d),
        wf_node(nb, a, d),
        rungs_are_digests(a, d),
        0 <= i < pow(a as int, d),
        covers(na, a, d, i) != covers(nb, a, d, i),
    ensures
        listed_over(div_walk(na, nb, a, d, cid), a, d, cid * pow(a as int, d) + i),
    decreases d,
{
    let x = cid * pow(a as int, d) + i;
    if nh(na, a, d) == nh(nb, a, d) {
        lemma_hash_determines_cover(na, nb, a, d);
    }
    crate::arith::lemma_pow_pos(a as int, d);
    if d == 0 || !(na is Branch && nb is Branch) {
        let w = div_walk(na, nb, a, d, cid);
        assert(w[0].0 == cid);
        assert(up(a, x, d) == cid) by {
            vstd::arithmetic::div_mod::lemma_fundamental_div_mod_converse(x, pow(a as int, d), cid, i);
        }
    } else {
        let s = pow(a as int, (d - 1) as nat);
        lemma_leaf_child(a, d, i);
        crate::arith::lemma_pow_succ(a as int, (d - 1) as nat);
        let k0 = i / s;
        let i0 = i % s;
        lemma_cover_child(na, a, d, i);
        lemma_cover_child(nb, a, d, i);
        assert(rungs_are_digests(a, (d - 1) as nat));
        lemma_div_walk_complete(spec_child(na, k0), spec_child(nb, k0), a, (d - 1) as nat, a * cid + k0, i0);
        assert((a * cid + k0) * s + i0 == x) by (nonlinear_arith)
            requires
                i == k0 * s + i0,
                pow(a as int, d) == a * s,
                x == cid * pow(a as int, d) + i,
        ;
        let c = div_walk(spec_child(na, k0), spec_child(nb, k0), a, (d - 1) as nat, a * cid + k0);
        let (j, k) = choose|j: int, k: nat| #![trigger c[j], up(a, x, k)] 0 <= j < c.len() && k <= (d - 1) as nat && c[j].0 == up(a, x, k);
        assert(listed_over(c, a, d, x));
        lemma_div_kids_include(na, nb, a, d, cid, a, k0, x);
    }
}

/// The first `k` bases have no divergence exactly when their hashes agree.
proof fn lemma_div_bases_empty(t1: Tree, t2: Tree, k: nat)
    requires
        t1.wf(),
        t2.wf(),
        t1.h == t2.h,
        t1.d == t2.d,
        k <= t1.h.b,
    ensures
        div_bases(t1, t2, k).len() == 0 <==> forall|i: int| 0 <= i < k ==> #[trigger] t1.spec_base_hashes()[i] == t2.spec_base_hashes()[i],
    decreases k,
{
    if k > 0 {
        lemma_div_bases_empty(t1, t2, (k - 1) as nat);
        let w = div_walk(t1.bases@[k - 1], t2.bases@[k - 1], t1.h.a as nat, t1.d as nat, t1.h.a + k - 1);
        lemma_div_walk_empty(t1.bases@[k - 1], t2.bases@[k - 1], t1.h.a as nat, t1.d as nat, t1.h.a + k - 1);
        let (p, q) = (t1.spec_base_hashes(), t2.spec_base_hashes());
        assert(p[k - 1] == nh(t1.bases@[k - 1], t1.h.a as nat, t1.d as nat));
        assert(q[k - 1] == nh(t2.bases@[k - 1], t1.h.a as nat, t1.d as nat));
        assert(div_bases(t1, t2, k) == div_bases(t1, t2, (k - 1) as nat) + w);
        if forall|i: int| 0 <= i < k ==> #[trigger] p[i] == q[i] {
            assert(p[k - 1] == q[k - 1]);
        }
    }
}

/// What lies over `x` under base `b` lies over it among the divergences of the first `k` bases.
proof fn lemma_div_bases_include(t1: Tree, t2: Tree, k: nat, b: int, x: int)
    requires
        0 <= b < k,
    ensures
        listed_over(div_walk(t1.bases@[b], t2.bases@[b], t1.h.a as nat, t1.d as nat, t1.h.a + b), t1.h.a as nat, t1.d as nat, x)
            ==> listed_over(div_bases(t1, t2, k), t1.h.a as nat, t1.d as nat, x),
    decreases k,
{
    let w = div_walk(t1.bases@[k - 1], t2.bases@[k - 1], t1.h.a as nat, t1.d as nat, t1.h.a + k - 1);
    if b < k - 1 {
        lemma_div_bases_include(t1, t2, (k - 1) as nat, b, x);
    }
    lemma_listed_over_concat(div_bases(t1, t2, (k - 1) as nat), w, t1.h.a as nat, t1.d as nat, x);
}

/// Two trees of one shape have no divergence exactly when the hashes of their base cells agree,
/// and so, absent a collision, exactly when their roots agree.
pub proof fn lemma_divergence_empty(t1: Tree, t2: Tree)
    requires
        t1.wf(),
        t2.wf(),
        t1.h == t2.h,
        t1.d == t2.d,
    ensures
        div_bases(t1, t2, t1.h.b as nat).len() == 0 <==> t1.spec_base_hashes() == t2.spec_base_hashes(),
        !sha256_collision() ==> (div_bases(t1, t2, t1.h.b as nat).len() == 0 <==> t1.spec_root() == t2.spec_root()),
{
    let (p, q) = (t1.spec_base_hashes(), t2.spec_base_hashes());
    lemma_div_bases_empty(t1, t2, t1.h.b as nat);
    if forall|i: int| 0 <= i < t1.h.b ==> #[trigger] p[i] == q[i] {
        assert(p =~= q);
    }
    if !sha256_collision() && t1.spec_root() == t2.spec_root() {
        lemma_tagged_inj(3u8, p, 3u8, q);
        t1.ctx.lemma_rungs();
        assert forall|i: int| 0 <= i < p.len() implies (#[trigger] p[i]).len() == 32 && q[i].len() == 32 by {
            lemma_nh_len(t1.bases@[i], t1.h.a as nat, t1.d as nat);
            lemma_nh_len(t2.bases@[i], t1.h.a as nat, t1.d as nat);
        }
        lemma_concat_inj(p, q);
    }
}

/// Outside the divergences two trees agree: absent a collision, a leaf that one covers and the
/// other does not lies under a listed cid (it is that cid, or lies at most `d` levels below it).
pub proof fn lemma_divergence_complete(t1: Tree, t2: Tree, x: int)
    requires
        !sha256_collision(),
        t1.wf(),
        t2.wf(),
        t1.h == t2.h,
        t1.d == t2.d,
        t1.covered(x) != t2.covered(x),
    ensures
        listed_over(div_bases(t1, t2, t1.h.b as nat), t1.h.a as nat, t1.d as nat, x),
{
    let (a, d) = (t1.h.a as nat, t1.d as nat);
    let p = pow(a as int, d);
    crate::arith::lemma_pow_pos(a as int, d);
    let lead = t1.h.lead(x);
    let b = lead - t1.h.a;
    let i = x % p;
    assert(lead == x / p);
    vstd::arithmetic::div_mod::lemma_fundamental_div_mod(x, p);
    vstd::arithmetic::div_mod::lemma_mod_bound(x, p);
    assert(x == (t1.h.a + b) * p + i) by (nonlinear_arith)
        requires
            x == p * (x / p) + i,
            lead == x / p,
            b == lead - t1.h.a,
    ;
    t1.ctx.lemma_rungs();
    lemma_div_walk_complete(t1.bases@[b], t2.bases@[b], a, d, t1.h.a + b, i);
    lemma_div_bases_include(t1, t2, t1.h.b as nat, b, x);
}

/// Going up `n` levels and then `m` is going up `n + m`.
proof fn lemma_up_up(a: nat, x: int, n: nat, m: nat)
    requires
        a >= 1,
        x >= 0,
    ensures
        up(a, up(a, x, n), m) == up(a, x, n + m),
{
    crate::arith::lemma_pow_pos(a as int, n);
    crate::arith::lemma_pow_pos(a as int, m);
    vstd::arithmetic::div_mod::lemma_div_denominator(x, pow(a as int, n), pow(a as int, m));
    lemma_pow_adds(a as int, n, m);
}

/// Going up one level or more from below `lo * a` lands below `lo`.
proof fn lemma_up_drops(a: nat, p: int, e: nat, lo: int)
    requires
        a >= 2,
        e >= 1,
        0 <= p < lo * a,
    ensures
        up(a, p, e) < lo,
{
    lemma_up_up(a, p, 1, (e - 1) as nat);
    lemma_pow1(a as int);
    let q = p / (a as int);
    vstd::arithmetic::div_mod::lemma_fundamental_div_mod(p, a as int);
    vstd::arithmetic::div_mod::lemma_mod_bound(p, a as int);
    assert(q < lo) by (nonlinear_arith)
        requires
            p == a * q + p % (a as int),
            0 <= p % (a as int),
            p < lo * a,
            a >= 2,
    ;
    assert(q >= 0) by (nonlinear_arith)
        requires
            p == a * q + p % (a as int),
            p % (a as int) < a,
            p >= 0,
            a >= 2,
    ;
    crate::arith::lemma_pow_pos(a as int, (e - 1) as nat);
    vstd::arithmetic::div_mod::lemma_div_is_ordered_by_denominator(q, 1, pow(a as int, (e - 1) as nat));
}

/// Some ancestor of `c` at most `d` levels up (or `c` itself) lies in `[lo, hi)`.
pub open spec fn under_band(a: nat, c: int, lo: int, hi: int, d: nat) -> bool {
    c >= 0 && exists|n: nat| n <= d && lo <= #[trigger] up(a, c, n) < hi
}

/// No listed cid is the cid of another or lies over it.
pub open spec fn apart(a: nat, s: Seq<(int, Seq<u8>, Seq<u8>)>) -> bool {
    forall|j1: int, j2: int, k: nat| #![trigger s[j1], up(a, s[j2].0, k)]
        0 <= j1 < s.len() && 0 <= j2 < s.len() && j1 != j2 ==> up(a, s[j2].0, k) != s[j1].0
}

/// Cells under two disjoint stretches of one band, `[lo, lo * a)`, lie apart: nothing under one
/// is over anything under the other.
proof fn lemma_bands_apart(a: nat, lo: int, lo1: int, hi1: int, lo2: int, hi2: int, c1: int, c2: int, d1: nat, d2: nat, k: nat)
    requires
        a >= 2,
        lo >= 1,
        lo <= lo1 && hi1 <= lo * a,
        lo <= lo2 && hi2 <= lo * a,
        hi1 <= lo2 || hi2 <= lo1,
        under_band(a, c1, lo1, hi1, d1),
        under_band(a, c2, lo2, hi2, d2),
    ensures
        up(a, c2, k) != c1,
{
    let m1 = choose|n: nat| n <= d1 && lo1 <= #[trigger] up(a, c1, n) < hi1;
    let m2 = choose|n: nat| n <= d2 && lo2 <= #[trigger] up(a, c2, n) < hi2;
    let (p, q) = (up(a, c1, m1), up(a, c2, m2));
    if up(a, c2, k) == c1 {
        lemma_up_up(a, c2, k, m1);
        if k + m1 < m2 {
            lemma_up_up(a, c2, k + m1, (m2 - (k + m1)) as nat);
            lemma_up_drops(a, p, (m2 - (k + m1)) as nat, lo);
        } else if k + m1 > m2 {
            lemma_up_up(a, c2, m2, (k + m1 - m2) as nat);
            lemma_up_drops(a, q, (k + m1 - m2) as nat, lo);
        }
    }
}

/// Lists that are apart, with nothing of one over anything of the other, make a list that is apart.
proof fn lemma_apart_concat(a: nat, s1: Seq<(int, Seq<u8>, Seq<u8>)>, s2: Seq<(int, Seq<u8>, Seq<u8>)>)
    requires
        apart(a, s1),
        apart(a, s2),
        forall|j1: int, j2: int, k: nat| #![trigger s1[j1], s2[j2], up(a, s2[j2].0, k)]
            0 <= j1 < s1.len() && 0 <= j2 < s2.len() ==> up(a, s2[j2].0, k) != s1[j1].0,
        forall|j1: int, j2: int, k: nat| #![trigger s1[j1], s2[j2], up(a, s1[j1].0, k)]
            0 <= j1 < s1.len() && 0 <= j2 < s2.len() ==> up(a, s1[j1].0, k) != s2[j2].0,
    ensures
        apart(a, s1 + s2),
{
    let s = s1 + s2;
    let n1 = s1.len() as int;
    assert forall|j1: int, j2: int, k: nat| #![trigger s[j1], up(a, s[j2].0, k)]
        0 <= j1 < s.len() && 0 <= j2 < s.len() && j1 != j2 implies up(a, s[j2].0, k) != s[j1].0 by {
        if j1 < n1 && j2 < n1 {
            assert(s[j1] == s1[j1] && s[j2] == s1[j2]);
        } else if j1 >= n1 && j2 >= n1 {
            assert(s[j1] == s2[j1 - n1] && s[j2] == s2[j2 - n1]);
        } else if j1 < n1 {
            assert(s[j1] == s1[j1] && s[j2] == s2[j2 - n1]);
        } else {
            assert(s[j1] == s2[j1 - n1] && s[j2] == s1[j2]);
        }
    }
}

/// A step up from the band of the children of `cid` lands on `cid`.
proof fn lemma_up_to_parent(a: nat, c: int, cid: int, d: nat)
    requires
        a >= 2,
        cid >= 0,
        under_band(a, c, a * cid, a * cid + a, d),
    ensures
        under_band(a, c, cid, cid + 1, d + 1),
{
    let n = choose|n: nat| n <= d && a * cid <= #[trigger] up(a, c, n) < a * cid + a;
    let p = up(a, c, n);
    lemma_up_up(a, c, n, 1);
    lemma_pow1(a as int);
    assert(p == cid * (a as int) + (p - a * cid)) by (nonlinear_arith);
    vstd::arithmetic::div_mod::lemma_fundamental_div_mod_converse(p, a as int, cid, p - a * cid);
    assert(cid <= up(a, c, n + 1) < cid + 1);
}

/// Every divergence under two nodes at `cid` lies under `cid`, at most `d` levels down.
proof fn lemma_div_walk_under(na: Node, nb: Node, a: nat, d: nat, cid: int)
    requires
        a >= 2,
        cid >= 0,
    ensures
        forall|j: int| 0 <= j < div_walk(na, nb, a, d, cid).len()
            ==> under_band(a, (#[trigger] div_walk(na, nb, a, d, cid)[j]).0, cid, cid + 1, d),
    decreases d, 1nat, 0nat,
{
    let w = div_walk(na, nb, a, d, cid);
    if nh(na, a, d) != nh(nb, a, d) {
        if d == 0 || !(na is Branch && nb is Branch) {
            lemma_pow0(a as int);
            assert(cid <= up(a, w[0].0, 0) < cid + 1);
        } else {
            lemma_div_kids_under(na, nb, a, d, cid, a);
            assert(w == div_kids(na, nb, a, d, cid, a));
            assert forall|j: int| 0 <= j < w.len() implies under_band(a, (#[trigger] w[j]).0, cid, cid + 1, d) by {
                assert(under_band(a, div_kids(na, nb, a, d, cid, a)[j].0, a * cid, a * cid + a, (d - 1) as nat));
                lemma_up_to_parent(a, w[j].0, cid, (d - 1) as nat);
            }
        }
    }
}

/// The divergences under the first `m` children of two nodes at `cid` lie under those children.
proof fn lemma_div_kids_under(na: Node, nb: Node, a: nat, d: nat, cid: int, m: nat)
    requires
        a >= 2,
        cid >= 0,
        d >= 1,
    ensures
        forall|j: int| 0 <= j < div_kids(na, nb, a, d, cid, m).len()
            ==> under_band(a, (#[trigger] div_kids(na, nb, a, d, cid, m)[j]).0, a * cid, a * cid + m, (d - 1) as nat),
    decreases d, 0nat, m,
{
    if m > 0 {
        let prev = div_kids(na, nb, a, d, cid, (m - 1) as nat);
        let last = div_walk(spec_child(na, m - 1), spec_child(nb, m - 1), a, (d - 1) as nat, a * cid + m - 1);
        let s = div_kids(na, nb, a, d, cid, m);
        assert(s == prev + last);
        lemma_div_kids_under(na, nb, a, d, cid, (m - 1) as nat);
        lemma_div_walk_under(spec_child(na, m - 1), spec_child(nb, m - 1), a, (d - 1) as nat, a * cid + m - 1);
        assert forall|j: int| 0 <= j < s.len() implies under_band(a, (#[trigger] s[j]).0, a * cid, a * cid + m, (d - 1) as nat) by {
            if j < prev.len() {
                assert(s[j] == prev[j]);
                assert(under_band(a, prev[j].0, a * cid, a * cid + m - 1, (d - 1) as nat));
                let n = choose|n: nat| n <= (d - 1) as nat && a * cid <= #[trigger] up(a, prev[j].0, n) < a * cid + m - 1;
                assert(a * cid <= up(a, s[j].0, n) < a * cid + m);
            } else {
                assert(s[j] == last[j - prev.len()]);
                assert(under_band(a, last[j - prev.len()].0, a * cid + m - 1, a * cid + m - 1 + 1, (d - 1) as nat));
                let n = choose|n: nat| n <= (d - 1) as nat && a * cid + m - 1 <= #[trigger] up(a, last[j - prev.len()].0, n) < a * cid + m - 1 + 1;
                assert(a * cid <= up(a, s[j].0, n) < a * cid + m);
            }
        }
    }
}

/// The divergences under two nodes at `cid` lie apart.
proof fn lemma_div_walk_apart(na: Node, nb: Node, a: nat, d: nat, cid: int)
    requires
        a >= 2,
        cid >= 1,
    ensures
        apart(a, div_walk(na, nb, a, d, cid)),
    decreases d, 1nat, 0nat,
{
    if nh(na, a, d) != nh(nb, a, d) && d > 0 && na is Branch && nb is Branch {
        lemma_div_kids_apart(na, nb, a, d, cid, a);
    }
}

/// The divergences under the first `m` children of two nodes at `cid` lie apart.
proof fn lemma_div_kids_apart(na: Node, nb: Node, a: nat, d: nat, cid: int, m: nat)
    requires
        a >= 2,
        cid >= 1,
        d >= 1,
        m <= a,
    ensures
        apart(a, div_kids(na, nb, a, d, cid, m)),
    decreases d, 0nat, m,
{
    if m > 0 {
        let prev = div_kids(na, nb, a, d, cid, (m - 1) as nat);
        let c = a * cid + m - 1;
        let last = div_walk(spec_child(na, m - 1), spec_child(nb, m - 1), a, (d - 1) as nat, c);
        assert(div_kids(na, nb, a, d, cid, m) == prev + last);
        lemma_div_kids_apart(na, nb, a, d, cid, (m - 1) as nat);
        assert(c >= 1) by (nonlinear_arith)
            requires
                a >= 2,
                cid >= 1,
                m >= 1,
                c == a * cid + m - 1,
        ;
        lemma_div_walk_apart(spec_child(na, m - 1), spec_child(nb, m - 1), a, (d - 1) as nat, c);
        lemma_div_kids_under(na, nb, a, d, cid, (m - 1) as nat);
        lemma_div_walk_under(spec_child(na, m - 1), spec_child(nb, m - 1), a, (d - 1) as nat, c);
        let lo = a * cid;
        assert(lo >= 1 && c + 1 <= lo * a) by (nonlinear_arith)
            requires
                a >= 2,
                cid >= 1,
                m <= a,
                lo == a * cid,
                c == a * cid + m - 1,
        ;
        assert forall|j1: int, j2: int, k: nat| #![trigger prev[j1], last[j2], up(a, last[j2].0, k)]
            0 <= j1 < prev.len() && 0 <= j2 < last.len() implies up(a, last[j2].0, k) != prev[j1].0 by {
            lemma_bands_apart(a, lo, lo, c, c, c + 1, prev[j1].0, last[j2].0, (d - 1) as nat, (d - 1) as nat, k);
        }
        assert forall|j1: int, j2: int, k: nat| #![trigger prev[j1], last[j2], up(a, prev[j1].0, k)]
            0 <= j1 < prev.len() && 0 <= j2 < last.len() implies up(a, prev[j1].0, k) != last[j2].0 by {
            lemma_bands_apart(a, lo, c, c + 1, lo, c, last[j2].0, prev[j1].0, (d - 1) as nat, (d - 1) as nat, k);
        }
        lemma_apart_concat(a, prev, last);
    }
}

/// The divergences over the first `k` bases lie under those bases.
proof fn lemma_div_bases_under(t1: Tree, t2: Tree, k: nat)
    requires
        t1.h.a >= 2,
    ensures
        forall|j: int| 0 <= j < div_bases(t1, t2, k).len()
            ==> under_band(t1.h.a as nat, (#[trigger] div_bases(t1, t2, k)[j]).0, t1.h.a as int, t1.h.a + k, t1.d as nat),
    decreases k,
{
    if k > 0 {
        let (a, d) = (t1.h.a as nat, t1.d as nat);
        let prev = div_bases(t1, t2, (k - 1) as nat);
        let c = t1.h.a + k - 1;
        let last = div_walk(t1.bases@[k - 1], t2.bases@[k - 1], a, d, c);
        let s = div_bases(t1, t2, k);
        assert(s == prev + last);
        lemma_div_bases_under(t1, t2, (k - 1) as nat);
        lemma_div_walk_under(t1.bases@[k - 1], t2.bases@[k - 1], a, d, c);
        assert forall|j: int| 0 <= j < s.len() implies under_band(a, (#[trigger] s[j]).0, a as int, (a + k) as int, d) by {
            if j < prev.len() {
                assert(s[j] == prev[j]);
                assert(under_band(a, prev[j].0, a as int, a + k - 1, d));
                let n = choose|n: nat| n <= d && a <= #[trigger] up(a, prev[j].0, n) < a + k - 1;
                assert(a <= up(a, s[j].0, n) < a + k);
            } else {
                assert(s[j] == last[j - prev.len()]);
                assert(under_band(a, last[j - prev.len()].0, c, c + 1, d));
                let n = choose|n: nat| n <= d && c <= #[trigger] up(a, last[j - prev.len()].0, n) < c + 1;
                assert(a <= up(a, s[j].0, n) < a + k);
            }
        }
    }
}

/// The divergences over the first `k` bases lie apart.
proof fn lemma_div_bases_apart(t1: Tree, t2: Tree, k: nat)
    requires
        t1.h.valid(),
        k <= t1.h.b,
    ensures
        apart(t1.h.a as nat, div_bases(t1, t2, k)),
    decreases k,
{
    if k > 0 {
        let (a, d) = (t1.h.a as nat, t1.d as nat);
        let prev = div_bases(t1, t2, (k - 1) as nat);
        let c = t1.h.a + k - 1;
        let last = div_walk(t1.bases@[k - 1], t2.bases@[k - 1], a, d, c);
        assert(div_bases(t1, t2, k) == prev + last);
        lemma_div_bases_apart(t1, t2, (k - 1) as nat);
        lemma_div_walk_apart(t1.bases@[k - 1], t2.bases@[k - 1], a, d, c);
        lemma_div_bases_under(t1, t2, (k - 1) as nat);
        lemma_div_walk_under(t1.bases@[k - 1], t2.bases@[k - 1], a, d, c);
        let lo = a as int;
        assert(c + 1 <= lo * a) by (nonlinear_arith)
            requires
                a >= 2,
                k <= t1.h.b,
                t1.h.b <= a * (a - 1),
                lo == a,
                c == a + k - 1,
        ;
        assert forall|j1: int, j2: int, kk: nat| #![trigger prev[j1], last[j2], up(a, last[j2].0, kk)]
            0 <= j1 < prev.len() && 0 <= j2 < last.len() implies up(a, last[j2].0, kk) != prev[j1].0 by {
            lemma_bands_apart(a, lo, lo, c, c, c + 1, prev[j1].0, last[j2].0, d, d, kk);
        }
        assert forall|j1: int, j2: int, kk: nat| #![trigger prev[j1], last[j2], up(a, prev[j1].0, kk)]
            0 <= j1 < prev.len() && 0 <= j2 < last.len() implies up(a, prev[j1].0, kk) != last[j2].0 by {
            lemma_bands_apart(a, lo, c, c + 1, lo, c, last[j2].0, prev[j1].0, d, d, kk);
        }
        lemma_apart_concat(a, prev, last);
    }
}

/// No divergence lies over another: no listed cid is another's, or an ancestor of another's.
pub proof fn lemma_divergence_apart(t1: Tree, t2: Tree)
    requires
        t1.wf(),
        t2.wf(),
        t1.h == t2.h,
        t1.d == t2.d,
    ensures
        forall|j1: int, j2: int| 0 <= j1 < div_bases(t1, t2, t1.h.b as nat).len() && 0 <= j2 < div_bases(t1, t2, t1.h.b as nat).len() && j1 != j2
            ==> !t1.h.spec_is_ancestor(#[trigger] div_bases(t1, t2, t1.h.b as nat)[j1].0, #[trigger] div_bases(t1, t2, t1.h.b as nat)[j2].0),
{
    let s = div_bases(t1, t2, t1.h.b as nat);
    let a = t1.h.a as nat;
    lemma_div_bases_apart(t1, t2, t1.h.b as nat);
    assert forall|j1: int, j2: int| 0 <= j1 < s.len() && 0 <= j2 < s.len() && j1 != j2
        implies !t1.h.spec_is_ancestor(#[trigger] s[j1].0, #[trigger] s[j2].0) by {
        let (lx, ly) = (t1.h.spec_level(s[j1].0), t1.h.spec_level(s[j2].0));
        if lx <= ly {
            assert(up(a, s[j2].0, (ly - lx) as nat) != s[j1].0);
        }
    }
}

} // verus!
