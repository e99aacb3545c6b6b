//! The cells of a polygon cover. A coverer descends from the base cells: it judges one node at a
//! time (outside the polygon, inside it whole, or in part), and the walk here decides what is
//! asked next and collects the nodes judged inside: a mixed-level list of whole subtrees and
//! boundary cells at the resolution. The polygon's cells are every descendant of a listed node at
//! the resolution, ascending and without repeats.

use vstd::prelude::*;
use vstd::arithmetic::power::{lemma_pow1, pow};
use crate::error::{invalid, Result};
use crate::hierarchy::{Cid, Hierarchy};
use crate::index::{cells_meeting, meets};
use crate::tree::{lemma_root_determined_by_leaves, Tree};

verus! {

/// The deepest resolution a polygon is covered at.
pub const MAX_RESOLUTION: u32 = 15;

/// What a coverer found for the node it was asked about.
#[derive(Debug, Clone, Copy, PartialEq, Eq, Structural)]
pub enum Verdict {
    /// None of the node's cells is covered.
    Miss,
    /// The node is covered whole.
    Inside,
    /// Some of the node's cells may be covered: its children are asked about next.
    Partial,
}

/// Neither of two cids lies over the other (nor are they one cid).
pub open spec fn apart(h: Hierarchy, x: int, y: int) -> bool {
    !h.spec_is_ancestor(x, y) && !h.spec_is_ancestor(y, x)
}

/// The children of `c` at level `l + 1`, last digit first: the order they wait in, so that the
/// first digit is asked about first.
pub open spec fn children_waiting(h: Hierarchy, c: Cid, l: u32) -> Seq<(Cid, u32)> {
    Seq::new(h.a as nat, |t: int| ((c * h.a + (h.a - 1 - t)) as Cid, (l + 1) as u32))
}

/// The bases, last first: the order they wait in before the walk starts.
pub open spec fn bases_waiting(h: Hierarchy) -> Seq<(Cid, u32)> {
    Seq::new(h.b as nat, |t: int| ((h.a + (h.b - 1 - t)) as Cid, 0u32))
}

/// The depth-first descent a coverer drives, from base 0, children in digit order: the node
/// asked about next is the last one waiting.
pub struct CoverWalk {
    h: Hierarchy,
    resolution: u32,
    waiting: Vec<(Cid, u32)>,
    found: Vec<Cid>,
}

impl CoverWalk {
    pub closed spec fn hierarchy(&self) -> Hierarchy {
        self.h
    }

    pub closed spec fn resolution(&self) -> u32 {
        self.resolution
    }

    /// The nodes still to be asked about, with their levels; the last is asked next.
    pub closed spec fn waiting(&self) -> Seq<(Cid, u32)> {
        self.waiting@
    }

    /// The nodes judged inside so far, in the order they were judged.
    pub closed spec fn found(&self) -> Seq<Cid> {
        self.found@
    }

    /// Every node waiting or found is a cid no deeper than the resolution, at its recorded level,
    /// and no two of them lie one over the other.
    pub closed spec fn wf(&self) -> bool {
        let h = self.h;
        let w = self.waiting@;
        let f = self.found@;
        &&& h.valid()
        &&& h.fits(self.resolution as nat)
        &&& forall|i: int| 0 <= i < w.len() ==> h.is_cid(#[trigger] w[i].0 as int) && w[i].1 == h.spec_level(w[i].0 as int)
            && w[i].1 <= self.resolution
        &&& nodes_above(h, self.resolution as nat, f)
        &&& forall|i: int, j: int| 0 <= i < j < w.len() ==> apart(h, #[trigger] w[i].0 as int, #[trigger] w[j].0 as int)
        &&& forall|i: int, j: int| 0 <= i < j < f.len() ==> apart(h, #[trigger] f[i] as int, #[trigger] f[j] as int)
        &&& forall|i: int, j: int| 0 <= i < f.len() && 0 <= j < w.len() ==> apart(h, #[trigger] f[i] as int, #[trigger] w[j].0 as int)
    }

    /// The walk over `h` down to `resolution`, with every base waiting; refused above
    /// `MAX_RESOLUTION`, or when cids at `resolution` do not fit in 64 bits.
    pub fn new(h: Hierarchy, resolution: u32) -> (r: Result<CoverWalk>)
        requires
            h.valid(),
        ensures
            r is Ok <==> resolution <= MAX_RESOLUTION && h.fits(resolution as nat),
            r matches Ok(w) ==> w.wf() && w.hierarchy() == h && w.resolution() == resolution
                && w.waiting() == bases_waiting(h) && w.found() == Seq::<Cid>::empty(),
    {
        if resolution > MAX_RESOLUTION {
            return invalid("resolution is deeper than the deepest a polygon is covered at");
        }
        let top = h.max_level();
        if resolution > top {
            proof {
                if h.fits(resolution as nat) {
                    h.lemma_fits_mono((top + 1) as nat, resolution as nat);
                }
            }
            return invalid("resolution is deeper than 64-bit cids reach");
        }
        proof {
            h.lemma_fits_mono(resolution as nat, top as nat);
            h.lemma_fits_mono(0, resolution as nat);
            reveal(pow);
        }
        let mut waiting: Vec<(Cid, u32)> = Vec::new();
        let mut t: u32 = 0;
        while t < h.b
            invariant
                h.valid(),
                h.fits(0),
                t <= h.b,
                waiting@ == bases_waiting(h).take(t as int),
            decreases h.b - t,
        {
            waiting.push(((h.a as u64) + ((h.b - 1 - t) as u64), 0u32));
            proof {
                assert(waiting@ =~= bases_waiting(h).take(t + 1));
            }
            t = t + 1;
        }
        let w = CoverWalk { h, resolution, waiting, found: Vec::new() };
        proof {
            assert(waiting@ =~= bases_waiting(h));
            assert forall|i: int| 0 <= i < waiting@.len() implies h.is_cid(#[trigger] waiting@[i].0 as int)
                && waiting@[i].1 == h.spec_level(waiting@[i].0 as int) by {
                let b = h.b - 1 - i;
                let p = seq![b as u32];
                assert(h.valid_path(p));
                h.lemma_cid_path(p);
            }
            assert forall|i: int, j: int| 0 <= i < j < waiting@.len() implies apart(h, #[trigger] waiting@[i].0 as int, #[trigger] waiting@[j].0 as int) by {
                reveal(pow);
                assert(pow(h.a as int, 0) == 1);
                let (x, y) = (waiting@[i].0 as int, waiting@[j].0 as int);
                assert(x / 1 == x && y / 1 == y);
            }
        }
        Ok(w)
    }

    /// The node to ask about next, with its level; `None` when the walk is over.
    pub fn next(&self) -> (r: Option<(Cid, u32)>)
        ensures
            r == (if self.waiting().len() == 0 { None } else { Some(self.waiting().last()) }),
    {
        let n = self.waiting.len();
        if n == 0 {
            None
        } else {
            Some(self.waiting[n - 1])
        }
    }

    /// Answer for the node asked about: a node inside is found, the children of a partial node
    /// are asked about next (a partial answer is for nodes above the resolution), a missed node
    /// is dropped.
    pub fn answer(&mut self, v: Verdict)
        requires
            old(self).wf(),
            old(self).waiting().len() > 0,
            v == Verdict::Partial ==> old(self).waiting().last().1 < old(self).resolution(),
        ensures
            final(self).wf(),
            final(self).hierarchy() == old(self).hierarchy(),
            final(self).resolution() == old(self).resolution(),
            ({
                let (c, l) = old(self).waiting().last();
                let rest = old(self).waiting().drop_last();
                &&& final(self).found() == if v == Verdict::Inside { old(self).found().push(c) } else { old(self).found() }
                &&& final(self).waiting() == if v == Verdict::Partial { rest + children_waiting(old(self).hierarchy(), c, l) } else { rest }
            }),
    {
        let ghost old_w = self.waiting@;
        let ghost old_f = self.found@;
        let h = self.h;
        let (c, l) = match self.waiting.pop() {
            Some(x) => x,
            None => {
                proof {
                    assert(false);
                }
                return;
            },
        };
        proof {
            assert(old_w.last() == (c, l));
            assert(self.waiting@ =~= old_w.drop_last());
            let w = self.waiting@;
            assert forall|i: int| 0 <= i < w.len() implies #[trigger] w[i] == old_w[i] by {}
            assert forall|i: int, j: int| 0 <= i < j < w.len() implies apart(h, #[trigger] w[i].0 as int, #[trigger] w[j].0 as int) by {
                assert(w[i] == old_w[i] && w[j] == old_w[j]);
            }
            assert forall|i: int, j: int| 0 <= i < old_f.len() && 0 <= j < w.len() implies apart(h, #[trigger] old_f[i] as int, #[trigger] w[j].0 as int) by {
                assert(w[j] == old_w[j]);
            }
            assert forall|i: int| 0 <= i < old_f.len() implies apart(h, #[trigger] old_f[i] as int, c as int) by {
                assert(old_w[old_w.len() - 1].0 == c);
            }
        }
        match v {
            Verdict::Miss => {},
            Verdict::Inside => {
                self.found.push(c);
                proof {
                    let f = self.found@;
                    assert forall|i: int, j: int| 0 <= i < j < f.len() implies apart(h, #[trigger] f[i] as int, #[trigger] f[j] as int) by {
                        if j == f.len() - 1 {
                            assert(f[j] == c);
                            assert(f[i] == old_f[i]);
                        } else {
                            assert(f[i] == old_f[i] && f[j] == old_f[j]);
                        }
                    }
                    assert forall|i: int, j: int| 0 <= i < f.len() && 0 <= j < self.waiting@.len() implies apart(h, #[trigger] f[i] as int, #[trigger] self.waiting@[j].0 as int) by {
                        assert(self.waiting@[j] == old_w[j]);
                        if i == f.len() - 1 {
                            assert(f[i] == c);
                            assert(apart(h, old_w[j].0 as int, old_w[old_w.len() - 1].0 as int));
                        } else {
                            assert(f[i] == old_f[i]);
                        }
                    }
                }
            },
            Verdict::Partial => {
                let ghost rest = self.waiting@;
                let ghost kids = children_waiting(h, c, l);
                proof {
                    assert(h.is_cid(c as int) && l == h.spec_level(c as int));
                    h.lemma_fits_mono((l + 1) as nat, self.resolution as nat);
                    lemma_child_bound(h, c as int);
                }
                let a = h.a;
                let mut t: u32 = 0;
                while t < a
                    invariant
                        h.valid(),
                        a == h.a,
                        t <= a,
                        l < self.resolution,
                        (c as int + 1) * a <= crate::hierarchy::cid_space(),
                        kids == children_waiting(h, c, l),
                        self.waiting@ == rest + kids.take(t as int),
                        self.h == h,
                        self.resolution == old(self).resolution,
                        self.found@ == old_f,
                    decreases a - t,
                {
                    let k = a - 1 - t;
                    proof {
                        assert(c * a + k < (c as int + 1) * a) by (nonlinear_arith)
                            requires
                                k < a,
                        ;
                    }
                    let ch = h.child(c, k);
                    self.waiting.push((ch, l + 1));
                    proof {
                        assert(self.waiting@ =~= rest + kids.take(t + 1));
                    }
                    t = t + 1;
                }
                proof {
                    assert(kids.take(a as int) =~= kids);
                    lemma_children_waiting(h, c, l, self.resolution);
                    let w = self.waiting@;
                    assert forall|i: int| 0 <= i < w.len() implies h.is_cid(#[trigger] w[i].0 as int) && w[i].1 == h.spec_level(w[i].0 as int)
                        && w[i].1 <= self.resolution by {
                        if i < rest.len() {
                            assert(w[i] == old_w[i]);
                        } else {
                            assert(w[i] == kids[i - rest.len()]);
                        }
                    }
                    assert forall|i: int, j: int| 0 <= i < j < w.len() implies apart(h, #[trigger] w[i].0 as int, #[trigger] w[j].0 as int) by {
                        if j < rest.len() {
                            assert(w[i] == old_w[i] && w[j] == old_w[j]);
                        } else if i < rest.len() {
                            assert(w[i] == old_w[i] && w[j] == kids[j - rest.len()]);
                            assert(apart(h, old_w[i].0 as int, old_w[old_w.len() - 1].0 as int));
                            assert(kids[j - rest.len()].0 as int == c * h.a + (h.a - 1 - (j - rest.len())));
                            lemma_child_apart(h, c as int, old_w[i].0 as int, h.a - 1 - (j - rest.len()));
                        } else {
                            assert(w[i] == kids[i - rest.len()] && w[j] == kids[j - rest.len()]);
                        }
                    }
                    let f = self.found@;
                    assert forall|i: int, j: int| 0 <= i < f.len() && 0 <= j < w.len() implies apart(h, #[trigger] f[i] as int, #[trigger] w[j].0 as int) by {
                        if j < rest.len() {
                            assert(w[j] == old_w[j]);
                        } else {
                            assert(w[j] == kids[j - rest.len()]);
                            assert(f[i] == old_f[i]);
                            assert(apart(h, old_f[i] as int, c as int));
                            assert(kids[j - rest.len()].0 as int == c * h.a + (h.a - 1 - (j - rest.len())));
                            lemma_child_apart(h, c as int, f[i] as int, h.a - 1 - (j - rest.len()));
                        }
                    }
                }
            },
        }
    }

    /// The nodes judged inside, in the order they were judged: cids no deeper than the resolution,
    /// no two of them one over the other.
    pub fn finish(self) -> (r: Vec<Cid>)
        requires
            self.wf(),
        ensures
            r@ == self.found(),
            nodes_above(self.hierarchy(), self.resolution() as nat, r@),
            forall|i: int, j: int| 0 <= i < j < r@.len() ==> apart(self.hierarchy(), #[trigger] r@[i] as int, #[trigger] r@[j] as int),
    {
        self.found
    }
}

/// A child of a cid at a level that fits is below `2^64`: `(c + 1)·A <= 2^64`.
proof fn lemma_child_bound(h: Hierarchy, c: int)
    requires
        h.valid(),
        h.is_cid(c),
        h.fits(h.spec_level(c) + 1),
    ensures
        (c + 1) * h.a <= crate::hierarchy::cid_space(),
{
    let l = h.spec_level(c);
    h.lemma_leaf_split(c);
    let pl = pow(h.a as int, l);
    crate::arith::lemma_pow_pos(h.a as int, l);
    crate::arith::lemma_pow_succ(h.a as int, l);
    assert(c + 1 <= (h.a + h.b) * pl) by (nonlinear_arith)
        requires
            c == h.lead(c) * pl + c % pl,
            c % pl < pl,
            h.lead(c) + 1 <= h.a + h.b,
    ;
    assert((c + 1) * h.a <= (h.a + h.b) * pl * h.a) by (nonlinear_arith)
        requires
            c + 1 <= (h.a + h.b) * pl,
            h.a >= 2,
    ;
    assert((h.a + h.b) * pl * h.a == (h.a + h.b) * (pl * h.a)) by (nonlinear_arith);
    vstd::arithmetic::mul::lemma_mul_is_commutative(pl, h.a as int);
}

/// The children of a cid at a level above the resolution wait as cids one level down, no two
/// of them one over the other.
proof fn lemma_children_waiting(h: Hierarchy, c: Cid, l: u32, resolution: u32)
    requires
        h.valid(),
        h.is_cid(c as int),
        l == h.spec_level(c as int),
        l < resolution,
        (c as int + 1) * h.a <= crate::hierarchy::cid_space(),
    ensures
        forall|t: int| 0 <= t < h.a ==> h.is_cid(#[trigger] children_waiting(h, c, l)[t].0 as int)
            && children_waiting(h, c, l)[t].1 == h.spec_level(children_waiting(h, c, l)[t].0 as int)
            && children_waiting(h, c, l)[t].1 <= resolution
            && h.spec_is_ancestor(c as int, children_waiting(h, c, l)[t].0 as int)
            && children_waiting(h, c, l)[t].0 as int == c * h.a + (h.a - 1 - t),
        forall|s: int, t: int| 0 <= s < t < h.a ==> apart(h, #[trigger] children_waiting(h, c, l)[s].0 as int, #[trigger] children_waiting(h, c, l)[t].0 as int),
{
    let kids = children_waiting(h, c, l);
    lemma_pow1(h.a as int);
    assert forall|t: int| 0 <= t < h.a implies h.is_cid(#[trigger] kids[t].0 as int) && kids[t].1 == h.spec_level(kids[t].0 as int)
        && kids[t].1 <= resolution && h.spec_is_ancestor(c as int, kids[t].0 as int) && kids[t].0 as int == c * h.a + (h.a - 1 - t) by {
        let k = h.a - 1 - t;
        assert(c * h.a + k < (c as int + 1) * h.a) by (nonlinear_arith)
            requires
                k < h.a,
        ;
        assert(0 <= c * h.a) by (nonlinear_arith)
            requires
                c >= 0,
                h.a >= 2,
        ;
        h.lemma_below(c as int, 1, k);
    }
    assert forall|s: int, t: int| 0 <= s < t < h.a implies apart(h, #[trigger] kids[s].0 as int, #[trigger] kids[t].0 as int) by {
        reveal(pow);
        assert(pow(h.a as int, 0) == 1);
        assert(c * h.a + (h.a - 1 - s) < (c as int + 1) * h.a) by (nonlinear_arith)
            requires
                0 <= s < h.a,
        ;
        assert(0 <= c * h.a) by (nonlinear_arith)
            requires
                c >= 0,
                h.a >= 2,
        ;
        let (x, y) = (kids[s].0 as int, kids[t].0 as int);
        assert(x == c * h.a + (h.a - 1 - s));
        assert(y == c * h.a + (h.a - 1 - t));
        assert(x / 1 == x && y / 1 == y);
        assert(x != y);
    }
}

/// A child of a cid lies apart from every cid its parent lies apart from.
proof fn lemma_child_apart(h: Hierarchy, c: int, x: int, k: int)
    requires
        h.valid(),
        h.is_cid(c),
        h.is_cid(x),
        apart(h, c, x),
        0 <= k < h.a,
    ensures
        apart(h, c * h.a + k, x),
{
    lemma_pow1(h.a as int);
    h.lemma_below(c, 1, k);
    let ch = c * h.a + k;
    if h.spec_is_ancestor(ch, x) {
        h.lemma_ancestor_trans(c, ch, x);
    }
    if h.spec_is_ancestor(x, ch) {
        if h.spec_level(x) <= h.spec_level(c) {
            h.lemma_ancestors_nest(x, c, ch);
        } else {
            reveal(pow);
            assert(pow(h.a as int, 0) == 1);
            assert(ch / 1 == ch);
        }
    }
}

/// Every node is a cid no deeper than `resolution`.
pub open spec fn nodes_above(h: Hierarchy, resolution: nat, nodes: Seq<Cid>) -> bool {
    forall|j: int| 0 <= j < nodes.len() ==> h.is_cid(#[trigger] nodes[j] as int) && h.spec_level(nodes[j] as int) <= resolution
}

/// `x` is a cell at `resolution` under one of `nodes` (a node at the resolution is its own cell).
pub open spec fn under_nodes(h: Hierarchy, resolution: nat, nodes: Seq<Cid>, x: int) -> bool {
    &&& h.is_cid(x)
    &&& h.spec_level(x) == resolution
    &&& exists|j: int| 0 <= j < nodes.len() && h.spec_is_ancestor(#[trigger] nodes[j] as int, x)
}

/// The cells at `resolution` under the nodes of a cover, ascending: refused when a node is not a
/// cid no deeper than `resolution`, or when cids at `resolution` do not fit in 64 bits.
pub fn polyfill_cells(h: &Hierarchy, resolution: u32, nodes: &[Cid]) -> (r: Result<Vec<Cid>>)
    requires
        h.valid(),
    ensures
        r is Ok <==> h.fits(resolution as nat) && nodes_above(*h, resolution as nat, nodes@),
        r matches Ok(v) ==> forall|i: int, j: int| 0 <= i < j < v@.len() ==> v@[i] < v@[j],
        r matches Ok(v) ==> forall|x: Cid| #[trigger] v@.contains(x) <==> under_nodes(*h, resolution as nat, nodes@, x as int),
{
    let top = h.max_level();
    if resolution > top {
        proof {
            if h.fits(resolution as nat) {
                h.lemma_fits_mono((top + 1) as nat, resolution as nat);
            }
        }
        return invalid("resolution is deeper than 64-bit cids reach");
    }
    proof {
        h.lemma_fits_mono(resolution as nat, top as nat);
    }
    let mut list: Vec<Cid> = Vec::new();
    let mut j: usize = 0;
    while j < nodes.len()
        invariant
            h.valid(),
            j <= nodes@.len(),
            list@ == nodes@.take(j as int),
            nodes_above(*h, resolution as nat, nodes@.take(j as int)),
        decreases nodes@.len() - j,
    {
        let c = nodes[j];
        let ok = h.check(c, Some(resolution));
        if ok.is_err() {
            proof {
                assert(nodes@[j as int] == c);
            }
            return invalid("a node is not a cid no deeper than the resolution");
        }
        list.push(c);
        proof {
            assert(nodes@.take(j + 1) =~= nodes@.take(j as int).push(c));
        }
        j = j + 1;
    }
    proof {
        assert(nodes@.take(nodes@.len() as int) =~= nodes@);
        assert forall|jj: int| 0 <= jj < list@.len() implies h.is_cid(#[trigger] list@[jj] as int) by {}
    }
    let out = cells_meeting(*h, &list, resolution);
    proof {
        reveal(pow);
        assert forall|x: Cid| #[trigger] out@.contains(x) <==> under_nodes(*h, resolution as nat, nodes@, x as int) by {
            if out@.contains(x) {
                let jj = choose|jj: int| 0 <= jj < list@.len() && meets(*h, #[trigger] list@[jj] as int, resolution as nat, x as int);
                let c = list@[jj] as int;
                if h.spec_is_ancestor(x as int, c) {
                    assert(h.spec_level(c) == resolution);
                    assert(pow(h.a as int, 0) == 1);
                }
                assert(h.spec_is_ancestor(nodes@[jj] as int, x as int));
            }
            if under_nodes(*h, resolution as nat, nodes@, x as int) {
                let jj = choose|jj: int| 0 <= jj < nodes@.len() && h.spec_is_ancestor(#[trigger] nodes@[jj] as int, x as int);
                assert(meets(*h, list@[jj] as int, resolution as nat, x as int));
            }
        }
    }
    Ok(out)
}

/// Listing a cover's cells agrees with building it from its nodes: a tree over the cells
/// `polyfill_cells` lists for a cover's nodes covers the same leaves, and has the same root, as the
/// tree over the nodes themselves.
pub proof fn lemma_cells_agree_with_cover(nodes: Seq<Cid>, cells: Seq<Cid>, t_nodes: &Tree, t_cells: &Tree)
    requires
        t_nodes.wf(),
        t_cells.wf(),
        t_cells.h == t_nodes.h,
        t_cells.d == t_nodes.d,
        nodes_above(t_nodes.h, t_nodes.d as nat, nodes),
        forall|x: Cid| #[trigger] cells.contains(x) <==> under_nodes(t_nodes.h, t_nodes.d as nat, nodes, x as int),
        forall|x: int| #[trigger] t_nodes.covered(x) <==> t_nodes.is_leaf(x) && Tree::under_some(t_nodes.h, nodes, x),
        forall|x: int| #[trigger] t_cells.covered(x) <==> t_cells.is_leaf(x) && Tree::under_some(t_nodes.h, cells, x),
    ensures
        t_cells.leaf_set() == t_nodes.leaf_set(),
        t_cells.spec_root() == t_nodes.spec_root(),
{
    let h = t_nodes.h;
    let d = t_nodes.d as nat;
    assert forall|x: int| t_cells.leaf_set().contains(x) == t_nodes.leaf_set().contains(x) by {
        if t_nodes.is_leaf(x) {
            h.lemma_leaf_split(x);
            let pl = pow(h.a as int, d);
            assert(x < (h.a + h.b) * pl) by (nonlinear_arith)
                requires
                    x == h.lead(x) * pl + x % pl,
                    x % pl < pl,
                    h.lead(x) + 1 <= h.a + h.b,
            ;
            let xc = x as Cid;
            if Tree::under_some(h, nodes, x) {
                assert(under_nodes(h, d, nodes, x));
                assert(cells.contains(xc));
                let j = choose|j: int| 0 <= j < cells.len() && cells[j] == xc;
                reveal(pow);
                assert(pow(h.a as int, 0) == 1);
                assert(x / 1 == x);
                assert(h.spec_is_ancestor(cells[j] as int, x));
            }
            if Tree::under_some(h, cells, x) {
                let j = choose|j: int| 0 <= j < cells.len() && h.spec_is_ancestor(#[trigger] cells[j] as int, x);
                assert(cells.contains(cells[j]));
                assert(under_nodes(h, d, nodes, cells[j] as int));
                reveal(pow);
                assert(pow(h.a as int, 0) == 1);
                assert(x / 1 == cells[j]);
            }
        }
    }
    assert(t_cells.leaf_set() =~= t_nodes.leaf_set());
    lemma_root_determined_by_leaves(t_cells, t_nodes);
}

} // verus!
