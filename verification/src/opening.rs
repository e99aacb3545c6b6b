//! The opening: the one proof shape (coverage claims only).
//!
//! An opening is a tree of steps. A step is either a claim ("this node is constant: empty or
//! full") or `entries`: A child entries (B at the root level), each a bare hash or a nested
//! opening. The verifier recomputes hashes bottom-up and compares with the committed root. The
//! cell a proof speaks about is the sequence of opened positions, so it is structural: a proof
//! moved to another position verifies only where its claim is also true, as between the identical
//! children of a constant node.

use vstd::prelude::*;
use vstd::arithmetic::power::*;
use vstd::arithmetic::div_mod::*;
use std::sync::Arc;
use crate::error::{invalid, Error, Result};
use crate::hash::{digest_eq, ladder, lemma_concat_inj_but_one, lemma_tagged_inj, rungs_are_digests, sha256_collision, sha256_id, spec_node, spec_root, views, Ctx, Digest, Hasher};
use crate::hierarchy::{Cid, Hierarchy};
use crate::tree::{covers, in_block, kid_hashes, lemma_cover_child, lemma_hash_determines_cover, lemma_in_block_val, lemma_leaf_child, lemma_nh_len, lemma_node_hash_form, lemma_walk_covers, nh, node_hash, spec_child, walk, wf_node, Node, Tree};

verus! {

/// A record's `A`, `B` and `D` describe a hierarchy and a depth no deeper than its deepest level.
pub open spec fn spec_valid_shape(a: u32, b: u32, d: u32) -> bool {
    (Hierarchy { a, b }).buildable() && (Hierarchy { a, b }).fits(d as nat)
}

/// Whether a record's shape is one `wire_shape` accepts.
pub fn valid_shape(a: u32, b: u32, d: u32) -> (r: bool)
    ensures
        r == spec_valid_shape(a, b, d),
{
    match Hierarchy::new(a, b) {
        Ok(h) => {
            let m = h.max_level();
            proof {
                if d <= m {
                    h.lemma_fits_mono(d as nat, m as nat);
                } else if h.fits(d as nat) {
                    h.lemma_fits_mono((m + 1) as nat, d as nat);
                }
            }
            d <= m
        },
        Err(_) => false,
    }
}

/// A record's `A`, `B` and `D`, as the wire carries them (absent, or any 64-bit number): a
/// hierarchy and a depth no deeper than its deepest level. A number that does not fit is
/// refused, never truncated, so each field has one spelling.
pub fn wire_shape(a: Option<u64>, b: Option<u64>, d: Option<u64>) -> (r: Result<(u32, u32, u32)>)
    ensures
        r is Ok <==> (a matches Some(x) && x <= u32::MAX) && (b matches Some(y) && y <= u32::MAX)
            && (d matches Some(z) && z <= u32::MAX) && spec_valid_shape(a->0 as u32, b->0 as u32, d->0 as u32),
        r matches Ok((x, y, z)) ==> x == a->0 && y == b->0 && z == d->0,
{
    let a = match a {
        Some(x) => x,
        None => return invalid("missing A"),
    };
    if a > u32::MAX as u64 {
        return invalid("A is out of range");
    }
    let b = match b {
        Some(x) => x,
        None => return invalid("missing B"),
    };
    if b > u32::MAX as u64 {
        return invalid("B is out of range");
    }
    let d = match d {
        Some(x) => x,
        None => return invalid("missing D"),
    };
    if d > u32::MAX as u64 {
        return invalid("D is out of range");
    }
    let (a, b, d) = (a as u32, b as u32, d as u32);
    let h = Hierarchy::new(a, b)?;
    let m = h.max_level();
    if d > m {
        proof {
            if h.fits(d as nat) {
                h.lemma_fits_mono((m + 1) as nat, d as nat);
            }
        }
        return invalid("D is deeper than the deepest level");
    }
    proof {
        h.lemma_fits_mono(d as nat, m as nat);
    }
    Ok((a, b, d))
}

/// The constant a claim asserts.
#[derive(Debug, Clone, Copy, PartialEq, Eq, Structural)]
pub enum Claim {
    Empty,
    Full,
}

/// One entry of an opened node: a child's bare hash, or the child opened further.
#[derive(Debug, PartialEq, Eq)]
pub enum Entry {
    Hash(Digest),
    Open(Box<Opening>),
}

/// A claim that a node is constant, or the entries of a node.
#[derive(Debug, PartialEq, Eq)]
pub enum Opening {
    Claim(Claim),
    Entries(Vec<Entry>),
}

/// A deep copy of an opening.
fn copy_opening(op: &Opening) -> (r: Opening)
    ensures
        r is Claim <==> op is Claim,
        r matches Opening::Claim(c) ==> *op == Opening::Claim(c),
    decreases *op,
{
    match op {
        Opening::Claim(c) => Opening::Claim(*c),
        Opening::Entries(es) => {
            let n = es.len();
            let mut v: Vec<Entry> = Vec::new();
            let mut i: usize = 0;
            while i < n
                invariant
                    n == es@.len(),
                    *op == Opening::Entries(*es),
                    i <= n,
                    v@.len() == i,
                decreases n - i,
            {
                let e = match &es[i] {
                    Entry::Hash(h) => Entry::Hash(*h),
                    Entry::Open(o) => {
                        proof {
                            assert(decreases_to!(*op => op->Entries_0));
                            assert(decreases_to!(*es => es@));
                            assert(decreases_to!(es@ => es@[i as int]));
                            assert(decreases_to!(es@[i as int] => *o));
                        }
                        Entry::Open(Box::new(copy_opening(o)))
                    },
                };
                v.push(e);
                i = i + 1;
            }
            Opening::Entries(v)
        },
    }
}

impl Clone for Opening {
    fn clone(&self) -> (r: Opening)
        ensures
            r is Claim <==> self is Claim,
            r matches Opening::Claim(c) ==> *self == Opening::Claim(c),
    {
        copy_opening(self)
    }
}

impl Clone for Entry {
    fn clone(&self) -> (r: Entry)
        ensures
            r matches Entry::Hash(h) ==> *self == Entry::Hash(h),
            r is Open <==> self is Open,
    {
        match self {
            Entry::Hash(h) => Entry::Hash(*h),
            Entry::Open(o) => Entry::Open(Box::new(copy_opening(o))),
        }
    }
}

/// The positions of the opened entries, in order.
pub open spec fn opened(es: Seq<Entry>) -> Seq<int>
    decreases es.len(),
{
    if es.len() == 0 {
        Seq::empty()
    } else {
        opened(es.drop_last()) + if es.last() is Open {
            seq![es.len() - 1]
        } else {
            Seq::<int>::empty()
        }
    }
}

/// The opened positions `(b, d_1, ...)` if exactly one entry is opened per level.
pub open spec fn spec_path(op: Opening) -> Option<Seq<u32>>
    decreases op,
{
    match op {
        Opening::Claim(_) => Some(Seq::empty()),
        Opening::Entries(es) => {
            let i = opened(es@)[0];
            if opened(es@).len() == 1 && 0 <= i < es@.len() {
                match es@[i] {
                    Entry::Open(o) => match spec_path(*o) {
                        Some(p) => Some(seq![i as u32] + p),
                        None => None,
                    },
                    Entry::Hash(_) => None,
                }
            } else {
                None
            }
        },
    }
}

/// The claim at the end of a single-path opening.
pub open spec fn spec_terminal(op: Opening) -> Option<Claim>
    decreases op,
{
    match op {
        Opening::Claim(c) => Some(c),
        Opening::Entries(es) => {
            let i = opened(es@)[0];
            if opened(es@).len() == 1 && 0 <= i < es@.len() {
                match es@[i] {
                    Entry::Open(o) => spec_terminal(*o),
                    Entry::Hash(_) => None,
                }
            } else {
                None
            }
        },
    }
}

/// The node hash an opening recomputes at `d` levels above the leaves of aperture `a`, or
/// `None` if it is malformed.
pub open spec fn spec_opening_hash(op: Opening, a: nat, d: nat) -> Option<Seq<u8>>
    decreases op, 2nat,
{
    match op {
        Opening::Claim(Claim::Empty) => Some(ladder(false, a, d)),
        Opening::Claim(Claim::Full) => Some(ladder(true, a, d)),
        Opening::Entries(es) => if d < 1 || es@.len() != a {
            None
        } else {
            match spec_entry_hashes(es@, a, (d - 1) as nat) {
                Some(k) => Some(spec_node(k)),
                None => None,
            }
        },
    }
}

/// The hashes of entries sitting `d` levels above the leaves, if every one recomputes.
pub open spec fn spec_entry_hashes(es: Seq<Entry>, a: nat, d: nat) -> Option<Seq<Seq<u8>>>
    decreases es, 1nat,
{
    if es.len() == 0 {
        Some(Seq::empty())
    } else {
        match (spec_entry_hashes(es.drop_last(), a, d), entry_hash(es.last(), a, d)) {
            (Some(k), Some(h)) => Some(k.push(h)),
            _ => None,
        }
    }
}

/// The hash of one entry sitting `d` levels above the leaves.
pub open spec fn entry_hash(e: Entry, a: nat, d: nat) -> Option<Seq<u8>>
    decreases e, 0nat,
{
    match e {
        Entry::Hash(h) => Some(h@),
        Entry::Open(o) => spec_opening_hash(*o, a, d),
    }
}

/// An opening verifies against a root: `b` entries whose hashes recompute, and the root over them.
pub open spec fn spec_verify_opening(op: Opening, root: Seq<u8>, a: nat, b: nat, d: nat) -> bool {
    match op {
        Opening::Entries(es) => es@.len() == b && match spec_entry_hashes(es@, a, d) {
            Some(k) => spec_root(k) == root,
            None => false,
        },
        Opening::Claim(_) => false,
    }
}

/// The claim a constant node makes.
pub open spec fn claim_of(n: Node) -> Option<Claim> {
    match n {
        Node::Empty => Some(Claim::Empty),
        Node::Full => Some(Claim::Full),
        Node::Branch(_) => None,
    }
}

/// A path, if any, as its digits.
pub open spec fn path_view(r: Option<Vec<u32>>) -> Option<Seq<u32>> {
    match r {
        Some(v) => Some(v@),
        None => None,
    }
}

/// A digest, if any, as its bytes.
pub open spec fn digest_view(o: Option<Digest>) -> Option<Seq<u8>> {
    match o {
        Some(x) => Some(x@),
        None => None,
    }
}

/// The opened positions are the positions of `Open` entries.
pub proof fn lemma_opened(es: Seq<Entry>)
    ensures
        forall|k: int| 0 <= k < opened(es).len() ==> 0 <= #[trigger] opened(es)[k] < es.len() && es[opened(es)[k]] is Open,
        forall|i: int| 0 <= i < es.len() && es[i] is Open ==> #[trigger] opened(es).contains(i),
    decreases es.len(),
{
    if es.len() > 0 {
        let q = es.drop_last();
        lemma_opened(q);
        let oq = opened(q);
        let tail = if es.last() is Open { seq![es.len() - 1] } else { Seq::<int>::empty() };
        assert(opened(es) == oq + tail);
        assert forall|k: int| 0 <= k < opened(es).len() implies 0 <= #[trigger] opened(es)[k] < es.len() && es[opened(es)[k]] is Open by {
            if k < oq.len() {
                assert(opened(es)[k] == oq[k]);
                assert(es[oq[k]] == q[oq[k]]);
            } else {
                assert(opened(es)[k] == tail[k - oq.len()]);
            }
        }
        assert forall|i: int| 0 <= i < es.len() && es[i] is Open implies #[trigger] opened(es).contains(i) by {
            if i < es.len() - 1 {
                assert(q[i] == es[i]);
                assert(oq.contains(i));
                let k = choose|k: int| 0 <= k < oq.len() && oq[k] == i;
                assert(opened(es)[k] == i);
            } else {
                assert(tail == seq![i]);
                assert(opened(es)[oq.len() as int] == i);
            }
        }
    }
}

/// Entry hashes recompute exactly when each entry's does, position by position.
pub proof fn lemma_entry_hashes(es: Seq<Entry>, a: nat, d: nat)
    ensures
        spec_entry_hashes(es, a, d) is Some <==> forall|i: int| 0 <= i < es.len() ==> #[trigger] entry_hash(es[i], a, d) is Some,
        spec_entry_hashes(es, a, d) matches Some(k) ==> k.len() == es.len()
            && forall|i: int| 0 <= i < es.len() ==> entry_hash(#[trigger] es[i], a, d) == Some(k[i]),
    decreases es.len(),
{
    if es.len() > 0 {
        let q = es.drop_last();
        lemma_entry_hashes(q, a, d);
        assert forall|i: int| 0 <= i < q.len() implies #[trigger] q[i] == es[i] by {}
        let last = es.len() - 1;
        assert(es.last() == es[last]);
        if spec_entry_hashes(es, a, d) is Some {
            let k = spec_entry_hashes(es, a, d)->0;
            let kq = spec_entry_hashes(q, a, d)->0;
            assert(k == kq.push(entry_hash(es.last(), a, d)->0));
            assert forall|i: int| 0 <= i < es.len() implies entry_hash(#[trigger] es[i], a, d) == Some(k[i]) by {
                if i < last {
                    assert(q[i] == es[i]);
                }
            }
        }
        if forall|i: int| 0 <= i < es.len() ==> #[trigger] entry_hash(es[i], a, d) is Some {
            assert forall|i: int| 0 <= i < q.len() implies #[trigger] entry_hash(q[i], a, d) is Some by {
                assert(q[i] == es[i]);
            }
            assert(entry_hash(es[last], a, d) is Some);
        } else {
            let i = choose|i: int| 0 <= i < es.len() && !(#[trigger] entry_hash(es[i], a, d) is Some);
            if i < last {
                assert(q[i] == es[i]);
                assert(!(entry_hash(q[i], a, d) is Some));
            }
        }
    }
}

impl Opening {
    /// The opened positions `(b, d_1, ...)` if exactly one entry is opened per level.
    pub fn path(&self) -> (r: Option<Vec<u32>>)
        ensures
            path_view(r) == spec_path(*self),
        decreases *self,
    {
        match self {
            Opening::Claim(_) => Some(Vec::new()),
            Opening::Entries(es) => {
                let i = match single_open(es) {
                    Some(i) => i,
                    None => return None,
                };
                match &es[i] {
                    Entry::Open(o) => {
                        match o.path() {
                            Some(p) => {
                                let mut v: Vec<u32> = Vec::new();
                                v.push(i as u32);
                                let n = p.len();
                                let mut j: usize = 0;
                                while j < n
                                    invariant
                                        n == p@.len(),
                                        j <= n,
                                        v@ == seq![i as u32] + p@.take(j as int),
                                    decreases n - j,
                                {
                                    v.push(p[j]);
                                    j = j + 1;
                                    assert(v@ =~= seq![i as u32] + p@.take(j as int));
                                }
                                assert(p@.take(n as int) =~= p@);
                                Some(v)
                            },
                            None => None,
                        }
                    },
                    Entry::Hash(_) => None,
                }
            },
        }
    }

    /// The claim at the end of a single-path opening.
    pub fn terminal(&self) -> (r: Option<Claim>)
        ensures
            r == spec_terminal(*self),
        decreases *self,
    {
        match self {
            Opening::Claim(c) => Some(*c),
            Opening::Entries(es) => {
                let i = match single_open(es) {
                    Some(i) => i,
                    None => return None,
                };
                match &es[i] {
                    Entry::Open(o) => o.terminal(),
                    Entry::Hash(_) => None,
                }
            },
        }
    }
}

/// The one opened position, if exactly one entry is opened.
fn single_open(es: &Vec<Entry>) -> (r: Option<usize>)
    ensures
        r is Some <==> opened(es@).len() == 1,
        r matches Some(i) ==> i == opened(es@)[0] && i < es@.len(),
{
    proof {
        lemma_opened(es@);
    }
    let n = es.len();
    let mut count: usize = 0;
    let mut first: usize = 0;
    let mut j: usize = 0;
    while j < n
        invariant
            n == es@.len(),
            j <= n,
            count == opened(es@.take(j as int)).len(),
            count >= 1 ==> first == opened(es@.take(j as int))[0],
            count <= j,
        decreases n - j,
    {
        let ghost before = opened(es@.take(j as int));
        proof {
            assert(es@.take(j + 1).drop_last() =~= es@.take(j as int));
            assert(es@.take(j + 1).last() == es@[j as int]);
        }
        let is_open = match &es[j] {
            Entry::Open(_) => true,
            Entry::Hash(_) => false,
        };
        if is_open {
            proof {
                assert(opened(es@.take(j + 1)) == before + seq![j as int]);
                if count >= 1 {
                    assert(opened(es@.take(j + 1))[0] == before[0]);
                }
            }
            if count == 0 {
                first = j;
            }
            count = count + 1;
        } else {
            proof {
                assert(opened(es@.take(j + 1)) =~= before);
            }
        }
        j = j + 1;
    }
    proof {
        assert(es@.take(n as int) =~= es@);
    }
    if count == 1 {
        Some(first)
    } else {
        None
    }
}

/// The node hash an opening recomputes at `d` levels above the leaves, or `None` if malformed.
pub fn opening_hash(op: &Opening, d: u32, ctx: &Ctx) -> (r: Option<Digest>)
    requires
        ctx.wf(),
        d <= ctx.depth(),
    ensures
        digest_view(r) == spec_opening_hash(*op, ctx.a as nat, d as nat),
    decreases *op,
{
    match op {
        Opening::Claim(Claim::Empty) => Some(ctx.ladders.empty(d)),
        Opening::Claim(Claim::Full) => Some(ctx.ladders.full(d)),
        Opening::Entries(es) => {
            if d < 1 || es.len() != ctx.a as usize {
                return None;
            }
            let kids = match entry_hashes(es, d - 1, ctx) {
                Some(k) => k,
                None => return None,
            };
            Some(ctx.hasher.node(kids.as_slice()))
        },
    }
}

/// The hashes of entries sitting `d` levels above the leaves, if every one recomputes.
fn entry_hashes(es: &Vec<Entry>, d: u32, ctx: &Ctx) -> (r: Option<Vec<Digest>>)
    requires
        ctx.wf(),
        d <= ctx.depth(),
    ensures
        match r {
            Some(k) => spec_entry_hashes(es@, ctx.a as nat, d as nat) == Some(views(k@)),
            None => spec_entry_hashes(es@, ctx.a as nat, d as nat) is None,
        },
    decreases es@,
{
    let n = es.len();
    let mut kids: Vec<Digest> = Vec::new();
    let mut j: usize = 0;
    while j < n
        invariant
            ctx.wf(),
            d <= ctx.depth(),
            n == es@.len(),
            j <= n,
            kids@.len() == j,
            forall|i: int| 0 <= i < j ==> entry_hash(es@[i], ctx.a as nat, d as nat) == Some(#[trigger] kids@[i]@),
        decreases n - j,
    {
        match &es[j] {
            Entry::Hash(h) => kids.push(*h),
            Entry::Open(o) => {
                match opening_hash(o, d, ctx) {
                    Some(h) => kids.push(h),
                    None => {
                        proof {
                            lemma_entry_hashes(es@, ctx.a as nat, d as nat);
                            assert(entry_hash(es@[j as int], ctx.a as nat, d as nat) is None);
                        }
                        return None;
                    },
                }
            },
        }
        j = j + 1;
    }
    proof {
        lemma_entry_hashes(es@, ctx.a as nat, d as nat);
        assert forall|i: int| 0 <= i < es@.len() implies #[trigger] entry_hash(es@[i], ctx.a as nat, d as nat) is Some by {
            assert(entry_hash(es@[i], ctx.a as nat, d as nat) == Some(kids@[i]@));
        }
        let k = spec_entry_hashes(es@, ctx.a as nat, d as nat)->0;
        assert forall|i: int| 0 <= i < es@.len() implies #[trigger] k[i] == views(kids@)[i] by {
            assert(entry_hash(es@[i], ctx.a as nat, d as nat) == Some(kids@[i]@));
        }
        assert(k =~= views(kids@));
    }
    Some(kids)
}

/// Stateless: recompute the root from the opening. Never panics on malformed input.
pub fn verify_opening(op: &Opening, root: &Digest, d: u32, ctx: &Ctx) -> (r: bool)
    requires
        ctx.wf(),
    ensures
        r == (d <= ctx.depth() && spec_verify_opening(*op, root@, ctx.a as nat, ctx.b as nat, d as nat)),
{
    if d > ctx.ladders.depth() {
        return false;
    }
    let es = match op {
        Opening::Entries(es) => {
            if es.len() == ctx.b as usize {
                es
            } else {
                return false;
            }
        },
        _ => return false,
    };
    let bases = match entry_hashes(es, d, ctx) {
        Some(k) => k,
        None => return false,
    };
    let got = ctx.hasher.root(bases.as_slice());
    digest_eq(&got, root)
}

/// The opening of a node `d` levels above the leaves along the digits `path[pos..]`.
fn open_node(node: &Node, path: &Vec<u32>, pos: usize, d: u32, ctx: &Ctx) -> (r: Option<Opening>)
    requires
        ctx.wf(),
        ctx.a >= 2,
        d <= ctx.depth(),
        wf_node(*node, ctx.a as nat, d as nat),
        pos <= path@.len(),
        path@.len() - pos <= d,
        forall|j: int| pos <= j < path@.len() ==> #[trigger] path@[j] < ctx.a,
    ensures
        r is None <==> walk(*node, path@.subrange(pos as int, path@.len() as int)) is Branch,
        r matches Some(op) ==> spec_opening_hash(op, ctx.a as nat, d as nat) == Some(nh(*node, ctx.a as nat, d as nat))
            && spec_path(op) == Some(path@.subrange(pos as int, path@.len() as int))
            && spec_terminal(op) == claim_of(walk(*node, path@.subrange(pos as int, path@.len() as int))),
    decreases path@.len() - pos,
{
    let ghost a = ctx.a as nat;
    let ghost ds = path@.subrange(pos as int, path@.len() as int);
    if pos == path.len() {
        return match node {
            Node::Branch(_) => None,
            Node::Empty => Some(Opening::Claim(Claim::Empty)),
            Node::Full => Some(Opening::Claim(Claim::Full)),
        };
    }
    proof {
        lemma_node_hash_form(*node, a, d as nat);
        assert(ds.drop_first() =~= path@.subrange(pos + 1, path@.len() as int));
        assert(ds[0] == path@[pos as int]);
    }
    let k = path[pos] as usize;
    let child = node.child(k);
    let nested = match open_node(&child, path, pos + 1, d - 1, ctx) {
        Some(o) => o,
        None => return None,
    };
    let n = ctx.a as usize;
    let mut entries: Vec<Entry> = Vec::new();
    let mut i: usize = 0;
    while i < k
        invariant
            ctx.wf(),
            1 <= d <= ctx.depth(),
            k < n,
            n == a,
            a == ctx.a,
            *node is Branch ==> node->Branch_0.children@.len() == n,
            i <= k,
            entries@.len() == i,
            forall|j: int| 0 <= j < i ==> #[trigger] entries@[j] == Entry::Hash(entries@[j]->Hash_0)
                && entries@[j]->Hash_0@ == nh(spec_child(*node, j), a, (d - 1) as nat),
        decreases k - i,
    {
        entries.push(Entry::Hash(node_hash(&node.child(i), d - 1, ctx)));
        i = i + 1;
    }
    let ghost nested_v = nested;
    entries.push(Entry::Open(Box::new(nested)));
    let mut i: usize = k + 1;
    while i < n
        invariant
            ctx.wf(),
            1 <= d <= ctx.depth(),
            k < n,
            n == a,
            a == ctx.a,
            *node is Branch ==> node->Branch_0.children@.len() == n,
            k + 1 <= i <= n,
            entries@.len() == i,
            entries@[k as int] matches Entry::Open(o) && *o == nested_v,
            forall|j: int| 0 <= j < i && j != k ==> #[trigger] entries@[j] == Entry::Hash(entries@[j]->Hash_0)
                && entries@[j]->Hash_0@ == nh(spec_child(*node, j), a, (d - 1) as nat),
        decreases n - i,
    {
        entries.push(Entry::Hash(node_hash(&node.child(i), d - 1, ctx)));
        i = i + 1;
    }
    let ghost es = entries@;
    proof {
        lemma_entry_hashes(es, a, (d - 1) as nat);
        lemma_opened(es);
        assert forall|j: int| 0 <= j < es.len() implies #[trigger] entry_hash(es[j], a, (d - 1) as nat) == Some(kid_hashes(*node, a, d as nat)[j]) by {}
        assert(spec_entry_hashes(es, a, (d - 1) as nat) is Some);
        let kh = spec_entry_hashes(es, a, (d - 1) as nat)->0;
        assert forall|j: int| 0 <= j < es.len() implies #[trigger] kh[j] == kid_hashes(*node, a, d as nat)[j] by {
            assert(entry_hash(es[j], a, (d - 1) as nat) == Some(kid_hashes(*node, a, d as nat)[j]));
        }
        assert(kh =~= kid_hashes(*node, a, d as nat));
        let o = opened(es);
        assert(o.contains(k as int));
        assert forall|m: int| 0 <= m < o.len() implies #[trigger] o[m] == k by {}
        assert(o.len() == 1) by {
            if o.len() > 1 {
                assert(o[0] == k && o[1] == k);
                crate::opening::lemma_opened_distinct(es);
            }
        }
    }
    Some(Opening::Entries(entries))
}

/// The opened positions are distinct.
pub proof fn lemma_opened_distinct(es: Seq<Entry>)
    ensures
        forall|i: int, j: int| 0 <= i < j < opened(es).len() ==> opened(es)[i] < opened(es)[j],
    decreases es.len(),
{
    if es.len() > 0 {
        let q = es.drop_last();
        lemma_opened_distinct(q);
        lemma_opened(q);
    }
}

/// Open `tree` along the path to `cid`. The terminal claim is the constant found at `cid`, which
/// may be inherited from a constant ancestor. `None` iff `cid` is a partial node.
pub fn open_path(tree: &Tree, cid: Cid) -> (r: Result<Option<Opening>>)
    requires
        tree.wf(),
    ensures
        r is Ok <==> tree.h.is_cid(cid as int) && tree.h.spec_level(cid as int) <= tree.d,
        r matches Ok(o) ==> (o is None <==> walk(tree.bases@[tree.h.path_of(cid as int)[0] as int], tree.h.path_of(cid as int).drop_first()) is Branch),
        r matches Ok(Some(op)) ==> spec_verify_opening(op, tree.spec_root(), tree.h.a as nat, tree.h.b as nat, tree.d as nat)
            && spec_path(op) == Some(tree.h.path_of(cid as int))
            && spec_terminal(op) == claim_of(walk(tree.bases@[tree.h.path_of(cid as int)[0] as int], tree.h.path_of(cid as int).drop_first()))
            && forall|x: int| tree.is_leaf(x) && tree.h.spec_is_ancestor(cid as int, x)
                ==> (#[trigger] tree.covered(x) <==> spec_terminal(op) == Some(Claim::Full)),
{
    tree.h.check(cid, Some(tree.d))?;
    let path = tree.h.path(cid)?;
    proof {
        tree.h.lemma_path_cid(cid as int);
        assert(path@.subrange(1, path@.len() as int) =~= path@.drop_first());
    }
    let ghost a = tree.h.a as nat;
    let b = path[0] as usize;
    let nested = match open_node(&tree.bases[b], &path, 1, tree.d, &tree.ctx) {
        Some(n) => n,
        None => return Ok(None),
    };
    let nb = tree.h.b as usize;
    let mut entries: Vec<Entry> = Vec::new();
    let mut i: usize = 0;
    while i < b
        invariant
            tree.wf(),
            b < nb,
            nb == tree.h.b,
            i <= b,
            entries@.len() == i,
            forall|j: int| 0 <= j < i ==> #[trigger] entries@[j] == Entry::Hash(entries@[j]->Hash_0)
                && entries@[j]->Hash_0@ == tree.spec_base_hashes()[j],
        decreases b - i,
    {
        entries.push(Entry::Hash(tree.subtree_hash(i)));
        i = i + 1;
    }
    let ghost nested_v = nested;
    entries.push(Entry::Open(Box::new(nested)));
    let mut i: usize = b + 1;
    while i < nb
        invariant
            tree.wf(),
            b < nb,
            nb == tree.h.b,
            b + 1 <= i <= nb,
            entries@.len() == i,
            entries@[b as int] matches Entry::Open(o) && *o == nested_v,
            forall|j: int| 0 <= j < i && j != b ==> #[trigger] entries@[j] == Entry::Hash(entries@[j]->Hash_0)
                && entries@[j]->Hash_0@ == tree.spec_base_hashes()[j],
        decreases nb - i,
    {
        entries.push(Entry::Hash(tree.subtree_hash(i)));
        i = i + 1;
    }
    let ghost es = entries@;
    proof {
        let d = tree.d as nat;
        lemma_entry_hashes(es, a, d);
        lemma_opened(es);
        lemma_opened_distinct(es);
        assert forall|j: int| 0 <= j < es.len() implies #[trigger] entry_hash(es[j], a, d) == Some(tree.spec_base_hashes()[j]) by {}
        assert(spec_entry_hashes(es, a, d) is Some);
        let kh = spec_entry_hashes(es, a, d)->0;
        assert forall|j: int| 0 <= j < es.len() implies #[trigger] kh[j] == tree.spec_base_hashes()[j] by {
            assert(entry_hash(es[j], a, d) == Some(tree.spec_base_hashes()[j]));
        }
        assert(kh =~= tree.spec_base_hashes());
        let o = opened(es);
        assert(o.contains(b as int));
        assert forall|m: int| 0 <= m < o.len() implies #[trigger] o[m] == b by {}
        if o.len() > 1 {
            assert(o[0] == b && o[1] == b);
        }
        assert(seq![b as u32] + path@.drop_first() =~= path@);
        assert forall|x: int| tree.is_leaf(x) && tree.h.spec_is_ancestor(cid as int, x)
            implies (#[trigger] tree.covered(x) <==> claim_of(walk(tree.bases@[b as int], path@.drop_first())) == Some(Claim::Full)) by {
            lemma_leaf_under_cell(*tree, cid as int, x);
        }
    }
    Ok(Some(Opening::Entries(entries)))
}

/// A leaf under a cell lies under its base cell in the sub-block of its digits, and is covered as
/// it is under the node the digits lead to.
proof fn lemma_leaf_under_cell(t: Tree, c: int, x: int)
    requires
        t.wf(),
        t.h.is_cid(c),
        t.h.spec_level(c) <= t.d,
        t.is_leaf(x),
        t.h.spec_is_ancestor(c, x),
    ensures
        t.h.lead(x) - t.h.a == t.h.path_of(c)[0],
        in_block(t.h.path_of(c).drop_first(), t.h.a as nat, t.d as nat, x % pow(t.h.a as int, t.d as nat)),
        !(walk(t.bases@[t.h.path_of(c)[0] as int], t.h.path_of(c).drop_first()) is Branch) ==> (t.covered(x)
            <==> walk(t.bases@[t.h.path_of(c)[0] as int], t.h.path_of(c).drop_first()) is Full),
{
    let (h, a, d) = (t.h, t.h.a as nat, t.d as nat);
    let p = h.path_of(c);
    let ds = p.drop_first();
    h.lemma_path_cid(c);
    h.lemma_ancestor_digits(c, x);
    h.lemma_leaf_split(x);
    let i = x % pow(a as int, d);
    lemma_in_block_val(ds, a, d, i);
    lemma_walk_covers(t.bases@[p[0] as int], ds, a, d, i);
}

/// Without a collision, an opening whose hash is a canonical node's tells the truth about every
/// leaf in the sub-block of its path: covered exactly when its terminal claim is `Full`.
proof fn lemma_opening_node_sound(op: Opening, node: Node, a: nat, d: nat, i: int)
    requires
        !sha256_collision(),
        2 <= a <= u32::MAX,
        wf_node(node, a, d),
        rungs_are_digests(a, d),
        spec_opening_hash(op, a, d) == Some(nh(node, a, d)),
        spec_path(op) is Some,
        spec_terminal(op) is Some,
        0 <= i < pow(a as int, d),
    ensures
        spec_path(op)->0.len() <= d,
        forall|j: int| 0 <= j < spec_path(op)->0.len() ==> #[trigger] spec_path(op)->0[j] < a,
        in_block(spec_path(op)->0, a, d, i) ==> (covers(node, a, d, i) <==> spec_terminal(op) == Some(Claim::Full)),
    decreases op,
{
    match op {
        Opening::Claim(c) => {
            if c == Claim::Empty {
                lemma_hash_determines_cover(node, Node::Empty, a, d);
            } else {
                lemma_hash_determines_cover(node, Node::Full, a, d);
            }
        },
        Opening::Entries(es) => {
            let e = es@;
            let j0 = opened(e)[0];
            let o = e[j0]->Open_0;
            let k = spec_entry_hashes(e, a, (d - 1) as nat)->0;
            lemma_opened(e);
            lemma_entry_hashes(e, a, (d - 1) as nat);
            lemma_node_hash_form(node, a, d);
            let kh = kid_hashes(node, a, d);
            lemma_tagged_inj(2u8, k, 2u8, kh);
            assert(rungs_are_digests(a, (d - 1) as nat));
            assert forall|m: int| 0 <= m < a implies (#[trigger] kh[m]).len() == 32 by {
                lemma_nh_len(spec_child(node, m), a, (d - 1) as nat);
            }
            assert forall|m: int| 0 <= m < k.len() && m != j0 implies (#[trigger] k[m]).len() == 32 by {
                assert(entry_hash(e[m], a, (d - 1) as nat) == Some(k[m]));
                if e[m] is Open {
                    assert(opened(e).contains(m));
                }
            }
            lemma_concat_inj_but_one(k, kh, j0);
            assert(entry_hash(e[j0], a, (d - 1) as nat) == Some(k[j0]));
            let child = spec_child(node, j0);
            let s = pow(a as int, (d - 1) as nat);
            lemma_leaf_child(a, d, i);
            lemma_opening_node_sound(*o, child, a, (d - 1) as nat, i % s);
            let p = spec_path(*o)->0;
            assert(spec_path(op)->0 == seq![j0 as u32] + p);
            assert((seq![j0 as u32] + p).drop_first() =~= p);
            if in_block(spec_path(op)->0, a, d, i) {
                lemma_cover_child(node, a, d, i);
            }
        },
    }
}

/// Soundness of an opening: one that verifies against a canonical tree's root, along a single
/// path, tells the truth about every leaf under the opened cell (as long as SHA-256 has no
/// collision). The path is a valid path of the tree's hierarchy no deeper than the tree.
pub proof fn lemma_opening_sound(op: Opening, t: Tree, x: int)
    requires
        !sha256_collision(),
        t.wf(),
        spec_verify_opening(op, t.spec_root(), t.h.a as nat, t.h.b as nat, t.d as nat),
        spec_path(op) is Some,
        spec_terminal(op) is Some,
    ensures
        t.h.valid_path(spec_path(op)->0),
        spec_path(op)->0.len() - 1 <= t.d,
        t.is_leaf(x) && t.h.spec_is_ancestor(t.h.spec_cid(spec_path(op)->0), x)
            ==> (t.covered(x) <==> spec_terminal(op) == Some(Claim::Full)),
{
    let (h, a, d) = (t.h, t.h.a as nat, t.d as nat);
    let e = op->Entries_0@;
    let j0 = opened(e)[0];
    let o = e[j0]->Open_0;
    let k = spec_entry_hashes(e, a, d)->0;
    lemma_opened(e);
    lemma_entry_hashes(e, a, d);
    t.ctx.lemma_rungs();
    assert(rungs_are_digests(a, d));
    let bh = t.spec_base_hashes();
    lemma_tagged_inj(3u8, k, 3u8, bh);
    assert forall|m: int| 0 <= m < h.b implies (#[trigger] bh[m]).len() == 32 by {
        lemma_nh_len(t.bases@[m], a, d);
    }
    assert forall|m: int| 0 <= m < k.len() && m != j0 implies (#[trigger] k[m]).len() == 32 by {
        assert(entry_hash(e[m], a, d) == Some(k[m]));
        if e[m] is Open {
            assert(opened(e).contains(m));
        }
    }
    lemma_concat_inj_but_one(k, bh, j0);
    assert(entry_hash(e[j0], a, d) == Some(k[j0]));
    lemma_pow_positive(a as int, d);
    lemma_opening_node_sound(*o, t.bases@[j0], a, d, 0);
    let p = spec_path(op)->0;
    let q = spec_path(*o)->0;
    assert(p == seq![j0 as u32] + q);
    assert(p.drop_first() =~= q);
    assert(h.valid_path(p)) by {
        assert forall|m: int| 1 <= m < p.len() implies #[trigger] p[m] < h.a by {
            assert(p[m] == q[m - 1]);
        }
    }
    if t.is_leaf(x) && h.spec_is_ancestor(h.spec_cid(p), x) {
        h.lemma_cid_path(p);
        lemma_leaf_under_cell(t, h.spec_cid(p), x);
        h.lemma_leaf_split(x);
        lemma_opening_node_sound(*o, t.bases@[j0], a, d, x % pow(a as int, d));
    }
}


/// A self-describing opening record: what the proof is about and how to check it.
#[derive(Debug, PartialEq, Eq)]
pub struct OpeningRecord {
    pub hash: String,
    pub a: u32,
    pub b: u32,
    pub d: u32,
    pub root: Digest,
    pub opening: Opening,
}

impl OpeningRecord {
    /// The record of an opening of `tree`.
    pub fn new(tree: &Tree, opening: Opening) -> (r: OpeningRecord)
        requires
            tree.wf(),
        ensures
            r.hash@ == sha256_id(),
            r.a == tree.h.a,
            r.b == tree.h.b,
            r.d == tree.d,
            r.root@ == tree.spec_root(),
            r.opening == opening,
    {
        OpeningRecord { hash: tree.ctx.hasher.id().to_string(), a: tree.h.a, b: tree.h.b, d: tree.d, root: tree.root(), opening }
    }

    /// The cid this record opens, if it is a single path: the path read as a cid under the record's
    /// `A` and `B`, whatever they are, when its base is below `B`, its digits below `A` and its
    /// depth within the deepest level.
    pub fn cid(&self) -> (r: Option<Cid>)
        ensures
            r == (match spec_path(self.opening) {
                Some(p) => if (Hierarchy { a: self.a, b: self.b }).valid_path(p)
                    && (Hierarchy { a: self.a, b: self.b }).fits((p.len() - 1) as nat) {
                    Some((Hierarchy { a: self.a, b: self.b }).spec_cid(p) as u64)
                } else {
                    None
                },
                None => None,
            }),
    {
        let path = match self.opening.path() {
            Some(p) => p,
            None => return None,
        };
        let h = Hierarchy { a: self.a, b: self.b };
        match h.cid(path.as_slice()) {
            Ok(c) => Some(c),
            Err(_) => None,
        }
    }

    /// Verify against a context built from the record's own parameters. `false` on any defect.
    pub fn verify(&self) -> (r: bool)
        ensures
            r == (self.hash@ == sha256_id() && spec_valid_shape(self.a, self.b, self.d)
                && spec_verify_opening(self.opening, self.root@, self.a as nat, self.b as nat, self.d as nat)),
    {
        let h = match crate::hash::hasher_for(self.hash.as_str()) {
            Some(h) => h,
            None => return false,
        };
        if !valid_shape(self.a, self.b, self.d) {
            return false;
        }
        let ctx = Ctx::new(h, self.a, self.b, self.d);
        verify_opening(&self.opening, &self.root, self.d, &ctx)
    }
}

} // verus!
