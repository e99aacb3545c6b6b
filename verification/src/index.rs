//! A coverage index: the catalog-side half of the primitive.
//!
//! A catalog item carries a root; the index keeps the canonical tree the root names, once per
//! distinct root (every scene of one tile shares a footprint and so shares a tree), and answers
//! spatial questions by set algebra rather than geometry:
//!
//! - `query(q)`: for every indexed key, how much of `q` it covers and how much of itself lies in
//!   `q`, as counts of equal-area leaves, plus the set relation.
//! - `attention(level)`: for every cell at `level`, how many indexed trees touch it. Rolled up
//!   to a coarse level this is a fair density of where the catalog's effort is.
//!
//! Every answer is a function of trees only; the index never sees a coordinate. Keys are kept in
//! the order of their characters' code points, which is the byte order of their UTF-8.

use vstd::prelude::*;
use vstd::arithmetic::power::*;
use crate::error::{invalid, Error, Result};
use crate::hash::{digest_eq, hex, sha256_collision, spec_hex, str_is, Digest, Hasher};
use crate::setops::{difference, intersect};
use crate::hierarchy::{upow, Cid, Hierarchy};
use crate::tree::Tree;

verus! {

/// `a` sorts before `b`: at the first place they differ, `a` has the smaller character, or `a`
/// is a proper prefix of `b`.
pub open spec fn key_less(a: Seq<char>, b: Seq<char>) -> bool
    decreases a.len(),
{
    if a.len() == 0 {
        b.len() > 0
    } else if b.len() == 0 {
        false
    } else if a[0] != b[0] {
        (a[0] as int) < (b[0] as int)
    } else {
        key_less(a.drop_first(), b.drop_first())
    }
}

/// No key sorts before itself.
pub proof fn lemma_key_less_irreflexive(a: Seq<char>)
    ensures
        !key_less(a, a),
    decreases a.len(),
{
    if a.len() > 0 {
        lemma_key_less_irreflexive(a.drop_first());
    }
}

/// Of two different keys, one sorts before the other.
pub proof fn lemma_key_less_total(a: Seq<char>, b: Seq<char>)
    requires
        a != b,
    ensures
        key_less(a, b) || key_less(b, a),
    decreases a.len(),
{
    if a.len() > 0 && b.len() > 0 && a[0] == b[0] {
        if a.drop_first() == b.drop_first() {
            assert(a =~= seq![a[0]] + a.drop_first());
            assert(b =~= seq![b[0]] + b.drop_first());
        }
        lemma_key_less_total(a.drop_first(), b.drop_first());
    } else if a.len() == 0 && b.len() == 0 {
        assert(a =~= b);
    } else if a.len() > 0 && b.len() > 0 {
        assert((a[0] as int) != (b[0] as int));
    }
}

/// Sorting before is transitive.
pub proof fn lemma_key_less_transitive(a: Seq<char>, b: Seq<char>, c: Seq<char>)
    requires
        key_less(a, b),
        key_less(b, c),
    ensures
        key_less(a, c),
    decreases a.len(),
{
    if a.len() > 0 && b.len() > 0 && c.len() > 0 && a[0] == b[0] && b[0] == c[0] {
        lemma_key_less_transitive(a.drop_first(), b.drop_first(), c.drop_first());
    }
}

/// The set relation of an indexed item to a query.
#[derive(Debug, Clone, Copy, PartialEq, Eq, Structural)]
pub enum Relation {
    Disjoint,
    Equal,
    /// The item lies within the query.
    Within,
    /// The item contains the query.
    Contains,
    Overlaps,
}

/// The name of a relation.
pub open spec fn spec_relation_name(r: Relation) -> Seq<char> {
    match r {
        Relation::Disjoint => seq!['d', 'i', 's', 'j', 'o', 'i', 'n', 't'],
        Relation::Equal => seq!['e', 'q', 'u', 'a', 'l'],
        Relation::Within => seq!['w', 'i', 't', 'h', 'i', 'n'],
        Relation::Contains => seq!['c', 'o', 'n', 't', 'a', 'i', 'n', 's'],
        Relation::Overlaps => seq!['o', 'v', 'e', 'r', 'l', 'a', 'p', 's'],
    }
}

/// The relation of an item's leaves to a query's: whether each lies within the other.
pub open spec fn spec_relation(item: Set<int>, query: Set<int>) -> Relation {
    let item_in_q = item.subset_of(query);
    let q_in_item = query.subset_of(item);
    if item_in_q && q_in_item {
        Relation::Equal
    } else if item_in_q {
        Relation::Within
    } else if q_in_item {
        Relation::Contains
    } else {
        Relation::Overlaps
    }
}

/// The name of an item's relation to a query says how their leaf sets lie: `equal` when they are
/// the same, `within` when the item's leaves are among the query's and not all of them,
/// `contains` when the query's leaves are among the item's and not all of them, `overlaps`
/// otherwise; and `Disjoint`, which no answer carries since a query lists only keys that share a
/// leaf with it, is named `disjoint`.
pub proof fn lemma_relation_names(item: Set<int>, query: Set<int>)
    ensures
        spec_relation_name(Relation::Disjoint) == seq!['d', 'i', 's', 'j', 'o', 'i', 'n', 't'],
        spec_relation_name(spec_relation(item, query)) == seq!['e', 'q', 'u', 'a', 'l'] <==> item == query,
        spec_relation_name(spec_relation(item, query)) == seq!['w', 'i', 't', 'h', 'i', 'n'] <==> item.subset_of(query) && item != query,
        spec_relation_name(spec_relation(item, query)) == seq!['c', 'o', 'n', 't', 'a', 'i', 'n', 's'] <==> query.subset_of(item) && item != query,
        spec_relation_name(spec_relation(item, query)) == seq!['o', 'v', 'e', 'r', 'l', 'a', 'p', 's'] <==> !item.subset_of(query) && !query.subset_of(item),
{
    let names = seq![
        seq!['d', 'i', 's', 'j', 'o', 'i', 'n', 't'],
        seq!['e', 'q', 'u', 'a', 'l'],
        seq!['w', 'i', 't', 'h', 'i', 'n'],
        seq!['c', 'o', 'n', 't', 'a', 'i', 'n', 's'],
        seq!['o', 'v', 'e', 'r', 'l', 'a', 'p', 's'],
    ];
    assert(names[2] != names[3] && names[2] != names[4] && names[3] != names[4] && names[1] != names[2]
        && names[1] != names[3] && names[1] != names[4]) by {
        assert(names[2].len() != names[3].len());
        assert(names[2].len() != names[4].len());
        assert(names[3][0] != names[4][0]);
        assert(names[1].len() != names[2].len());
        assert(names[1].len() != names[3].len());
        assert(names[1].len() != names[4].len());
    }
    if item.subset_of(query) && query.subset_of(item) {
        assert(item =~= query);
    }
}

impl Relation {
    pub fn name(self) -> (r: &'static str)
        ensures
            r@ == spec_relation_name(self),
    {
        match self {
            Relation::Disjoint => {
                let r = "disjoint";
                proof {
                    reveal_strlit("disjoint");
                }
                r
            },
            Relation::Equal => {
                let r = "equal";
                proof {
                    reveal_strlit("equal");
                }
                r
            },
            Relation::Within => {
                let r = "within";
                proof {
                    reveal_strlit("within");
                }
                r
            },
            Relation::Contains => {
                let r = "contains";
                proof {
                    reveal_strlit("contains");
                }
                r
            },
            Relation::Overlaps => {
                let r = "overlaps";
                proof {
                    reveal_strlit("overlaps");
                }
                r
            },
        }
    }
}

/// Whether `a` sorts before `b`, before them both being equal, or after.
fn key_order(a: &str, b: &str) -> (r: i8)
    ensures
        r < 0 <==> key_less(a@, b@),
        r == 0 <==> a@ == b@,
        r > 0 <==> key_less(b@, a@),
{
    let n = a.unicode_len();
    let m = b.unicode_len();
    let mut i: usize = 0;
    proof {
        assert(a@.skip(0) =~= a@);
        assert(b@.skip(0) =~= b@);
    }
    while i < n && i < m
        invariant
            n == a@.len(),
            m == b@.len(),
            i <= n,
            i <= m,
            a@.take(i as int) == b@.take(i as int),
            key_less(a@, b@) == key_less(a@.skip(i as int), b@.skip(i as int)),
            key_less(b@, a@) == key_less(b@.skip(i as int), a@.skip(i as int)),
        decreases n - i,
    {
        let x = a.get_char(i);
        let y = b.get_char(i);
        proof {
            assert(a@.skip(i as int)[0] == x);
            assert(b@.skip(i as int)[0] == y);
            assert(a@.skip(i as int).drop_first() =~= a@.skip(i + 1));
            assert(b@.skip(i as int).drop_first() =~= b@.skip(i + 1));
        }
        if (x as u32) < (y as u32) {
            proof {
                lemma_key_less_irreflexive(a@);
                assert(a@ != b@) by {
                    assert(a@[i as int] != b@[i as int]);
                }
            }
            return -1;
        }
        if (y as u32) < (x as u32) {
            proof {
                assert(a@ != b@) by {
                    assert(a@[i as int] != b@[i as int]);
                }
            }
            return 1;
        }
        proof {
            assert(x == y);
            assert(a@.take(i + 1) =~= a@.take(i as int).push(x));
            assert(b@.take(i + 1) =~= b@.take(i as int).push(y));
        }
        i = i + 1;
    }
    proof {
        assert(a@.take(i as int) =~= a@.take(i as int));
        if n == m {
            assert(a@ =~= a@.take(i as int));
            assert(b@ =~= b@.take(i as int));
            lemma_key_less_irreflexive(a@);
        } else if n < m {
            assert(a@.skip(i as int).len() == 0);
            assert(a@ != b@);
        } else {
            assert(b@.skip(i as int).len() == 0);
            assert(a@ != b@);
        }
    }
    if n < m {
        -1
    } else if m < n {
        1
    } else {
        0
    }
}

/// Keys in strictly ascending order.
pub open spec fn keys_sorted(e: Seq<(Seq<char>, Seq<u8>)>) -> bool {
    forall|i: int, j: int| 0 <= i < j < e.len() ==> key_less(#[trigger] e[i].0, #[trigger] e[j].0)
}

/// The root listed under a key, if the key is listed.
pub open spec fn lookup(e: Seq<(Seq<char>, Seq<u8>)>, k: Seq<char>) -> Option<Seq<u8>> {
    if exists|i: int| 0 <= i < e.len() && (#[trigger] e[i]).0 == k {
        Some(e[choose|i: int| 0 <= i < e.len() && (#[trigger] e[i]).0 == k].1)
    } else {
        None
    }
}

/// In sorted keys, the entry of a key is its only one.
pub proof fn lemma_lookup_at(e: Seq<(Seq<char>, Seq<u8>)>, i: int)
    requires
        keys_sorted(e),
        0 <= i < e.len(),
    ensures
        lookup(e, e[i].0) == Some(e[i].1),
{
    let k = e[i].0;
    let c = choose|c: int| 0 <= c < e.len() && (#[trigger] e[c]).0 == k;
    lemma_key_less_irreflexive(k);
    if c < i {
        assert(key_less(e[c].0, e[i].0));
    } else if i < c {
        assert(key_less(e[i].0, e[c].0));
    }
}

/// Inserting a key at its place keeps the keys sorted, lists it, and leaves every other key's
/// root as it was.
pub proof fn lemma_sorted_insert(e: Seq<(Seq<char>, Seq<u8>)>, i: int, x: (Seq<char>, Seq<u8>))
    requires
        keys_sorted(e),
        0 <= i <= e.len(),
        forall|ii: int| 0 <= ii < i ==> key_less(#[trigger] e[ii].0, x.0),
        i < e.len() ==> key_less(x.0, e[i].0),
    ensures
        keys_sorted(e.insert(i, x)),
        lookup(e, x.0) is None,
        forall|k: Seq<char>| #[trigger] lookup(e.insert(i, x), k) == if k == x.0 { Some(x.1) } else { lookup(e, k) },
{
    let f = e.insert(i, x);
    lemma_key_less_irreflexive(x.0);
    assert forall|a: int, b: int| 0 <= a < b < f.len() implies key_less(#[trigger] f[a].0, #[trigger] f[b].0) by {
        if b == i {
            assert(f[a] == e[a]);
        } else if a == i {
            assert(f[b] == e[b - 1]);
            if b - 1 > i {
                lemma_key_less_transitive(x.0, e[i].0, e[b - 1].0);
            }
        } else if a < i && b > i {
            assert(f[b] == e[b - 1]);
            assert(key_less(e[a].0, x.0));
            if i < e.len() {
                lemma_key_less_transitive(e[a].0, x.0, e[i].0);
                if b - 1 > i {
                    lemma_key_less_transitive(e[a].0, e[i].0, e[b - 1].0);
                }
            }
        } else if b < i {
            assert(f[a] == e[a] && f[b] == e[b]);
        } else {
            assert(f[a] == e[a - 1] && f[b] == e[b - 1]);
        }
    }
    assert forall|c: int| 0 <= c < e.len() implies (#[trigger] e[c]).0 != x.0 by {
        if c < i {
            assert(key_less(e[c].0, x.0));
        } else {
            if c > i {
                lemma_key_less_transitive(x.0, e[i].0, e[c].0);
            }
            assert(key_less(x.0, e[c].0));
        }
    }
    assert forall|k: Seq<char>| #[trigger] lookup(f, k) == if k == x.0 { Some(x.1) } else { lookup(e, k) } by {
        if k == x.0 {
            assert(f[i] == x);
            lemma_lookup_at(f, i);
        } else if exists|c: int| 0 <= c < e.len() && (#[trigger] e[c]).0 == k {
            let c = choose|c: int| 0 <= c < e.len() && (#[trigger] e[c]).0 == k;
            let c2 = if c < i { c } else { c + 1 };
            assert(f[c2] == e[c]);
            lemma_lookup_at(e, c);
            lemma_lookup_at(f, c2);
        } else {
            assert forall|c: int| 0 <= c < f.len() implies (#[trigger] f[c]).0 != k by {
                if c < i {
                    assert(f[c] == e[c]);
                } else if c > i {
                    assert(f[c] == e[c - 1]);
                }
            }
        }
    }
}

/// Setting the root of a listed key keeps the keys sorted and changes only that key's root.
pub proof fn lemma_sorted_set(e: Seq<(Seq<char>, Seq<u8>)>, i: int, root: Seq<u8>)
    requires
        keys_sorted(e),
        0 <= i < e.len(),
    ensures
        keys_sorted(e.update(i, (e[i].0, root))),
        forall|k: Seq<char>| #[trigger] lookup(e.update(i, (e[i].0, root)), k) == if k == e[i].0 { Some(root) } else { lookup(e, k) },
{
    let f = e.update(i, (e[i].0, root));
    assert forall|a: int, b: int| 0 <= a < b < f.len() implies key_less(#[trigger] f[a].0, #[trigger] f[b].0) by {
        assert(f[a].0 == e[a].0 && f[b].0 == e[b].0);
    }
    assert forall|k: Seq<char>| #[trigger] lookup(f, k) == if k == e[i].0 { Some(root) } else { lookup(e, k) } by {
        if k == e[i].0 {
            lemma_lookup_at(f, i);
        } else if exists|c: int| 0 <= c < e.len() && (#[trigger] e[c]).0 == k {
            let c = choose|c: int| 0 <= c < e.len() && (#[trigger] e[c]).0 == k;
            assert(c != i);
            assert(f[c] == e[c]);
            lemma_lookup_at(e, c);
            lemma_lookup_at(f, c);
        } else {
            assert forall|c: int| 0 <= c < f.len() implies (#[trigger] f[c]).0 != k by {
                assert(f[c].0 == e[c].0);
            }
        }
    }
}

/// Keys with their roots, and one tree per distinct root.
#[derive(Debug)]
pub struct Index {
    trees: Vec<(Digest, Tree)>,
    keys: Vec<(String, Digest)>,
}

impl Index {
    /// The keys in order, each with its root.
    pub closed spec fn entries(&self) -> Seq<(Seq<char>, Seq<u8>)> {
        Seq::new(self.keys@.len(), |i: int| (self.keys@[i].0@, self.keys@[i].1@))
    }

    /// The stored trees, one per distinct root, in the order their roots first came.
    pub closed spec fn stored(&self) -> Seq<Tree> {
        Seq::new(self.trees@.len(), |j: int| self.trees@[j].1)
    }

    /// Each stored tree is kept with its root.
    closed spec fn roots_kept(&self) -> bool {
        forall|j: int| 0 <= j < self.trees@.len() ==> (#[trigger] self.trees@[j]).0@ == self.trees@[j].1.spec_root()
    }

    /// A stored tree has this root.
    pub open spec fn holds_root(&self, root: Seq<u8>) -> bool {
        exists|j: int| 0 <= j < self.stored().len() && (#[trigger] self.stored()[j]).spec_root() == root
    }

    /// Keys in strictly ascending order; canonical trees of one shape with distinct roots; every
    /// key's root is a stored tree's.
    pub closed spec fn wf(&self) -> bool {
        &&& self.roots_kept()
        &&& keys_sorted(self.entries())
        &&& forall|j: int| 0 <= j < self.stored().len() ==> (#[trigger] self.stored()[j]).wf()
            && self.stored()[j].h == self.stored()[0].h && self.stored()[j].d == self.stored()[0].d
        &&& forall|i: int, j: int| 0 <= i < j < self.stored().len() ==> (#[trigger] self.stored()[i]).spec_root() != (#[trigger] self.stored()[j]).spec_root()
        &&& forall|i: int| 0 <= i < self.entries().len() ==> self.holds_root(#[trigger] self.entries()[i].1)
    }

    /// The root registered under a key, if the key is registered.
    pub open spec fn root_of_key(&self, k: Seq<char>) -> Option<Seq<u8>> {
        lookup(self.entries(), k)
    }

    /// The stored tree with this root.
    pub open spec fn tree_of(&self, root: Seq<u8>) -> Tree {
        self.stored()[choose|j: int| 0 <= j < self.stored().len() && (#[trigger] self.stored()[j]).spec_root() == root]
    }

    /// Roots are distinct: the stored tree of a root is the one that has it.
    pub proof fn lemma_tree_of_root(&self, j: int)
        requires
            self.wf(),
            0 <= j < self.stored().len(),
        ensures
            self.tree_of(self.stored()[j].spec_root()) == self.stored()[j],
    {
        let root = self.stored()[j].spec_root();
        let c = choose|c: int| 0 <= c < self.stored().len() && (#[trigger] self.stored()[c]).spec_root() == root;
        if c < j {
            assert(self.stored()[c].spec_root() != self.stored()[j].spec_root());
        } else if j < c {
            assert(self.stored()[j].spec_root() != self.stored()[c].spec_root());
        }
    }

    pub fn new() -> (r: Index)
        ensures
            r.wf(),
            r.entries().len() == 0,
            r.stored().len() == 0,
    {
        let r = Index { trees: Vec::new(), keys: Vec::new() };
        assert(r.entries().len() == 0);
        assert(r.stored().len() == 0);
        r
    }

    /// Register `key` (an item id, say) under its tree. Trees with the same root are stored once.
    pub fn add(&mut self, key: &str, tree: &Tree) -> (r: Result<()>)
        requires
            old(self).wf(),
            tree.wf(),
        ensures
            r is Ok <==> old(self).stored().len() == 0
                || (tree.h == old(self).stored()[0].h && tree.d == old(self).stored()[0].d),
            r is Err ==> final(self).entries() == old(self).entries() && final(self).stored() == old(self).stored(),
            final(self).wf(),
            r is Ok ==> {
                &&& forall|k: Seq<char>| #[trigger] final(self).root_of_key(k)
                    == if k == key@ { Some(tree.spec_root()) } else { old(self).root_of_key(k) }
                &&& final(self).entries().len() == old(self).entries().len() + (if old(self).root_of_key(key@) is Some { 0int } else { 1int })
                &&& if old(self).holds_root(tree.spec_root()) {
                    final(self).stored() == old(self).stored()
                } else {
                    &&& final(self).stored().len() == old(self).stored().len() + 1
                    &&& final(self).stored().drop_last() == old(self).stored()
                    &&& final(self).stored().last().h == tree.h
                    &&& final(self).stored().last().d == tree.d
                    &&& final(self).stored().last().leaf_set() == tree.leaf_set()
                    &&& final(self).stored().last().spec_root() == tree.spec_root()
                }
            },
    {
        if self.trees.len() > 0 {
            let t = &self.trees[0].1;
            if t.h != tree.h || t.d != tree.d || !str_is(t.ctx.hasher.id(), tree.ctx.hasher.id()) {
                return invalid("every tree in an index must share the hierarchy, depth and hash");
            }
        }
        let root = tree.root();
        let ghost old_self = *self;
        let n = self.trees.len();
        let mut j: usize = 0;
        let mut found = false;
        while j < n
            invariant
                n == self.trees@.len(),
                *self == old_self,
                j <= n,
                root@ == tree.spec_root(),
                old_self.roots_kept(),
                found ==> old_self.holds_root(root@),
                !found ==> forall|jj: int| 0 <= jj < j ==> (#[trigger] self.trees@[jj]).0@ != root@,
            ensures
                *self == old_self,
                found ==> old_self.holds_root(root@),
                !found ==> forall|jj: int| 0 <= jj < n ==> (#[trigger] self.trees@[jj]).0@ != root@,
            decreases n - j,
        {
            if digest_eq(&self.trees[j].0, &root) {
                proof {
                    assert(self.stored()[j as int] == self.trees@[j as int].1);
                }
                found = true;
                break;
            }
            j = j + 1;
        }
        if !found {
            proof {
                assert forall|jj: int| 0 <= jj < old_self.stored().len() implies (#[trigger] old_self.stored()[jj]).spec_root() != root@ by {
                    assert(old_self.stored()[jj] == old_self.trees@[jj].1);
                    assert(self.trees@[jj].0@ != root@);
                }
            }
            self.trees.push((root, tree.clone()));
        }
        let ghost mid = *self;
        proof {
            assert forall|jj: int| 0 <= jj < old_self.stored().len() implies #[trigger] mid.stored()[jj] == old_self.stored()[jj] by {}
            if !found {
                assert(mid.stored().drop_last() =~= old_self.stored());
            } else {
                assert(mid.stored() =~= old_self.stored());
            }
            assert(mid.entries() =~= old_self.entries());
            assert forall|i: int| 0 <= i < mid.entries().len() implies mid.holds_root(#[trigger] mid.entries()[i].1) by {
                assert(old_self.holds_root(old_self.entries()[i].1));
                let c = choose|c: int| 0 <= c < old_self.stored().len() && (#[trigger] old_self.stored()[c]).spec_root() == old_self.entries()[i].1;
                assert(mid.stored()[c] == old_self.stored()[c]);
            }
            assert(mid.holds_root(root@)) by {
                if found {
                    let c = choose|c: int| 0 <= c < old_self.stored().len() && (#[trigger] old_self.stored()[c]).spec_root() == root@;
                    assert(mid.stored()[c] == old_self.stored()[c]);
                } else {
                    assert(mid.stored()[mid.stored().len() - 1].spec_root() == root@);
                }
            }
        }
        let m = self.keys.len();
        let mut i: usize = 0;
        while i < m
            invariant
                m == self.keys@.len(),
                *self == mid,
                i <= m,
                forall|ii: int| 0 <= ii < i ==> key_less(#[trigger] self.entries()[ii].0, key@),
            ensures
                *self == mid,
                i <= m,
                forall|ii: int| 0 <= ii < i ==> key_less(#[trigger] self.entries()[ii].0, key@),
                i < m ==> !key_less(self.entries()[i as int].0, key@),
            decreases m - i,
        {
            let c = key_order(self.keys[i].0.as_str(), key);
            if c >= 0 {
                break;
            }
            i = i + 1;
        }
        let ghost e0 = mid.entries();
        if i < m && str_is(self.keys[i].0.as_str(), key) {
            self.keys[i].1 = root;
            proof {
                assert(self.entries() =~= e0.update(i as int, (e0[i as int].0, root@)));
                lemma_sorted_set(e0, i as int, root@);
                lemma_lookup_at(e0, i as int);
            }
        } else {
            proof {
                if i < m {
                    assert(e0[i as int].0 != key@);
                    lemma_key_less_total(e0[i as int].0, key@);
                }
            }
            self.keys.insert(i, (key.to_owned(), root));
            proof {
                assert(self.entries() =~= e0.insert(i as int, (key@, root@)));
                lemma_sorted_insert(e0, i as int, (key@, root@));
            }
        }
        proof {
            assert(self.stored() =~= mid.stored());
            assert forall|ii: int| 0 <= ii < self.entries().len() implies self.holds_root(#[trigger] self.entries()[ii].1) by {
                if self.entries()[ii].1 != root@ {
                    assert(exists|c: int| 0 <= c < e0.len() && e0[c].1 == self.entries()[ii].1) by {
                        if ii < i {
                            assert(e0[ii].1 == self.entries()[ii].1);
                        } else if ii > i {
                            if self.keys@.len() > m {
                                assert(e0[ii - 1].1 == self.entries()[ii].1);
                            } else {
                                assert(e0[ii].1 == self.entries()[ii].1);
                            }
                        }
                    }
                    let c = choose|c: int| 0 <= c < e0.len() && e0[c].1 == self.entries()[ii].1;
                    assert(mid.holds_root(e0[c].1));
                }
            }
        }
        Ok(())
    }
}

impl Default for Index {
    /// An index with no keys and no trees.
    fn default() -> (r: Index)
        ensures
            r.wf(),
            r.entries().len() == 0,
            r.stored().len() == 0,
    {
        Index::new()
    }
}

/// One indexed key's answer to a query, in leaves: the shared leaves over the query's leaves is
/// how much of the asked-for ground the item covers, and over the item's leaves how much of the
/// item lies in it.
pub struct KeyHit {
    pub key: String,
    pub root: Digest,
    pub relation: Relation,
    pub shared_cells: u64,
    pub item_cells: u64,
    pub query_cells: u64,
}

/// A hit as plain values: key, root, relation, shared, item and query leaves.
pub open spec fn hit_view(h: KeyHit) -> (Seq<char>, Seq<u8>, Relation, nat, nat, nat) {
    (h.key@, h.root@, h.relation, h.shared_cells as nat, h.item_cells as nat, h.query_cells as nat)
}

/// The hits as plain values.
pub open spec fn hits_view(hs: Seq<KeyHit>) -> Seq<(Seq<char>, Seq<u8>, Relation, nat, nat, nat)> {
    Seq::new(hs.len(), |i: int| hit_view(hs[i]))
}

/// One answer ranks ahead of another: it shares more leaves with the query, or as many and its
/// key comes first.
pub open spec fn ahead(a: (Seq<char>, Seq<u8>, Relation, nat, nat, nat), b: (Seq<char>, Seq<u8>, Relation, nat, nat, nat)) -> bool {
    a.3 > b.3 || (a.3 == b.3 && key_less(a.0, b.0))
}

/// Answers best coverage of the query first: none ranks ahead of one before it.
pub open spec fn ranked(hs: Seq<(Seq<char>, Seq<u8>, Relation, nat, nat, nat)>) -> bool {
    forall|i: int, j: int| 0 <= i < j < hs.len() ==> !ahead(#[trigger] hs[j], #[trigger] hs[i])
}

/// Ranking ahead is transitive.
proof fn lemma_ahead_transitive(a: (Seq<char>, Seq<u8>, Relation, nat, nat, nat), b: (Seq<char>, Seq<u8>, Relation, nat, nat, nat), c: (Seq<char>, Seq<u8>, Relation, nat, nat, nat))
    requires
        ahead(a, b),
        ahead(b, c),
    ensures
        ahead(a, c),
{
    if a.3 == b.3 && b.3 == c.3 {
        lemma_key_less_transitive(a.0, b.0, c.0);
    }
}

/// Ranking ahead is asymmetric.
proof fn lemma_ahead_asymmetric(a: (Seq<char>, Seq<u8>, Relation, nat, nat, nat), b: (Seq<char>, Seq<u8>, Relation, nat, nat, nat))
    requires
        ahead(a, b),
    ensures
        !ahead(b, a),
{
    if a.3 == b.3 && key_less(b.0, a.0) {
        lemma_key_less_transitive(a.0, b.0, a.0);
        lemma_key_less_irreflexive(a.0);
    }
}

/// `x` ranks ahead of `y`.
fn hit_ahead(x: &KeyHit, y: &KeyHit) -> (r: bool)
    ensures
        r == ahead(hit_view(*x), hit_view(*y)),
{
    x.shared_cells > y.shared_cells || (x.shared_cells == y.shared_cells && key_order(x.key.as_str(), y.key.as_str()) < 0)
}

/// The answers ranked best coverage of the query first, keys in order among equals: the same
/// answers, reordered.
pub fn rank(hits: Vec<KeyHit>) -> (r: Vec<KeyHit>)
    ensures
        hits_view(r@).to_multiset() == hits_view(hits@).to_multiset(),
        r@.len() == hits@.len(),
        ranked(hits_view(r@)),
{
    broadcast use vstd::seq_lib::group_to_multiset_ensures;
    let ghost orig = hits_view(hits@);
    let mut rest = hits;
    let mut out: Vec<KeyHit> = Vec::new();
    proof {
        assert(hits_view(out@) =~= Seq::<(Seq<char>, Seq<u8>, Relation, nat, nat, nat)>::empty());
    }
    while rest.len() > 0
        invariant
            hits_view(out@).to_multiset().add(hits_view(rest@).to_multiset()) == orig.to_multiset(),
            out@.len() + rest@.len() == orig.len(),
            ranked(hits_view(out@)),
        decreases rest@.len(),
    {
        let ghost r0 = rest@;
        let x = rest.pop().unwrap();
        proof {
            assert(r0 =~= rest@.push(x));
            assert(hits_view(r0) =~= hits_view(rest@).push(hit_view(x)));
        }
        let n = out.len();
        let mut p: usize = 0;
        while p < n && !hit_ahead(&x, &out[p])
            invariant
                n == out@.len(),
                p <= n,
                forall|k: int| 0 <= k < p ==> !ahead(hit_view(x), #[trigger] hits_view(out@)[k]),
            decreases n - p,
        {
            p = p + 1;
        }
        let ghost o0 = hits_view(out@);
        out.insert(p, x);
        proof {
            let v = hit_view(x);
            assert(hits_view(out@) =~= o0.insert(p as int, v));
            vstd::seq_lib::to_multiset_insert(o0, p as int, v);
            let rv = hits_view(rest@);
            assert(hits_view(r0) =~= rv.push(v));
            vstd::seq_lib::to_multiset_build(rv, v);
            assert(hits_view(r0).to_multiset() =~= rv.to_multiset().insert(v));
            assert(o0.to_multiset().insert(v).add(rv.to_multiset()) =~= o0.to_multiset().add(rv.to_multiset().insert(v)));
            let o1 = hits_view(out@);
            assert forall|i: int, j: int| 0 <= i < j < o1.len() implies !ahead(#[trigger] o1[j], #[trigger] o1[i]) by {
                if j < p {
                    assert(o1[i] == o0[i] && o1[j] == o0[j]);
                } else if j == p {
                    assert(o1[i] == o0[i] && o1[j] == v);
                } else if i > p {
                    assert(o1[i] == o0[i - 1] && o1[j] == o0[j - 1]);
                } else if i == p {
                    assert(o1[i] == v && o1[j] == o0[j - 1]);
                    assert(p < n);
                    assert(ahead(v, o0[p as int]));
                    if ahead(o0[j - 1], v) {
                        lemma_ahead_transitive(o0[j - 1], v, o0[p as int]);
                        if j - 1 == p {
                            lemma_ahead_asymmetric(o0[p as int], o0[p as int]);
                        }
                    }
                } else {
                    assert(o1[i] == o0[i] && o1[j] == o0[j - 1]);
                }
            }
        }
    }
    proof {
        assert(hits_view(rest@) =~= Seq::<(Seq<char>, Seq<u8>, Relation, nat, nat, nat)>::empty());
    }
    out
}

impl Index {
    /// The answers for the first `i` keys, in key order: each key whose tree shares a leaf with
    /// `q`, with the leaves shared, its own, the query's, and the relation.
    pub open spec fn touching(&self, q: Tree, i: nat) -> Seq<(Seq<char>, Seq<u8>, Relation, nat, nat, nat)>
        decreases i,
    {
        if i == 0 || i > self.entries().len() {
            Seq::empty()
        } else {
            let prev = self.touching(q, (i - 1) as nat);
            let e = self.entries()[i - 1];
            let t = self.tree_of(e.1);
            let shared = t.leaf_set().intersect(q.leaf_set());
            if shared.len() > 0 {
                prev.push((e.0, e.1, spec_relation(t.leaf_set(), q.leaf_set()), shared.len(), t.leaf_set().len(), q.leaf_set().len()))
            } else {
                prev
            }
        }
    }

    /// The number of keys.
    pub fn len(&self) -> (r: usize)
        ensures
            r == self.entries().len(),
    {
        self.keys.len()
    }

    pub fn is_empty(&self) -> (r: bool)
        ensures
            r <==> self.entries().len() == 0,
    {
        self.keys.len() == 0
    }

    /// The number of trees stored: one per distinct root ever registered.
    pub fn distinct_roots(&self) -> (r: usize)
        ensures
            r == self.stored().len(),
    {
        self.trees.len()
    }

    /// The root registered under `key`.
    pub fn root_of(&self, key: &str) -> (r: Option<Digest>)
        requires
            self.wf(),
        ensures
            r is None <==> self.root_of_key(key@) is None,
            r matches Some(d) ==> self.root_of_key(key@) == Some(d@),
    {
        let m = self.keys.len();
        let mut i: usize = 0;
        while i < m
            invariant
                self.wf(),
                m == self.keys@.len(),
                i <= m,
                forall|ii: int| 0 <= ii < i ==> (#[trigger] self.entries()[ii]).0 != key@,
            decreases m - i,
        {
            if str_is(self.keys[i].0.as_str(), key) {
                proof {
                    lemma_lookup_at(self.entries(), i as int);
                }
                return Some(self.keys[i].1);
            }
            i = i + 1;
        }
        None
    }

    /// Every key with the hex of its root, in key order.
    pub fn roots(&self) -> (r: Vec<(String, String)>)
        ensures
            r@.len() == self.entries().len(),
            forall|i: int| 0 <= i < r@.len() ==> (#[trigger] r@[i]).0@ == self.entries()[i].0 && r@[i].1@ == spec_hex(self.entries()[i].1),
    {
        let m = self.keys.len();
        let mut out: Vec<(String, String)> = Vec::new();
        let mut i: usize = 0;
        while i < m
            invariant
                m == self.keys@.len(),
                i <= m,
                out@.len() == i,
                forall|ii: int| 0 <= ii < i ==> (#[trigger] out@[ii]).0@ == self.entries()[ii].0 && out@[ii].1@ == spec_hex(self.entries()[ii].1),
            decreases m - i,
        {
            let k = self.keys[i].0.clone();
            let h = hex(&self.keys[i].1);
            out.push((k, h));
            i = i + 1;
        }
        out
    }

    /// The stored tree of a key's root: its place among the stored trees.
    fn place_of(&self, root: &Digest) -> (r: usize)
        requires
            self.wf(),
            self.holds_root(root@),
        ensures
            r < self.stored().len(),
            self.stored()[r as int].spec_root() == root@,
            self.tree_of(root@) == self.stored()[r as int],
    {
        let n = self.trees.len();
        let mut j: usize = 0;
        while j < n
            invariant
                self.wf(),
                n == self.trees@.len(),
                self.roots_kept(),
                j <= n,
                forall|jj: int| 0 <= jj < j ==> (#[trigger] self.trees@[jj]).0@ != root@,
            decreases n - j,
        {
            if digest_eq(&self.trees[j].0, root) {
                proof {
                    assert(self.stored()[j as int] == self.trees@[j as int].1);
                    self.lemma_tree_of_root(j as int);
                }
                return j;
            }
            j = j + 1;
        }
        proof {
            let c = choose|c: int| 0 <= c < self.stored().len() && (#[trigger] self.stored()[c]).spec_root() == root@;
            assert(self.stored()[c] == self.trees@[c].1);
            assert(self.trees@[c].0@ != root@);
        }
        0
    }

    /// An answer as the index gives it: a registered key with its root, sharing a leaf with the
    /// query, with the leaves of that root's tree and the query's.
    pub open spec fn answers(&self, q: Tree, v: (Seq<char>, Seq<u8>, Relation, nat, nat, nat)) -> bool {
        &&& v.3 > 0
        &&& self.root_of_key(v.0) == Some(v.1)
        &&& v.4 == self.tree_of(v.1).leaf_set().len()
        &&& v.5 == q.leaf_set().len()
    }

    /// Every key whose coverage meets `q`, best coverage of the query first and keys in order among
    /// equals, with its shared leaves, its own leaves, the query's leaves and the set relation
    /// (absent a hash collision, the shared leaves and the relation are those of the leaf sets
    /// themselves, and every key that meets `q` is there once).
    pub fn query(&self, q: &Tree) -> (r: Result<Vec<KeyHit>>)
        requires
            self.wf(),
            q.wf(),
        ensures
            r is Ok <==> self.stored().len() == 0 || (q.h == self.stored()[0].h && q.d == self.stored()[0].d),
            r matches Ok(hits) ==> ranked(hits_view(hits@)),
            r matches Ok(hits) ==> forall|k: int| 0 <= k < hits@.len() ==> self.answers(*q, #[trigger] hits_view(hits@)[k]),
            r matches Ok(hits) ==> (!sha256_collision() ==> hits_view(hits@).to_multiset() == self.touching(*q, self.entries().len()).to_multiset()),
    {
        let q_leaves = q.leaf_count();
        let n = self.trees.len();
        let mut info: Vec<(u64, u64, Relation)> = Vec::new();
        let mut j: usize = 0;
        while j < n
            invariant
                self.wf(),
                q.wf(),
                n == self.trees@.len(),
                j <= n,
                j > 0 ==> q.h == self.stored()[0].h && q.d == self.stored()[0].d,
                info@.len() == j,
                forall|jj: int| 0 <= jj < j ==> info@[jj].1 == (#[trigger] self.stored()[jj]).leaf_set().len(),
                forall|jj: int| 0 <= jj < j ==> (!sha256_collision() ==> {
                    let t = #[trigger] self.stored()[jj];
                    &&& info@[jj].0 == t.leaf_set().intersect(q.leaf_set()).len()
                    &&& info@[jj].1 == t.leaf_set().len()
                    &&& info@[jj].2 == spec_relation(t.leaf_set(), q.leaf_set())
                }),
            decreases n - j,
        {
            let t = &self.trees[j].1;
            proof {
                assert(*t == self.stored()[j as int]);
            }
            let shared = intersect(t, q)?;
            let count = shared.leaf_count();
            let t_leaves = t.leaf_count();
            let t_minus_q = difference(t, q)?;
            let q_minus_t = difference(q, t)?;
            let item_in_q = t_minus_q.is_empty();
            let q_in_item = q_minus_t.is_empty();
            let rel = if item_in_q && q_in_item {
                Relation::Equal
            } else if item_in_q {
                Relation::Within
            } else if q_in_item {
                Relation::Contains
            } else {
                Relation::Overlaps
            };
            proof {
                if !sha256_collision() {
                    let (a, b) = (t.leaf_set(), q.leaf_set());
                    assert(item_in_q == a.subset_of(b)) by {
                        if !a.subset_of(b) {
                            let x = choose|x: int| a.contains(x) && !b.contains(x);
                            assert(t_minus_q.leaf_set().contains(x));
                        } else {
                            assert(t_minus_q.leaf_set() =~= Set::<int>::empty());
                        }
                    }
                    assert(q_in_item == b.subset_of(a)) by {
                        if !b.subset_of(a) {
                            let x = choose|x: int| b.contains(x) && !a.contains(x);
                            assert(q_minus_t.leaf_set().contains(x));
                        } else {
                            assert(q_minus_t.leaf_set() =~= Set::<int>::empty());
                        }
                    }
                }
            }
            info.push((count, t_leaves, rel));
            j = j + 1;
        }
        let m = self.keys.len();
        let mut hits: Vec<KeyHit> = Vec::new();
        let mut i: usize = 0;
        while i < m
            invariant
                self.wf(),
                q.wf(),
                m == self.keys@.len(),
                n == self.trees@.len(),
                info@.len() == n,
                n > 0 ==> q.h == self.stored()[0].h && q.d == self.stored()[0].d,
                q_leaves == q.leaf_set().len(),
                forall|jj: int| 0 <= jj < n ==> info@[jj].1 == (#[trigger] self.stored()[jj]).leaf_set().len(),
                forall|jj: int| 0 <= jj < n ==> (!sha256_collision() ==> {
                    let t = #[trigger] self.stored()[jj];
                    &&& info@[jj].0 == t.leaf_set().intersect(q.leaf_set()).len()
                    &&& info@[jj].1 == t.leaf_set().len()
                    &&& info@[jj].2 == spec_relation(t.leaf_set(), q.leaf_set())
                }),
                i <= m,
                !sha256_collision() ==> hits_view(hits@) == self.touching(*q, i as nat),
                forall|k: int| 0 <= k < hits@.len() ==> self.answers(*q, #[trigger] hits_view(hits@)[k]),
            decreases m - i,
        {
            proof {
                assert(self.entries()[i as int].1 == self.keys@[i as int].1@);
            }
            let jt = self.place_of(&self.keys[i].1);
            let (count, t_leaves, rel) = info[jt];
            let ghost before = hits@;
            if count > 0 {
                hits.push(KeyHit {
                    key: self.keys[i].0.clone(),
                    root: self.keys[i].1,
                    relation: rel,
                    shared_cells: count,
                    item_cells: t_leaves,
                    query_cells: q_leaves,
                });
            }
            proof {
                assert(self.stored()[jt as int] == self.tree_of(self.entries()[i as int].1));
                if count > 0 {
                    assert(hits_view(hits@) =~= hits_view(before).push(hit_view(hits@.last())));
                    assert(self.entries()[i as int].0 == self.keys@[i as int].0@);
                    lemma_lookup_at(self.entries(), i as int);
                    assert(self.answers(*q, hit_view(hits@.last())));
                } else {
                    assert(hits@ == before);
                }
            }
            i = i + 1;
        }
        let ghost keyed = hits_view(hits@);
        let ranked_hits = rank(hits);
        proof {
            let rv = hits_view(ranked_hits@);
            assert forall|k: int| 0 <= k < ranked_hits@.len() implies self.answers(*q, #[trigger] hits_view(ranked_hits@)[k]) by {
                vstd::seq_lib::to_multiset_contains(rv, rv[k]);
                vstd::seq_lib::to_multiset_contains(keyed, rv[k]);
                assert(rv.contains(rv[k]));
                let c = choose|c: int| 0 <= c < keyed.len() && keyed[c] == rv[k];
                assert(self.answers(*q, keyed[c]));
            }
        }
        Ok(ranked_hits)
    }
}

/// The tree covers some leaf under `c`.
pub open spec fn touches(t: Tree, c: int) -> bool {
    exists|x: int| #[trigger] t.covered(x) && t.h.spec_is_ancestor(c, x)
}

/// `x` is a cell at `level` that lies over `c` or under it.
pub open spec fn meets(h: Hierarchy, c: int, level: nat, x: int) -> bool {
    &&& h.is_cid(x)
    &&& h.spec_level(x) == level
    &&& (h.spec_is_ancestor(c, x) || h.spec_is_ancestor(x, c))
}

/// A cell at `level` is touched exactly when it meets a cell of the canonical cover.
proof fn lemma_touched_meets(t: &Tree, level: nat, x: int)
    requires
        t.wf(),
        level <= t.d,
        t.h.is_cid(x),
        t.h.spec_level(x) == level,
    ensures
        touches(*t, x) <==> exists|c: int| #[trigger] t.is_cell(c) && meets(t.h, c, level, x),
{
    let h = t.h;
    let a = h.a as int;
    if touches(*t, x) {
        let y = choose|y: int| #[trigger] t.covered(y) && h.spec_is_ancestor(x, y);
        t.lemma_cells_tile(y);
        let c = choose|c: int| #[trigger] t.is_cell(c) && h.spec_is_ancestor(c, y);
        if h.spec_level(c) <= level {
            h.lemma_ancestors_nest(c, x, y);
        } else {
            h.lemma_ancestors_nest(x, c, y);
        }
        assert(t.is_cell(c) && meets(h, c, level, x));
    }
    if exists|c: int| #[trigger] t.is_cell(c) && meets(h, c, level, x) {
        let c = choose|c: int| #[trigger] t.is_cell(c) && meets(h, c, level, x);
        if h.spec_is_ancestor(c, x) {
            crate::arith::lemma_pow_pos(a, (t.d - level) as nat);
            h.lemma_below(x, (t.d - level) as nat, 0);
            let y = x * pow(a, (t.d - level) as nat) + 0;
            h.lemma_ancestor_trans(c, x, y);
            assert(t.covered(y));
        } else {
            let l = h.spec_level(c);
            crate::arith::lemma_pow_pos(a, (t.d - l) as nat);
            h.lemma_below(c, (t.d - l) as nat, 0);
            let y = c * pow(a, (t.d - l) as nat) + 0;
            h.lemma_ancestor_trans(x, c, y);
            assert(t.covered(y));
        }
    }
}

/// The cells at `level` that meet one of `cells` (lie over it or under it), ascending.
pub(crate) fn cells_meeting(h: Hierarchy, cells: &Vec<Cid>, level: u32) -> (r: Vec<Cid>)
    requires
        h.valid(),
        h.fits(level as nat),
        forall|jj: int| 0 <= jj < cells@.len() ==> h.is_cid(#[trigger] cells@[jj] as int),
    ensures
        forall|i: int, j: int| 0 <= i < j < r@.len() ==> r@[i] < r@[j],
        forall|x: Cid| #[trigger] r@.contains(x) <==> exists|jj: int| 0 <= jj < cells@.len() && meets(h, #[trigger] cells@[jj] as int, level as nat, x as int),
{
    let a = h.a as u64;
    let mut cand: Vec<Cid> = Vec::new();
    let m = cells.len();
    let mut j: usize = 0;
    while j < m
        invariant
            h.valid(),
            h.fits(level as nat),
            a == h.a,
            m == cells@.len(),
            forall|jj: int| 0 <= jj < m ==> h.is_cid(#[trigger] cells@[jj] as int),
            j <= m,
            forall|x: Cid| #[trigger] cand@.contains(x) <==> exists|jj: int| 0 <= jj < j && meets(h, #[trigger] cells@[jj] as int, level as nat, x as int),
        decreases m - j,
    {
        let c = cells[j];
        proof {
            assert(h.is_cid(cells@[j as int] as int));
            crate::hierarchy::lemma_pow_le_cid(h, c as int);
        }
        let l = h.level(c);
        let ghost before = cand@;
        if l >= level {
            proof {
                lemma_pow_increases(a as nat, (l - level) as nat, l as nat);
                crate::arith::lemma_pow_pos(a as int, (l - level) as nat);
                h.lemma_ancestor_up(c as int, (l - level) as nat);
            }
            let w = upow(a, l - level);
            let x = c / w;
            cand.push(x);
            proof {
                assert forall|y: Cid| #[trigger] cand@.contains(y) <==> exists|jj: int| 0 <= jj < j + 1 && meets(h, #[trigger] cells@[jj] as int, level as nat, y as int) by {
                    if meets(h, c as int, level as nat, y as int) {
                        if h.spec_is_ancestor(c as int, y as int) {
                            assert(l == level);
                            reveal(pow);
                            assert(y as int / 1 == y);
                        }
                        assert(y == x);
                        assert(cand@[before.len() as int] == y);
                    }
                    if y == x {
                        assert(meets(h, cells@[j as int] as int, level as nat, y as int));
                    }
                    if before.contains(y) {
                        let i = choose|i: int| 0 <= i < before.len() && before[i] == y;
                        assert(cand@[i] == y);
                    }
                    if cand@.contains(y) && y != x {
                        let i = choose|i: int| 0 <= i < cand@.len() && cand@[i] == y;
                        assert(before[i] == y);
                    }
                }
            }
        } else {
            let ghost k = (level - l) as nat;
            proof {
                h.lemma_leaf_split(c as int);
                lemma_pow_adds(a as int, l as nat, k);
                crate::arith::lemma_pow_pos(a as int, k);
                crate::arith::lemma_pow_pos(a as int, l as nat);
                let lead = h.lead(c as int);
                let off = (c as int) % pow(a as int, l as nat);
                let pl = pow(a as int, l as nat);
                let pk = pow(a as int, k);
                assert(c + 1 <= (lead + 1) * pl) by (nonlinear_arith)
                    requires
                        c == lead * pl + off,
                        off < pl,
                ;
                assert((c + 1) * pk <= (lead + 1) * pl * pk) by (nonlinear_arith)
                    requires
                        c + 1 <= (lead + 1) * pl,
                        pk >= 1,
                ;
                assert((lead + 1) * pl * pk <= (a + h.b) * (pl * pk)) by (nonlinear_arith)
                    requires
                        lead + 1 <= a + h.b,
                        pl >= 1,
                        pk >= 1,
                ;
                assert(pk < (c + 1) * pk) by (nonlinear_arith)
                    requires
                        pk >= 1,
                        c >= 1,
                ;
            }
            let w = upow(a, level - l);
            proof {
                assert(c * w + w == (c + 1) * w) by (nonlinear_arith);
            }
            let lo = c * w;
            let mut v: u64 = 0;
            while v < w
                invariant
                    h.valid(),
                    h.is_cid(c as int),
                    h.spec_level(c as int) == l,
                    l < level,
                    w == pow(a as int, k),
                    k == level - l,
                    a == h.a,
                    lo == c * w,
                    lo + w <= crate::hierarchy::cid_space(),
                    v <= w,
                    cand@.len() == before.len() + v,
                    cand@.take(before.len() as int) == before,
                    forall|i: int| 0 <= i < v ==> #[trigger] cand@[before.len() + i] == lo + i,
                decreases w - v,
            {
                cand.push(lo + v);
                proof {
                    assert(cand@.take(before.len() as int) =~= before);
                }
                v = v + 1;
            }
            proof {
                assert forall|y: Cid| #[trigger] cand@.contains(y) <==> exists|jj: int| 0 <= jj < j + 1 && meets(h, #[trigger] cells@[jj] as int, level as nat, y as int) by {
                    if meets(h, c as int, level as nat, y as int) {
                        assert(!h.spec_is_ancestor(y as int, c as int));
                        h.lemma_block_ancestor(c as int, y as int);
                        assert(c * w + w == (c + 1) * w) by (nonlinear_arith);
                        let i = y - lo;
                        assert(cand@[before.len() + i] == y);
                    }
                    if lo <= y < lo + w {
                        let i = y - lo;
                        h.lemma_below(c as int, k, i);
                        assert(meets(h, cells@[j as int] as int, level as nat, y as int));
                    }
                    if before.contains(y) {
                        let i = choose|i: int| 0 <= i < before.len() && before[i] == y;
                        assert(cand@.take(before.len() as int)[i] == y);
                        assert(cand@[i] == y);
                    }
                    if cand@.contains(y) {
                        let i = choose|i: int| 0 <= i < cand@.len() && cand@[i] == y;
                        if i < before.len() {
                            assert(cand@.take(before.len() as int)[i] == y);
                            assert(before.contains(y));
                        } else {
                            assert(cand@[before.len() + (i - before.len())] == lo + (i - before.len()));
                        }
                    }
                }
            }
        }
        j = j + 1;
    }
    let ghost all = cand@;
    crate::tree::sort_cids(&mut cand);
    let n = cand.len();
    let mut out: Vec<Cid> = Vec::new();
    let mut i: usize = 0;
    while i < n
        invariant
            n == cand@.len(),
            i <= n,
            forall|p: int, q: int| 0 <= p < q < cand@.len() ==> cand@[p] <= cand@[q],
            forall|p: int, q: int| 0 <= p < q < out@.len() ==> out@[p] < out@[q],
            i > 0 ==> out@.len() > 0 && out@.last() == cand@[i - 1],
            i == 0 ==> out@.len() == 0,
            forall|x: Cid| #[trigger] out@.contains(x) <==> cand@.take(i as int).contains(x),
        decreases n - i,
    {
        let x = cand[i];
        let ghost o = out@;
        if out.len() == 0 || out[out.len() - 1] != x {
            out.push(x);
        }
        proof {
            let ti = cand@.take(i as int);
            let t1 = cand@.take(i + 1);
            assert(t1 =~= ti.push(x));
            assert forall|y: Cid| #[trigger] out@.contains(y) <==> t1.contains(y) by {
                if out@.contains(y) {
                    let p = choose|p: int| 0 <= p < out@.len() && out@[p] == y;
                    if p < o.len() {
                        assert(o[p] == y);
                        assert(o.contains(y));
                        assert(ti.contains(y));
                        let q = choose|q: int| 0 <= q < ti.len() && ti[q] == y;
                        assert(t1[q] == y);
                    } else {
                        assert(y == x);
                        assert(t1[i as int] == y);
                    }
                }
                if t1.contains(y) {
                    let q = choose|q: int| 0 <= q < t1.len() && t1[q] == y;
                    if q < i {
                        assert(ti[q] == y);
                        assert(ti.contains(y));
                        assert(o.contains(y));
                        let p = choose|p: int| 0 <= p < o.len() && o[p] == y;
                        assert(out@[p] == y);
                    } else {
                        assert(y == x);
                        if o.len() > 0 && o.last() == x {
                            assert(out@[o.len() - 1] == x);
                        } else {
                            assert(out@[out@.len() - 1] == x);
                        }
                    }
                }
            }
            if o.len() > 0 && o.last() != x {
                assert(o.last() == cand@[i - 1]);
                assert(cand@[i - 1] <= cand@[i as int]);
            }
        }
        i = i + 1;
    }
    proof {
        assert(cand@.take(n as int) =~= cand@);
        assert forall|x: Cid| #[trigger] out@.contains(x) <==> exists|jj: int| 0 <= jj < cells@.len() && meets(h, #[trigger] cells@[jj] as int, level as nat, x as int) by {
            vstd::seq_lib::to_multiset_contains(cand@, x);
            vstd::seq_lib::to_multiset_contains(all, x);
        }
    }
    out
}

/// Cells at `level` under which the tree has any coverage (full or partial), ascending.
fn touched_cells(t: &Tree, level: u32) -> (r: Vec<Cid>)
    requires
        t.wf(),
        level <= t.d,
    ensures
        forall|i: int, j: int| 0 <= i < j < r@.len() ==> r@[i] < r@[j],
        forall|x: Cid| #[trigger] r@.contains(x) <==> t.h.is_cid(x as int) && t.h.spec_level(x as int) == level && touches(*t, x as int),
{
    let h = t.h;
    let cells = t.cells();
    proof {
        assert forall|jj: int| 0 <= jj < cells@.len() implies h.is_cid(#[trigger] cells@[jj] as int) by {
            assert(cells@.contains(cells@[jj]));
        }
        h.lemma_fits_mono(level as nat, t.d as nat);
    }
    let out = cells_meeting(h, &cells, level);
    proof {
        assert forall|x: Cid| #[trigger] out@.contains(x) <==> h.is_cid(x as int) && h.spec_level(x as int) == level && touches(*t, x as int) by {
            if out@.contains(x) {
                let jj = choose|jj: int| 0 <= jj < cells@.len() && meets(h, #[trigger] cells@[jj] as int, level as nat, x as int);
                let c = cells@[jj];
                assert(cells@.contains(c));
                lemma_touched_meets(t, level as nat, x as int);
            }
            if h.is_cid(x as int) && h.spec_level(x as int) == level && touches(*t, x as int) {
                lemma_touched_meets(t, level as nat, x as int);
                let c = choose|c: int| #[trigger] t.is_cell(c) && meets(h, c, level as nat, x as int);
                h.lemma_leaf_split(c);
                h.lemma_fits_mono(h.spec_level(c), t.d as nat);
                let pl = pow(h.a as int, h.spec_level(c));
                assert(c < (h.a + h.b) * pl) by (nonlinear_arith)
                    requires
                        c == h.lead(c) * pl + c % pl,
                        c % pl < pl,
                        h.lead(c) + 1 <= h.a + h.b,
                ;
                assert(0 <= c < crate::hierarchy::cid_space());
                let cc = c as Cid;
                assert(cells@.contains(cc));
                let jj = choose|jj: int| 0 <= jj < cells@.len() && cells@[jj] == cc;
                assert(meets(h, cells@[jj] as int, level as nat, x as int));
            }
        }
    }
    out
}

/// The distinct values of an ascending list, each with the number of times it occurs.
fn count_runs(all: &Vec<Cid>) -> (out: Vec<(Cid, u64)>)
    requires
        forall|a: int, b: int| 0 <= a < b < all@.len() ==> all@[a] <= all@[b],
    ensures
        forall|a: int, b: int| 0 <= a < b < out@.len() ==> out@[a].0 < out@[b].0,
        forall|a: int| 0 <= a < out@.len() ==> #[trigger] out@[a].1 == all@.to_multiset().count(out@[a].0) && out@[a].1 > 0,
        forall|x: Cid| #[trigger] all@.contains(x) <==> exists|a: int| 0 <= a < out@.len() && #[trigger] out@[a].0 == x,
{
    broadcast use vstd::multiset::group_multiset_axioms;
    let total = all.len();
    let mut out: Vec<(Cid, u64)> = Vec::new();
    let mut p: usize = 0;
    while p < total
        invariant
            total == all@.len(),
            p <= total,
            forall|a: int, b: int| 0 <= a < b < all@.len() ==> all@[a] <= all@[b],
            forall|a: int, b: int| 0 <= a < b < out@.len() ==> out@[a].0 < out@[b].0,
            p > 0 ==> out@.len() > 0 && out@.last().0 == all@[p - 1],
            p == 0 ==> out@.len() == 0,
            forall|a: int| 0 <= a < out@.len() ==> #[trigger] out@[a].1 == all@.take(p as int).to_multiset().count(out@[a].0)
                && out@[a].1 <= p,
            forall|x: Cid| #[trigger] all@.take(p as int).contains(x) <==> exists|a: int| 0 <= a < out@.len() && #[trigger] out@[a].0 == x,
        decreases total - p,
    {
        let x = all[p];
        let ghost o = out@;
        let ghost tp = all@.take(p as int);
        proof {
            vstd::seq_lib::to_multiset_build(tp, x);
            assert(all@.take(p + 1) =~= tp.push(x));
        }
        let ol = out.len();
        if ol > 0 && out[ol - 1].0 == x {
            let c = out[ol - 1].1;
            out.set(ol - 1, (x, c + 1));
        } else {
            proof {
                vstd::seq_lib::to_multiset_contains(tp, x);
                if tp.contains(x) {
                    let q = choose|q: int| 0 <= q < tp.len() && tp[q] == x;
                    assert(all@[q] <= all@[p - 1]);
                    assert(all@[p - 1] <= all@[p as int]);
                    let a = choose|a: int| 0 <= a < o.len() && #[trigger] o[a].0 == x;
                    if a < o.len() - 1 {
                        assert(o[a].0 < o[o.len() - 1].0);
                    }
                }
                if ol > 0 {
                    assert(o.last().0 == all@[p - 1]);
                    assert(all@[p - 1] <= all@[p as int]);
                }
            }
            out.push((x, 1));
        }
        proof {
            let t1 = all@.take(p + 1);
            assert forall|x2: Cid| #[trigger] t1.contains(x2) <==> exists|a: int| 0 <= a < out@.len() && #[trigger] out@[a].0 == x2 by {
                if t1.contains(x2) && x2 != x {
                    let q = choose|q: int| 0 <= q < t1.len() && t1[q] == x2;
                    assert(tp[q] == x2);
                    assert(tp.contains(x2));
                    let a = choose|a: int| 0 <= a < o.len() && #[trigger] o[a].0 == x2;
                    assert(out@[a].0 == x2);
                }
                if t1.contains(x2) && x2 == x {
                    assert(out@[out@.len() - 1].0 == x2);
                }
                if exists|a: int| 0 <= a < out@.len() && #[trigger] out@[a].0 == x2 {
                    let a = choose|a: int| 0 <= a < out@.len() && #[trigger] out@[a].0 == x2;
                    if x2 == x {
                        assert(t1[p as int] == x2);
                    } else {
                        assert(o[a].0 == x2);
                        assert(tp.contains(x2));
                        let q = choose|q: int| 0 <= q < tp.len() && tp[q] == x2;
                        assert(t1[q] == x2);
                    }
                }
            }
        }
        p = p + 1;
    }
    proof {
        assert(all@.take(total as int) =~= all@);
        assert forall|a: int| 0 <= a < out@.len() implies #[trigger] out@[a].1 == all@.to_multiset().count(out@[a].0) && out@[a].1 > 0 by {
            assert(all@.contains(out@[a].0));
            vstd::seq_lib::to_multiset_contains(all@, out@[a].0);
        }
    }
    out
}

/// `c` is a cell at `level` under which `t` has coverage.
pub open spec fn attends(t: Tree, level: nat, c: int) -> bool {
    t.h.is_cid(c) && t.h.spec_level(c) == level && touches(t, c)
}

impl Index {
    /// The number of the first `i` keys whose coverage touches the cell `c` at `level`.
    pub open spec fn attention_count(&self, level: nat, c: int, i: nat) -> nat
        decreases i,
    {
        if i == 0 || i > self.entries().len() {
            0
        } else {
            self.attention_count(level, c, (i - 1) as nat) + if attends(self.tree_of(self.entries()[i - 1].1), level, c) {
                1nat
            } else {
                0nat
            }
        }
    }

    /// The touched cells of each key's tree, one after another in key order: a cell occurs once
    /// for each key whose coverage touches it.
    fn key_cells(&self, per_tree: &Vec<Vec<Cid>>, level: u32) -> (all: Vec<Cid>)
        requires
            self.wf(),
            per_tree@.len() == self.stored().len(),
            forall|jj: int, x: Cid| 0 <= jj < per_tree@.len() ==> (#[trigger] per_tree@[jj]@.contains(x)
                <==> attends(self.stored()[jj], level as nat, x as int)),
            forall|jj: int, p: int, q: int| 0 <= jj < per_tree@.len() && 0 <= p < q < per_tree@[jj]@.len()
                ==> #[trigger] per_tree@[jj]@[p] < #[trigger] per_tree@[jj]@[q],
        ensures
            forall|x: Cid| #[trigger] all@.to_multiset().count(x) == self.attention_count(level as nat, x as int, self.entries().len()),
    {
        let n = self.trees.len();
        let m = self.keys.len();
        let mut all: Vec<Cid> = Vec::new();
        proof {
            broadcast use vstd::multiset::group_multiset_axioms;

            vstd::seq_lib::to_multiset_len(all@);
            vstd::multiset::lemma_multiset_empty_len(all@.to_multiset());
        }
        let mut i: usize = 0;
        while i < m
            invariant
                self.wf(),
                n == self.trees@.len(),
                m == self.keys@.len(),
                per_tree@.len() == n,
                forall|jj: int, x: Cid| 0 <= jj < n ==> (#[trigger] per_tree@[jj]@.contains(x)
                    <==> attends(self.stored()[jj], level as nat, x as int)),
                forall|jj: int, p: int, q: int| 0 <= jj < n && 0 <= p < q < per_tree@[jj]@.len()
                    ==> #[trigger] per_tree@[jj]@[p] < #[trigger] per_tree@[jj]@[q],
                i <= m,
                forall|x: Cid| #[trigger] all@.to_multiset().count(x) == self.attention_count(level as nat, x as int, i as nat),
            decreases m - i,
        {
            proof {
                assert(self.entries()[i as int].1 == self.keys@[i as int].1@);
            }
            let jt = self.place_of(&self.keys[i].1);
            let list = &per_tree[jt];
            let ghost base = all@;
            let k = list.len();
            let mut v: usize = 0;
            while v < k
                invariant
                    k == list@.len(),
                    v <= k,
                    forall|p: int, q: int| 0 <= p < q < list@.len() ==> #[trigger] list@[p] < #[trigger] list@[q],
                    forall|x: Cid| #[trigger] all@.to_multiset().count(x) == base.to_multiset().count(x)
                        + if list@.take(v as int).contains(x) { 1nat } else { 0nat },
                decreases k - v,
            {
                let x = list[v];
                let ghost before = all@;
                all.push(x);
                proof {
                    broadcast use vstd::multiset::group_multiset_axioms;

                    vstd::seq_lib::to_multiset_build(before, x);
                    assert(list@.take(v + 1) =~= list@.take(v as int).push(x));
                    assert(!list@.take(v as int).contains(x)) by {
                        if list@.take(v as int).contains(x) {
                            let p = choose|p: int| 0 <= p < v && #[trigger] list@.take(v as int)[p] == x;
                            assert(list@[p] < list@[v as int]);
                        }
                    }
                    assert forall|y: Cid| #[trigger] all@.to_multiset().count(y) == base.to_multiset().count(y)
                        + if list@.take(v + 1).contains(y) { 1nat } else { 0nat } by {
                        if y != x && list@.take(v + 1).contains(y) {
                            let p = choose|p: int| 0 <= p < v + 1 && #[trigger] list@.take(v + 1)[p] == y;
                            assert(list@.take(v as int)[p] == y);
                        }
                        if list@.take(v as int).contains(y) {
                            let p = choose|p: int| 0 <= p < v && #[trigger] list@.take(v as int)[p] == y;
                            assert(list@.take(v + 1)[p] == y);
                        }
                        if y == x {
                            assert(list@.take(v + 1)[v as int] == y);
                        }
                    }
                }
                v = v + 1;
            }
            proof {
                assert(list@.take(k as int) =~= list@);
                assert(self.stored()[jt as int] == self.tree_of(self.entries()[i as int].1));
            }
            i = i + 1;
        }
        all
    }

    /// `v` lists, ascending by cell, every cell at `level` that some key's coverage touches, each
    /// with the number of such keys.
    pub open spec fn is_attention(&self, level: nat, v: Seq<(Cid, u64)>) -> bool {
        &&& forall|i: int, j: int| 0 <= i < j < v.len() ==> v[i].0 < v[j].0
        &&& forall|i: int| 0 <= i < v.len() ==> #[trigger] v[i].1 == self.attention_count(level, v[i].0 as int, self.entries().len())
            && v[i].1 > 0
        &&& forall|c: Cid| self.attention_count(level, c as int, self.entries().len()) > 0
            ==> exists|i: int| 0 <= i < v.len() && #[trigger] v[i].0 == c
    }

    /// For every cell at `level`, the number of indexed keys whose coverage touches it, ascending
    /// by cell; cells that no key touches are left out.
    pub fn attention(&self, level: u32) -> (r: Result<Vec<(Cid, u64)>>)
        requires
            self.wf(),
        ensures
            r is Ok <==> self.stored().len() == 0 || level <= self.stored()[0].d,
            r matches Ok(v) ==> self.is_attention(level as nat, v@),
    {
        let n = self.trees.len();
        let mut per_tree: Vec<Vec<Cid>> = Vec::new();
        let mut j: usize = 0;
        while j < n
            invariant
                self.wf(),
                n == self.trees@.len(),
                j <= n,
                per_tree@.len() == j,
                j > 0 ==> level <= self.stored()[0].d,
                forall|jj: int, x: Cid| 0 <= jj < j ==> (#[trigger] per_tree@[jj]@.contains(x)
                    <==> attends(self.stored()[jj], level as nat, x as int)),
                forall|jj: int, p: int, q: int| 0 <= jj < j && 0 <= p < q < per_tree@[jj]@.len()
                    ==> #[trigger] per_tree@[jj]@[p] < #[trigger] per_tree@[jj]@[q],
            decreases n - j,
        {
            let t = &self.trees[j].1;
            proof {
                assert(*t == self.stored()[j as int]);
            }
            if level > t.d {
                return invalid("the attention level is deeper than the trees");
            }
            let tc = touched_cells(t, level);
            per_tree.push(tc);
            j = j + 1;
        }
        let mut all = self.key_cells(&per_tree, level);
        let ghost unsorted = all@;
        crate::tree::sort_cids(&mut all);
        let out = count_runs(&all);
        proof {
            assert forall|c: Cid| self.attention_count(level as nat, c as int, self.entries().len()) > 0
                implies exists|a: int| 0 <= a < out@.len() && #[trigger] out@[a].0 == c by {
                assert(unsorted.to_multiset().count(c) > 0);
                vstd::seq_lib::to_multiset_contains(all@, c);
                assert(all@.contains(c));
            }
            assert forall|a: int| 0 <= a < out@.len() implies #[trigger] out@[a].1 == self.attention_count(level as nat, out@[a].0 as int, self.entries().len())
                && out@[a].1 > 0 by {
                assert(unsorted.to_multiset().count(out@[a].0) == all@.to_multiset().count(out@[a].0));
            }
            assert(self.is_attention(level as nat, out@));
        }
        Ok(out)
    }
}

} // verus!
