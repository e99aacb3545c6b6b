//! The node hash and the two constant ladders.
//!
//! ```text
//! leaf_empty         = H(0x00)
//! leaf_full          = H(0x01)
//! node(c_0..c_A-1)   = H(0x02 ‖ c_0 ‖ … ‖ c_A-1)
//! root(b_0..b_B-1)   = H(0x03 ‖ b_0 ‖ … ‖ b_B-1)
//! EMPTY[0] = leaf_empty,  EMPTY[d] = node([EMPTY[d-1]] * A)      (likewise FULL)
//! ```
//! A constant subtree `d` levels above the leaves hashes to its ladder value, so a region held as
//! one cell and the same region spelled out to the leaves hash identically (the roll-up).

use vstd::prelude::*;

verus! {

pub type Digest = [u8; 32];

/// SHA-256 of a byte string, as the `sha2` crate computes it.
pub uninterp spec fn spec_sha256(data: Seq<u8>) -> Seq<u8>;

/// `sha2::Sha256::digest`: the SHA-256 digest of `data`. The contract names the result and says
/// nothing of its value beyond that it is a function of `data` alone.
#[verifier::external_body]
pub(crate) fn sha256(data: &[u8]) -> (r: Digest)
    ensures
        r@ == spec_sha256(data@),
{
    <sha2::Sha256 as sha2::Digest>::digest(data).into()
}

/// Two different byte strings with one SHA-256 digest. Every law that reads a set off its hash
/// (equal hashes mean equal sets) holds as long as there is none.
pub open spec fn sha256_collision() -> bool {
    exists|x: Seq<u8>, y: Seq<u8>| x != y && #[trigger] spec_sha256(x) == #[trigger] spec_sha256(y)
}

/// Without a collision, equal tagged digests have equal inputs.
pub proof fn lemma_tagged_inj(t1: u8, p1: Seq<Seq<u8>>, t2: u8, p2: Seq<Seq<u8>>)
    requires
        !sha256_collision(),
        tagged(t1, p1) == tagged(t2, p2),
    ensures
        t1 == t2,
        concat(p1) == concat(p2),
{
    let x = seq![t1] + concat(p1);
    let y = seq![t2] + concat(p2);
    if x != y {
        assert(spec_sha256(x) == spec_sha256(y));
        assert(sha256_collision());
    }
    assert(x[0] == t1);
    assert(y[0] == t2);
    assert(concat(p1) =~= x.subrange(1, x.len() as int));
    assert(concat(p2) =~= y.subrange(1, y.len() as int));
}

/// Parts of 32 bytes each concatenate to `32 * n` bytes.
pub proof fn lemma_concat_len(parts: Seq<Seq<u8>>)
    requires
        forall|i: int| 0 <= i < parts.len() ==> (#[trigger] parts[i]).len() == 32,
    ensures
        concat(parts).len() == 32 * parts.len(),
    decreases parts.len(),
{
    if parts.len() > 0 {
        lemma_concat_len(parts.drop_last());
    }
}

/// Equal concatenations of equally many 32-byte parts have equal parts.
pub proof fn lemma_concat_inj(p1: Seq<Seq<u8>>, p2: Seq<Seq<u8>>)
    requires
        p1.len() == p2.len(),
        forall|i: int| 0 <= i < p1.len() ==> (#[trigger] p1[i]).len() == 32,
        forall|i: int| 0 <= i < p2.len() ==> (#[trigger] p2[i]).len() == 32,
        concat(p1) == concat(p2),
    ensures
        p1 == p2,
    decreases p1.len(),
{
    if p1.len() > 0 {
        let (q1, q2) = (p1.drop_last(), p2.drop_last());
        lemma_concat_len(q1);
        lemma_concat_len(q2);
        let n: int = 32 * q1.len() as int;
        let c = concat(p1);
        assert(concat(q1) =~= c.subrange(0, n));
        assert(concat(q2) =~= c.subrange(0, n));
        assert(p1.last() =~= c.subrange(n, n + 32));
        assert(p2.last() =~= c.subrange(n, n + 32));
        lemma_concat_inj(q1, q2);
        assert(p1 =~= q1.push(p1.last()));
        assert(p2 =~= q2.push(p2.last()));
    }
}

/// Equal concatenations of equally many parts, all 32 bytes but for the `j`-th of the first,
/// have equal parts.
pub proof fn lemma_concat_inj_but_one(p1: Seq<Seq<u8>>, p2: Seq<Seq<u8>>, j: int)
    requires
        p1.len() == p2.len(),
        forall|i: int| 0 <= i < p1.len() && i != j ==> (#[trigger] p1[i]).len() == 32,
        forall|i: int| 0 <= i < p2.len() ==> (#[trigger] p2[i]).len() == 32,
        concat(p1) == concat(p2),
    ensures
        p1 == p2,
    decreases p1.len(),
{
    if p1.len() > 0 {
        let n = p1.len() - 1;
        let (q1, q2) = (p1.drop_last(), p2.drop_last());
        lemma_concat_len(q2);
        let c = concat(p1);
        let m: int = 32 * q2.len() as int;
        if j == n {
            lemma_concat_len(q1);
            assert(concat(q1) =~= c.subrange(0, m));
            assert(concat(q2) =~= c.subrange(0, m));
            lemma_concat_inj(q1, q2);
            assert(p1.last() =~= c.subrange(m, c.len() as int));
            assert(p2.last() =~= c.subrange(m, c.len() as int));
        } else {
            assert(p1.last().len() == 32);
            assert(concat(q1).len() == m);
            assert(concat(q1) =~= c.subrange(0, m));
            assert(concat(q2) =~= c.subrange(0, m));
            assert(p1.last() =~= c.subrange(m, m + 32));
            assert(p2.last() =~= c.subrange(m, m + 32));
            lemma_concat_inj_but_one(q1, q2, j);
        }
        assert(p1 =~= q1.push(p1.last()));
        assert(p2 =~= q2.push(p2.last()));
    }
}

/// The concatenation of byte strings, left to right.
pub open spec fn concat(parts: Seq<Seq<u8>>) -> Seq<u8>
    decreases parts.len(),
{
    if parts.len() == 0 {
        Seq::empty()
    } else {
        concat(parts.drop_last()) + parts.last()
    }
}

/// The digests of a slice, as byte strings.
pub open spec fn views(ds: Seq<Digest>) -> Seq<Seq<u8>> {
    ds.map_values(|d: Digest| d@)
}

/// `H(tag ‖ p_0 ‖ … ‖ p_k)`.
pub open spec fn tagged(tag: u8, parts: Seq<Seq<u8>>) -> Seq<u8> {
    spec_sha256(seq![tag] + concat(parts))
}

pub open spec fn spec_leaf_empty() -> Seq<u8> {
    tagged(0u8, Seq::empty())
}

pub open spec fn spec_leaf_full() -> Seq<u8> {
    tagged(1u8, Seq::empty())
}

pub open spec fn spec_node(children: Seq<Seq<u8>>) -> Seq<u8> {
    tagged(2u8, children)
}

pub open spec fn spec_root(bases: Seq<Seq<u8>>) -> Seq<u8> {
    tagged(3u8, bases)
}

/// `EMPTY[d]` (`full` false) or `FULL[d]` (`full` true) for aperture `a`.
pub open spec fn ladder(full: bool, a: nat, d: nat) -> Seq<u8>
    decreases d,
{
    if d == 0 {
        if full { spec_leaf_full() } else { spec_leaf_empty() }
    } else {
        spec_node(Seq::new(a, |_i: int| ladder(full, a, (d - 1) as nat)))
    }
}

/// `H(tag ‖ parts…)`.
fn sha_tagged(tag: u8, parts: &[Digest]) -> (r: Digest)
    ensures
        r@ == tagged(tag, views(parts@)),
{
    let mut buf: Vec<u8> = Vec::new();
    buf.push(tag);
    let n = parts.len();
    for i in 0..n
        invariant
            n == parts@.len(),
            buf@ == seq![tag] + concat(views(parts@.take(i as int))),
    {
        let ghost before = buf@;
        buf.extend_from_slice(parts[i].as_slice());
        proof {
            let t = views(parts@.take(i + 1));
            assert(t.drop_last() =~= views(parts@.take(i as int)));
            assert(t.last() == parts@[i as int]@);
            assert(buf@ =~= before + parts@[i as int]@);
        }
    }
    proof {
        assert(parts@.take(n as int) =~= parts@);
    }
    sha256(buf.as_slice())
}

/// The four domain-separated digests a tree is hashed with.
pub trait Hasher {
    spec fn spec_id(&self) -> Seq<char>;

    spec fn spec_leaf_empty(&self) -> Seq<u8>;

    spec fn spec_leaf_full(&self) -> Seq<u8>;

    spec fn spec_node(&self, children: Seq<Seq<u8>>) -> Seq<u8>;

    spec fn spec_root(&self, bases: Seq<Seq<u8>>) -> Seq<u8>;

    fn id(&self) -> (r: &'static str)
        ensures
            r@ == self.spec_id(),
    ;

    fn leaf_empty(&self) -> (r: Digest)
        ensures
            r@ == self.spec_leaf_empty(),
    ;

    fn leaf_full(&self) -> (r: Digest)
        ensures
            r@ == self.spec_leaf_full(),
    ;

    fn node(&self, children: &[Digest]) -> (r: Digest)
        ensures
            r@ == self.spec_node(views(children@)),
    ;

    fn root(&self, bases: &[Digest]) -> (r: Digest)
        ensures
            r@ == self.spec_root(views(bases@)),
    ;
}

/// The id of SHA-256, the one hash this crate implements.
pub open spec fn sha256_id() -> Seq<char> {
    seq!['s', 'h', 'a', '2', '5', '6']
}

/// SHA-256 with a one-byte domain tag per kind of node.
#[derive(Debug, Clone, Copy, Default)]
pub struct Sha256Tagged;

impl Hasher for Sha256Tagged {
    open spec fn spec_id(&self) -> Seq<char> {
        sha256_id()
    }

    open spec fn spec_leaf_empty(&self) -> Seq<u8> {
        spec_leaf_empty()
    }

    open spec fn spec_leaf_full(&self) -> Seq<u8> {
        spec_leaf_full()
    }

    open spec fn spec_node(&self, children: Seq<Seq<u8>>) -> Seq<u8> {
        spec_node(children)
    }

    open spec fn spec_root(&self, bases: Seq<Seq<u8>>) -> Seq<u8> {
        spec_root(bases)
    }

    fn id(&self) -> (r: &'static str) {
        let r = "sha256";
        proof {
            reveal_strlit("sha256");
        }
        r
    }

    fn leaf_empty(&self) -> (r: Digest) {
        let none: [Digest; 0] = [];
        let r = sha_tagged(0u8, none.as_slice());
        assert(views(none@) =~= Seq::<Seq<u8>>::empty());
        r
    }

    fn leaf_full(&self) -> (r: Digest) {
        let none: [Digest; 0] = [];
        let r = sha_tagged(1u8, none.as_slice());
        assert(views(none@) =~= Seq::<Seq<u8>>::empty());
        r
    }

    fn node(&self, children: &[Digest]) -> (r: Digest) {
        sha_tagged(2u8, children)
    }

    fn root(&self, bases: &[Digest]) -> (r: Digest) {
        sha_tagged(3u8, bases)
    }
}

/// Whether two digests are the same 32 bytes.
pub fn digest_eq(x: &Digest, y: &Digest) -> (r: bool)
    ensures
        r == (x@ == y@),
{
    let mut i: usize = 0;
    while i < 32
        invariant
            i <= 32,
            forall|j: int| 0 <= j < i ==> x@[j] == y@[j],
        decreases 32 - i,
    {
        if x[i] != y[i] {
            return false;
        }
        i = i + 1;
    }
    assert(x@ =~= y@);
    true
}

/// The hasher a `hash` id names, if this crate implements it.
pub fn hasher_for(id: &str) -> (r: Option<Sha256Tagged>)
    ensures
        r is Some <==> id@ == sha256_id(),
{
    proof {
        reveal_strlit("sha256");
        assert("sha256"@ =~= sha256_id());
    }
    if str_is(id, "sha256") {
        Some(Sha256Tagged)
    } else {
        None
    }
}

/// Whether two strings are the same characters.
pub fn str_is(s: &str, t: &str) -> (r: bool)
    ensures
        r == (s@ == t@),
{
    let n = s.unicode_len();
    let m = t.unicode_len();
    if n != m {
        return false;
    }
    let mut i: usize = 0;
    while i < n
        invariant
            n == s@.len(),
            m == t@.len(),
            n == m,
            i <= n,
            forall|j: int| 0 <= j < i ==> s@[j] == t@[j],
        decreases n - i,
    {
        if s.get_char(i) != t.get_char(i) {
            return false;
        }
        i = i + 1;
    }
    assert(s@ =~= t@);
    true
}

/// `EMPTY[0..=d_max]` and `FULL[0..=d_max]` for one aperture.
#[derive(Debug)]
pub struct Ladders {
    empty: Vec<Digest>,
    full: Vec<Digest>,
}

impl Ladders {
    /// The deepest ladder rung held.
    pub closed spec fn spec_depth(&self) -> nat {
        (self.empty@.len() - 1) as nat
    }

    #[verifier::type_invariant]
    spec fn shape(&self) -> bool {
        &&& self.empty@.len() >= 1
        &&& self.full@.len() == self.empty@.len()
        &&& self.empty@.len() <= u32::MAX + 1
    }

    /// Each rung is the ladder value for aperture `a`.
    pub closed spec fn wf(&self, a: nat) -> bool {
        &&& self.empty@.len() >= 1
        &&& self.full@.len() == self.empty@.len()
        &&& forall|d: int| 0 <= d < self.empty@.len() ==> #[trigger] self.empty@[d]@ == ladder(false, a, d as nat)
        &&& forall|d: int| 0 <= d < self.full@.len() ==> #[trigger] self.full@[d]@ == ladder(true, a, d as nat)
    }

    pub fn new(h: &Sha256Tagged, a: u32, d_max: u32) -> (r: Ladders)
        ensures
            r.wf(a as nat),
            r.spec_depth() == d_max,
    {
        let mut empty: Vec<Digest> = Vec::new();
        let mut full: Vec<Digest> = Vec::new();
        empty.push(h.leaf_empty());
        full.push(h.leaf_full());
        let mut d: u32 = 0;
        while d < d_max
            invariant
                d <= d_max,
                empty@.len() == d + 1,
                full@.len() == d + 1,
                forall|k: int| 0 <= k <= d ==> #[trigger] empty@[k]@ == ladder(false, a as nat, k as nat),
                forall|k: int| 0 <= k <= d ==> #[trigger] full@[k]@ == ladder(true, a as nat, k as nat),
            decreases d_max - d,
        {
            let e = empty[d as usize];
            let f = full[d as usize];
            let mut ve: Vec<Digest> = Vec::new();
            let mut vf: Vec<Digest> = Vec::new();
            let mut k: u32 = 0;
            while k < a
                invariant
                    k <= a,
                    ve@.len() == k,
                    vf@.len() == k,
                    forall|j: int| 0 <= j < k ==> #[trigger] ve@[j] == e,
                    forall|j: int| 0 <= j < k ==> #[trigger] vf@[j] == f,
                decreases a - k,
            {
                ve.push(e);
                vf.push(f);
                k = k + 1;
            }
            let ne = h.node(ve.as_slice());
            let nf = h.node(vf.as_slice());
            proof {
                assert(views(ve@) =~= Seq::new(a as nat, |_i: int| ladder(false, a as nat, d as nat)));
                assert(views(vf@) =~= Seq::new(a as nat, |_i: int| ladder(true, a as nat, d as nat)));
                assert(ne@ == ladder(false, a as nat, (d + 1) as nat));
                assert(nf@ == ladder(true, a as nat, (d + 1) as nat));
            }
            empty.push(ne);
            full.push(nf);
            d = d + 1;
        }
        Ladders { empty, full }
    }

    /// Every rung held is a 32-byte digest.
    pub proof fn lemma_rung_len(&self, a: nat, k: nat)
        requires
            self.wf(a),
            k <= self.spec_depth(),
        ensures
            ladder(false, a, k).len() == 32,
            ladder(true, a, k).len() == 32,
    {
        assert(self.empty@[k as int]@ == ladder(false, a, k));
        assert(self.full@[k as int]@ == ladder(true, a, k));
    }

    /// `EMPTY[d]`.
    pub fn empty(&self, d: u32) -> (r: Digest)
        requires
            d <= self.spec_depth(),
        ensures
            forall|a: nat| self.wf(a) ==> r@ == ladder(false, a, d as nat),
    {
        proof {
            use_type_invariant(self);
        }
        self.empty[d as usize]
    }

    /// `FULL[d]`.
    pub fn full(&self, d: u32) -> (r: Digest)
        requires
            d <= self.spec_depth(),
        ensures
            forall|a: nat| self.wf(a) ==> r@ == ladder(true, a, d as nat),
    {
        proof {
            use_type_invariant(self);
        }
        self.full[d as usize]
    }

    pub fn depth(&self) -> (r: u32)
        ensures
            r == self.spec_depth(),
    {
        proof {
            use_type_invariant(self);
        }
        (self.empty.len() - 1) as u32
    }
}


/// Every rung up to `d` of the two ladders of aperture `a` is a 32-byte digest.
pub open spec fn rungs_are_digests(a: nat, d: nat) -> bool {
    &&& forall|k: nat| k <= d ==> (#[trigger] ladder(false, a, k)).len() == 32
    &&& forall|k: nat| k <= d ==> (#[trigger] ladder(true, a, k)).len() == 32
}

/// The hashing context every tree, opening and transcript is evaluated against.
#[derive(Debug)]
pub struct Ctx {
    pub hasher: Sha256Tagged,
    pub a: u32,
    pub b: u32,
    pub ladders: Ladders,
}

impl Ctx {
    /// The ladders are those of aperture `a`.
    pub open spec fn wf(&self) -> bool {
        self.ladders.wf(self.a as nat)
    }

    /// The deepest ladder rung the context holds.
    pub open spec fn depth(&self) -> nat {
        self.ladders.spec_depth()
    }

    /// The context's rungs are digests.
    pub proof fn lemma_rungs(&self)
        requires
            self.wf(),
        ensures
            rungs_are_digests(self.a as nat, self.depth()),
    {
        assert forall|k: nat| k <= self.depth() implies (#[trigger] ladder(false, self.a as nat, k)).len() == 32 by {
            self.ladders.lemma_rung_len(self.a as nat, k);
        }
        assert forall|k: nat| k <= self.depth() implies (#[trigger] ladder(true, self.a as nat, k)).len() == 32 by {
            self.ladders.lemma_rung_len(self.a as nat, k);
        }
    }

    pub fn new(hasher: Sha256Tagged, a: u32, b: u32, d_max: u32) -> (r: Ctx)
        ensures
            r.wf(),
            r.a == a,
            r.b == b,
            r.depth() == d_max,
    {
        let ladders = Ladders::new(&hasher, a, d_max);
        Ctx { hasher, a, b, ladders }
    }

    pub fn sha256(a: u32, b: u32, d_max: u32) -> (r: Ctx)
        ensures
            r.wf(),
            r.a == a,
            r.b == b,
            r.depth() == d_max,
    {
        Ctx::new(Sha256Tagged, a, b, d_max)
    }
}

/// The lowercase hex digit of a nibble.
pub open spec fn hex_char(n: int) -> char {
    if n < 10 {
        ((48 + n) as u8) as char
    } else {
        ((87 + n) as u8) as char
    }
}

/// Two lowercase hex digits per byte, high nibble first.
pub open spec fn spec_hex(bytes: Seq<u8>) -> Seq<char> {
    Seq::new(
        2 * bytes.len(),
        |i: int| if i % 2 == 0 { hex_char((bytes[i / 2] / 16) as int) } else { hex_char((bytes[i / 2] % 16) as int) },
    )
}

fn nibble_str(n: u8) -> (r: &'static str)
    requires
        n < 16,
    ensures
        r@ == seq![hex_char(n as int)],
{
    proof {
        reveal_strlit("0");
        reveal_strlit("1");
        reveal_strlit("2");
        reveal_strlit("3");
        reveal_strlit("4");
        reveal_strlit("5");
        reveal_strlit("6");
        reveal_strlit("7");
        reveal_strlit("8");
        reveal_strlit("9");
        reveal_strlit("a");
        reveal_strlit("b");
        reveal_strlit("c");
        reveal_strlit("d");
        reveal_strlit("e");
        reveal_strlit("f");
    }
    let r = match n {
        0 => "0",
        1 => "1",
        2 => "2",
        3 => "3",
        4 => "4",
        5 => "5",
        6 => "6",
        7 => "7",
        8 => "8",
        9 => "9",
        10 => "a",
        11 => "b",
        12 => "c",
        13 => "d",
        14 => "e",
        _ => "f",
    };
    assert(r@ =~= seq![hex_char(n as int)]);
    r
}

/// The 64 lowercase hex digits of a digest.
pub fn hex(d: &Digest) -> (r: String)
    ensures
        r@ == spec_hex(d@),
{
    let mut out = String::new();
    let mut i: usize = 0;
    while i < 32
        invariant
            i <= 32,
            out@ == spec_hex(d@).take(2 * i),
        decreases 32 - i,
    {
        let byte = d[i];
        out.append(nibble_str(byte / 16));
        out.append(nibble_str(byte % 16));
        assert(out@ =~= spec_hex(d@).take(2 * (i + 1)));
        i = i + 1;
    }
    assert(spec_hex(d@).take(64) =~= spec_hex(d@));
    out
}

/// The value of a lowercase hex digit.
pub open spec fn hex_val(c: char) -> Option<u8> {
    if '0' <= c <= '9' {
        Some((c as u8 - 48) as u8)
    } else if 'a' <= c <= 'f' {
        Some((c as u8 - 87) as u8)
    } else {
        None
    }
}

/// `s` spells a digest: 64 lowercase hex digits.
pub open spec fn spells_digest(s: Seq<char>) -> bool {
    s.len() == 64 && forall|i: int| 0 <= i < 64 ==> #[trigger] hex_val(s[i]) is Some
}

/// The digest 64 lowercase hex digits spell.
pub open spec fn spec_unhex(s: Seq<char>) -> Seq<u8> {
    Seq::new(32, |i: int| (hex_val(s[2 * i])->0 * 16 + hex_val(s[2 * i + 1])->0) as u8)
}

fn digit_value(c: char) -> (r: Option<u8>)
    ensures
        r == hex_val(c),
{
    if '0' <= c && c <= '9' {
        Some((c as u8) - 48)
    } else if 'a' <= c && c <= 'f' {
        Some((c as u8) - 87)
    } else {
        None
    }
}

/// 64 lowercase hex digits, as `hex` writes them: a digest has one spelling on the wire.
pub fn unhex(s: &str) -> (r: Option<Digest>)
    ensures
        r is Some <==> spells_digest(s@),
        r matches Some(d) ==> d@ == spec_unhex(s@),
{
    let n = s.unicode_len();
    if n != 64 {
        return None;
    }
    let mut out: Digest = [0u8; 32];
    let mut i: usize = 0;
    while i < 32
        invariant
            n == 64,
            s@.len() == 64,
            i <= 32,
            forall|j: int| 0 <= j < 2 * i ==> #[trigger] hex_val(s@[j]) is Some,
            forall|j: int| 0 <= j < i ==> out@[j] == spec_unhex(s@)[j],
        decreases 32 - i,
    {
        let hi = digit_value(s.get_char(2 * i));
        let lo = digit_value(s.get_char(2 * i + 1));
        match (hi, lo) {
            (Some(h), Some(l)) => {
                out[i] = h * 16 + l;
            },
            _ => {
                assert(!spells_digest(s@));
                return None;
            },
        }
        i = i + 1;
    }
    assert(out@ =~= spec_unhex(s@));
    Some(out)
}

/// A nibble's hex digit reads back as the nibble.
proof fn lemma_hex_char(n: int)
    requires
        0 <= n < 16,
    ensures
        hex_val(hex_char(n)) == Some(n as u8),
{
}

/// A hex digit is the digit of the nibble it reads as.
proof fn lemma_hex_val(c: char)
    requires
        hex_val(c) is Some,
    ensures
        hex_val(c)->0 < 16,
        hex_char(hex_val(c)->0 as int) == c,
{
}

/// Hex has one spelling for a digest: 32 bytes spell 64 lowercase hex digits that read back as
/// The hex digit of a nibble is its place in `0123456789abcdef`.
proof fn lemma_hex_char_table(n: int)
    requires
        0 <= n < 16,
    ensures
        hex_char(n) == seq!['0', '1', '2', '3', '4', '5', '6', '7', '8', '9', 'a', 'b', 'c', 'd', 'e', 'f'][n],
{
    let t = seq!['0', '1', '2', '3', '4', '5', '6', '7', '8', '9', 'a', 'b', 'c', 'd', 'e', 'f'];
    if n == 0 { assert(hex_char(0) == t[0]); }
    else if n == 1 { assert(hex_char(1) == t[1]); }
    else if n == 2 { assert(hex_char(2) == t[2]); }
    else if n == 3 { assert(hex_char(3) == t[3]); }
    else if n == 4 { assert(hex_char(4) == t[4]); }
    else if n == 5 { assert(hex_char(5) == t[5]); }
    else if n == 6 { assert(hex_char(6) == t[6]); }
    else if n == 7 { assert(hex_char(7) == t[7]); }
    else if n == 8 { assert(hex_char(8) == t[8]); }
    else if n == 9 { assert(hex_char(9) == t[9]); }
    else if n == 10 { assert(hex_char(10) == t[10]); }
    else if n == 11 { assert(hex_char(11) == t[11]); }
    else if n == 12 { assert(hex_char(12) == t[12]); }
    else if n == 13 { assert(hex_char(13) == t[13]); }
    else if n == 14 { assert(hex_char(14) == t[14]); }
    else { assert(hex_char(15) == t[15]); }
}

/// Spelling bytes in hex gives two characters per byte: the digit of its high nibble, then the
/// digit of its low nibble, each its place in `0123456789abcdef`.
pub proof fn lemma_hex_digits(b: Seq<u8>, i: int)
    requires
        0 <= i < b.len(),
    ensures
        spec_hex(b).len() == 2 * b.len(),
        spec_hex(b)[2 * i] == seq!['0', '1', '2', '3', '4', '5', '6', '7', '8', '9', 'a', 'b', 'c', 'd', 'e', 'f'][(b[i] / 16) as int],
        spec_hex(b)[2 * i + 1] == seq!['0', '1', '2', '3', '4', '5', '6', '7', '8', '9', 'a', 'b', 'c', 'd', 'e', 'f'][(b[i] % 16) as int],
{
    let s = spec_hex(b);
    assert((2 * i) % 2 == 0 && (2 * i) / 2 == i);
    assert((2 * i + 1) % 2 == 1 && (2 * i + 1) / 2 == i);
    lemma_hex_char_table((b[i] / 16) as int);
    lemma_hex_char_table((b[i] % 16) as int);
}

/// Reading 64 hex digits gives the bytes they spell: byte `i` has the digit at `2i` as its high
/// nibble and the digit at `2i + 1` as its low one, each read as its place in `0123456789abcdef`.
pub proof fn lemma_unhex_digits(s: Seq<char>, i: int)
    requires
        spells_digest(s),
        0 <= i < 32,
    ensures
        s[2 * i] == seq!['0', '1', '2', '3', '4', '5', '6', '7', '8', '9', 'a', 'b', 'c', 'd', 'e', 'f'][(spec_unhex(s)[i] / 16) as int],
        s[2 * i + 1] == seq!['0', '1', '2', '3', '4', '5', '6', '7', '8', '9', 'a', 'b', 'c', 'd', 'e', 'f'][(spec_unhex(s)[i] % 16) as int],
{
    lemma_unhex_round_trip(s);
    lemma_hex_digits(spec_unhex(s), i);
}

/// those bytes.
pub proof fn lemma_hex_round_trip(b: Seq<u8>)
    requires
        b.len() == 32,
    ensures
        spells_digest(spec_hex(b)),
        spec_unhex(spec_hex(b)) == b,
{
    let s = spec_hex(b);
    assert forall|i: int| 0 <= i < 64 implies #[trigger] hex_val(s[i]) is Some by {
        if i % 2 == 0 {
            lemma_hex_char((b[i / 2] / 16) as int);
        } else {
            lemma_hex_char((b[i / 2] % 16) as int);
        }
    }
    assert forall|i: int| 0 <= i < 32 implies #[trigger] spec_unhex(s)[i] == b[i] by {
        lemma_hex_char((b[i] / 16) as int);
        lemma_hex_char((b[i] % 16) as int);
        assert((2 * i) / 2 == i && (2 * i + 1) / 2 == i);
        assert((2 * i) % 2 == 0 && (2 * i + 1) % 2 == 1);
    }
    assert(spec_unhex(s) =~= b);
}

/// Reading a spelled digest and writing it again gives the same spelling.
pub proof fn lemma_unhex_round_trip(s: Seq<char>)
    requires
        spells_digest(s),
    ensures
        spec_unhex(s).len() == 32,
        spec_hex(spec_unhex(s)) == s,
{
    let b = spec_unhex(s);
    assert forall|i: int| 0 <= i < 64 implies #[trigger] spec_hex(b)[i] == s[i] by {
        let j = i / 2;
        assert(hex_val(s[2 * j]) is Some && hex_val(s[2 * j + 1]) is Some);
        lemma_hex_val(s[2 * j]);
        lemma_hex_val(s[2 * j + 1]);
        let (hi, lo) = (hex_val(s[2 * j])->0 as int, hex_val(s[2 * j + 1])->0 as int);
        assert(b[j] == hi * 16 + lo);
        assert((hi * 16 + lo) / 16 == hi && (hi * 16 + lo) % 16 == lo);
    }
    assert(spec_hex(b) =~= s);
}

} // verus!
