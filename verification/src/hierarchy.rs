//! The hierarchy H(A, B) and the cell id.
//!
//! ```text
//! path   (b, d_1, ..., d_r)     b in [0, B), d_i in [0, A), r >= 0 the level
//! cid    (A + b) * A^r + Σ d_i * A^(r-1-i)     one integer
//! suid   'Q453'                                the rHEALPix human form, B == 6 only
//! ```
//! With `B <= A(A-1)` a cid at level r has exactly r + 2 base-A digits, so `level`, `parent`
//! (`cid / A`), `child` (`A*cid + k`) and contiguous `descendants` all follow from the digits.

use vstd::prelude::*;
use vstd::arithmetic::power::*;
use vstd::arithmetic::div_mod::*;
use vstd::arithmetic::mul::*;
use vstd::arithmetic::power2::*;
use vstd::bits::*;
use crate::arith::{lemma_pow_base_mono, lemma_div_in_block, lemma_ndigits_bounds, lemma_ndigits_range, lemma_pow_pos, lemma_pow_succ, ndigits};
use crate::error::{invalid, Error, Result};

verus! {

pub type Cid = u64;

/// The largest aperture a hierarchy is built with: a verifier builds ladders of this width.
pub const MAX_APERTURE: u32 = 4096;

/// The letters of the six rHEALPix base cells.
pub const BASE_LETTERS: [u8; 6] = [78u8, 79u8, 80u8, 81u8, 82u8, 83u8];

/// `2^64`: one more than the largest cid.
pub open spec fn cid_space() -> int {
    0x1_0000_0000_0000_0000
}

#[derive(Debug, Clone, Copy, PartialEq, Eq, Structural, Hash)]
pub struct Hierarchy {
    pub a: u32,
    pub b: u32,
}

/// rHEALPix with `N_side = 3`: aperture 9 over six base cells.
pub open spec fn space_h() -> Hierarchy {
    Hierarchy { a: 9, b: 6 }
}

/// rHEALPix with `N_side = 3`: aperture 9 over six base cells.
pub fn space() -> (r: Hierarchy)
    ensures
        r == space_h(),
        r.valid(),
{
    Hierarchy { a: 9, b: 6 }
}

/// `b^e` when it fits.
pub fn upow(b: u64, e: u32) -> (r: u64)
    requires
        b >= 1,
        pow(b as int, e as nat) < cid_space(),
    ensures
        r == pow(b as int, e as nat),
{
    let mut r: u64 = 1;
    let mut i: u32 = 0;
    proof {
        reveal(pow);
    }
    while i < e
        invariant
            i <= e,
            b >= 1,
            r == pow(b as int, i as nat),
            pow(b as int, e as nat) < cid_space(),
        decreases e - i,
    {
        proof {
            lemma_pow_succ(b as int, i as nat);
            lemma_pow_increases(b as nat, (i + 1) as nat, e as nat);
        }
        r = r * b;
        i = i + 1;
    }
    r
}

/// `b^e`, or `None` when it does not fit in 64 bits.
pub fn checked_upow(b: u64, e: u32) -> (r: Option<u64>)
    requires
        b >= 1,
    ensures
        r matches Some(v) ==> v == pow(b as int, e as nat),
        r is None <==> pow(b as int, e as nat) >= cid_space(),
{
    let mut r: u64 = 1;
    let mut i: u32 = 0;
    proof {
        reveal(pow);
    }
    while i < e
        invariant
            i <= e,
            b >= 1,
            r == pow(b as int, i as nat),
        decreases e - i,
    {
        proof {
            lemma_pow_succ(b as int, i as nat);
        }
        match r.checked_mul(b) {
            Some(v) => r = v,
            None => {
                proof {
                    lemma_pow_increases(b as nat, (i + 1) as nat, e as nat);
                }
                return None;
            },
        }
        i = i + 1;
    }
    Some(r)
}

impl Hierarchy {
    /// `A >= 2`, `B >= 1` and `B <= A(A-1)`: a cid's leading block is two base-A digits.
    pub open spec fn valid(self) -> bool {
        self.a >= 2 && self.b >= 1 && self.b <= self.a * (self.a - 1)
    }

    /// A hierarchy `new` builds: valid, with an aperture no larger than `MAX_APERTURE`.
    pub open spec fn buildable(self) -> bool {
        self.valid() && self.a <= MAX_APERTURE
    }

    /// Every cid at level `r` fits in 64 bits: `(A + B) * A^r <= 2^64`.
    pub open spec fn fits(self, r: nat) -> bool {
        (self.a + self.b) * pow(self.a as int, r) <= cid_space()
    }

    /// The deepest level at which every cell has a 64-bit cid.
    pub open spec fn is_max_level(self, r: nat) -> bool {
        self.fits(r) && !self.fits(r + 1)
    }

    /// A path: a base below B followed by digits below A.
    pub open spec fn valid_path(self, p: Seq<u32>) -> bool {
        &&& p.len() >= 1
        &&& p[0] < self.b
        &&& forall|i: int| 1 <= i < p.len() ==> #[trigger] p[i] < self.a
    }

    /// The cid of a path: `(A + b) * A^r + Σ d_i * A^(r-i)`.
    pub open spec fn spec_cid(self, p: Seq<u32>) -> int
        decreases p.len(),
    {
        if p.len() <= 1 {
            self.a + p[0]
        } else {
            self.spec_cid(p.drop_last()) * self.a + p.last()
        }
    }

    /// The level of a cid: its number of base-A digits less two.
    pub open spec fn spec_level(self, x: int) -> nat {
        let n = ndigits(x as nat, self.a as nat);
        if n >= 2 { (n - 2) as nat } else { 0 }
    }

    /// The leading block of a cid: `A + base`.
    pub open spec fn lead(self, x: int) -> int {
        x / pow(self.a as int, self.spec_level(x))
    }

    /// A well-formed cid: its leading block names a base cell.
    pub open spec fn is_cid(self, x: int) -> bool {
        x >= self.a && self.a <= self.lead(x) < self.a + self.b
    }

    /// The `r + 1` entries of the path of `x` read as a cid at level `r`.
    pub open spec fn spec_path(self, x: int, r: nat) -> Seq<u32>
        decreases r,
    {
        if r == 0 {
            seq![(x - self.a) as u32]
        } else {
            self.spec_path(x / self.a as int, (r - 1) as nat).push((x % self.a as int) as u32)
        }
    }

    /// The path of a cid.
    pub open spec fn path_of(self, x: int) -> Seq<u32> {
        self.spec_path(x, self.spec_level(x))
    }

    /// `x` is `y` or an ancestor of `y`, by the digits.
    pub open spec fn spec_is_ancestor(self, x: int, y: int) -> bool {
        let (lx, ly) = (self.spec_level(x), self.spec_level(y));
        lx <= ly && y / pow(self.a as int, (ly - lx) as nat) == x
    }

    /// A valid path of length `r + 1` lies in the block of its base: `[(A+b)A^r, (A+b+1)A^r)`.
    pub proof fn lemma_cid_bounds(self, p: Seq<u32>)
        requires
            self.a >= 1,
            self.valid_path(p),
        ensures
            (self.a + p[0]) * pow(self.a as int, (p.len() - 1) as nat) <= self.spec_cid(p),
            self.spec_cid(p) < (self.a + p[0] + 1) * pow(self.a as int, (p.len() - 1) as nat),
        decreases p.len(),
    {
        let a = self.a as int;
        if p.len() == 1 {
            reveal(pow);
            assert(pow(a, 0) == 1);
        } else {
            let q = p.drop_last();
            assert(self.valid_path(q));
            self.lemma_cid_bounds(q);
            let r = (q.len() - 1) as nat;
            let c = self.spec_cid(q);
            lemma_pow_succ(a, r);
            let lo = (a + p[0]) * pow(a, r);
            let hi = (a + p[0] + 1) * pow(a, r);
            assert(p.last() < a);
            lemma_mul_inequality(lo, c, a);
            lemma_mul_inequality(c + 1, hi, a);
            lemma_mul_is_distributive_add_other_way(a, c, 1);
            lemma_mul_is_associative(a + p[0], pow(a, r), a);
            lemma_mul_is_associative(a + p[0] + 1, pow(a, r), a);
        }
    }

    /// A valid path's cid is at level `len - 1`, and reading it back gives the path.
    pub proof fn lemma_cid_path(self, p: Seq<u32>)
        requires
            self.valid(),
            self.valid_path(p),
        ensures
            self.spec_level(self.spec_cid(p)) == p.len() - 1,
            self.is_cid(self.spec_cid(p)),
            self.path_of(self.spec_cid(p)) == p,
    {
        let a = self.a as int;
        let r = (p.len() - 1) as nat;
        let x = self.spec_cid(p);
        self.lemma_cid_bounds(p);
        lemma_pow_pos(a, r);
        lemma_pow_succ(a, r);
        lemma_pow_succ(a, r + 1);
        // a^(r+1) <= (a + p0) a^r and (a + p0 + 1) a^r <= a^(r+2)
        lemma_mul_inequality(a, a + p[0], pow(a, r));
        lemma_mul_is_commutative(a, pow(a, r));
        assert(p[0] < self.b);
        assert(self.b <= a * (a - 1));
        lemma_mul_is_distributive_sub(a, a, 1);
        lemma_mul_inequality(a + p[0] + 1, a * a, pow(a, r));
        lemma_mul_is_associative(a, a, pow(a, r));
        lemma_ndigits_range(x as nat, a as nat, r + 1);
        assert(self.spec_level(x) == r);
        lemma_div_in_block(x, a + p[0], pow(a, r));
        self.lemma_spec_path_of_cid(p);
    }

    proof fn lemma_spec_path_of_cid(self, p: Seq<u32>)
        requires
            self.valid(),
            self.valid_path(p),
        ensures
            self.spec_path(self.spec_cid(p), (p.len() - 1) as nat) == p,
        decreases p.len(),
    {
        let a = self.a as int;
        if p.len() == 1 {
            assert(self.spec_path(self.spec_cid(p), 0) =~= p);
        } else {
            let q = p.drop_last();
            assert(self.valid_path(q));
            self.lemma_spec_path_of_cid(q);
            let c = self.spec_cid(q);
            self.lemma_cid_bounds(q);
            lemma_pow_pos(a, (q.len() - 1) as nat);
            lemma_mul_is_commutative(c, a);
            lemma_fundamental_div_mod_converse(c * a + p.last(), a, c, p.last() as int);
            assert(self.spec_path(self.spec_cid(p), (p.len() - 1) as nat) =~= p);
        }
    }

    /// A well-formed cid's path is valid and its cid is the cid.
    pub proof fn lemma_path_cid(self, x: int)
        requires
            self.valid(),
            self.is_cid(x),
        ensures
            self.valid_path(self.path_of(x)),
            self.path_of(x).len() == self.spec_level(x) + 1,
            self.spec_cid(self.path_of(x)) == x,
    {
        self.lemma_spec_path_block(x, self.spec_level(x));
    }

    proof fn lemma_spec_path_block(self, x: int, r: nat)
        requires
            self.valid(),
            x >= 0,
            self.a <= x / pow(self.a as int, r) < self.a + self.b,
        ensures
            self.valid_path(self.spec_path(x, r)),
            self.spec_path(x, r).len() == r + 1,
            self.spec_cid(self.spec_path(x, r)) == x,
        decreases r,
    {
        let a = self.a as int;
        if r == 0 {
            reveal(pow);
            assert(pow(a, 0) == 1);
        } else {
            lemma_pow_succ(a, (r - 1) as nat);
            lemma_pow_pos(a, (r - 1) as nat);
            lemma_div_denominator(x, a, pow(a, (r - 1) as nat));
            lemma_div_pos_is_pos(x, a);
            self.lemma_spec_path_block(x / a, (r - 1) as nat);
            let p = self.spec_path(x, r);
            let q = self.spec_path(x / a, (r - 1) as nat);
            assert(p.drop_last() =~= q);
            lemma_mod_bound(x, a);
            lemma_fundamental_div_mod(x, a);
            lemma_mul_is_commutative(a, x / a);
        }
    }

    /// A well-formed cid has `level + 2` digits: `A^(r+1) <= x < A^(r+2)`.
    pub proof fn lemma_cid_digits(self, x: int)
        requires
            self.valid(),
            x >= self.a,
        ensures
            ndigits(x as nat, self.a as nat) == self.spec_level(x) + 2,
            pow(self.a as int, self.spec_level(x) + 1) <= x < pow(self.a as int, self.spec_level(x) + 2),
            self.a <= self.lead(x) < self.a * self.a,
    {
        let a = self.a as int;
        lemma_ndigits_bounds(x as nat, a as nat);
        let n = ndigits(x as nat, a as nat);
        if n < 2 {
            reveal(pow);
            assert(pow(a, 1) == a * pow(a, 0));
        }
        let r = (n - 2) as nat;
        lemma_pow_succ(a, r);
        lemma_pow_succ(a, r + 1);
        lemma_pow_pos(a, r);
        lemma_mul_is_associative(a, a, pow(a, r));
        lemma_mul_is_commutative(a, pow(a, r));
        lemma_mul_is_commutative(a * a, pow(a, r));
        lemma_div_by_multiple(a, pow(a, r));
        lemma_div_is_ordered(a * pow(a, r), x, pow(a, r));
        lemma_multiply_divide_lt(x, pow(a, r), a * a);
    }

    /// A shallower level fits whenever a deeper one does.
    pub proof fn lemma_fits_mono(self, r1: nat, r2: nat)
        requires
            self.valid(),
            r1 <= r2,
            self.fits(r2),
        ensures
            self.fits(r1),
    {
        lemma_pow_increases(self.a as nat, r1, r2);
        lemma_mul_inequality(pow(self.a as int, r1), pow(self.a as int, r2), self.a + self.b);
        lemma_mul_is_commutative(self.a + self.b, pow(self.a as int, r1));
        lemma_mul_is_commutative(self.a + self.b, pow(self.a as int, r2));
    }

    /// The `i`-th leaf, `r` levels down, of the base block `lead`: a cid at level `r`.
    pub proof fn lemma_block_leaf(self, lead: int, r: nat, i: int)
        requires
            self.valid(),
            self.a <= lead < self.a + self.b,
            0 <= i < pow(self.a as int, r),
        ensures
            self.is_cid(lead * pow(self.a as int, r) + i),
            self.spec_level(lead * pow(self.a as int, r) + i) == r,
            self.lead(lead * pow(self.a as int, r) + i) == lead,
            (lead * pow(self.a as int, r) + i) % pow(self.a as int, r) == i,
    {
        let a = self.a as int;
        let p = pow(a, r);
        let x = lead * p + i;
        lemma_pow_pos(a, r);
        lemma_pow_succ(a, r);
        lemma_pow_succ(a, r + 1);
        lemma_mul_is_commutative(lead, p);
        lemma_mul_is_distributive_add_other_way(p, lead, 1);
        lemma_mul_is_commutative(lead + 1, p);
        lemma_div_in_block(x, lead, p);
        lemma_mul_inequality(a, lead, p);
        lemma_mul_is_commutative(a, p);
        lemma_mul_is_distributive_sub(a, a, 1);
        lemma_mul_inequality(lead + 1, a * a, p);
        lemma_mul_is_associative(a, a, p);
        lemma_mul_is_commutative(a * a, p);
        lemma_ndigits_range(x as nat, a as nat, r + 1);
    }

    /// A cid at level `r` is its lead block times `A^r` plus its offset in the block.
    pub proof fn lemma_leaf_split(self, x: int)
        requires
            self.valid(),
            self.is_cid(x),
        ensures
            x == self.lead(x) * pow(self.a as int, self.spec_level(x)) + x % pow(self.a as int, self.spec_level(x)),
            0 <= x % pow(self.a as int, self.spec_level(x)) < pow(self.a as int, self.spec_level(x)),
    {
        let p = pow(self.a as int, self.spec_level(x));
        lemma_pow_pos(self.a as int, self.spec_level(x));
        lemma_fundamental_div_mod(x, p);
        lemma_mod_bound(x, p);
        lemma_mul_is_commutative(p, x / p);
    }

    /// Below level `l <= r`, a cid at level `r` lies in the block of `c` exactly when `c` is its
    /// ancestor.
    pub proof fn lemma_block_ancestor(self, c: int, x: int)
        requires
            self.valid(),
            self.is_cid(c),
            self.is_cid(x),
            self.spec_level(c) <= self.spec_level(x),
        ensures
            self.spec_is_ancestor(c, x) <==> (
                c * pow(self.a as int, (self.spec_level(x) - self.spec_level(c)) as nat) <= x
                && x < (c + 1) * pow(self.a as int, (self.spec_level(x) - self.spec_level(c)) as nat)),
    {
        let w = pow(self.a as int, (self.spec_level(x) - self.spec_level(c)) as nat);
        lemma_pow_pos(self.a as int, (self.spec_level(x) - self.spec_level(c)) as nat);
        if c * w <= x && x < (c + 1) * w {
            lemma_div_in_block(x, c, w);
        }
        if x / w == c {
            lemma_fundamental_div_mod(x, w);
            lemma_mod_bound(x, w);
            lemma_mul_is_commutative(w, c);
            lemma_mul_is_distributive_add_other_way(w, c, 1);
        }
    }

    /// A path's cid is its base block followed by the value of its digits.
    pub proof fn lemma_cid_split(self, p: Seq<u32>)
        requires
            self.valid(),
            self.valid_path(p),
        ensures
            self.spec_cid(p) == (self.a + p[0]) * pow(self.a as int, (p.len() - 1) as nat) + digits_val(p.drop_first(), self.a as nat),
            0 <= digits_val(p.drop_first(), self.a as nat) < pow(self.a as int, (p.len() - 1) as nat),
        decreases p.len(),
    {
        let a = self.a as int;
        lemma_digits_val_bound(p.drop_first(), self.a as nat);
        if p.len() == 1 {
            reveal(pow);
            assert(pow(a, 0) == 1);
            assert(p.drop_first().len() == 0);
            assert(digits_val(p.drop_first(), self.a as nat) == 0);
            assert(self.spec_cid(p) == self.a + p[0]);
            assert((self.a + p[0]) * 1 == self.a + p[0]);
        } else {
            let q = p.drop_last();
            assert(self.valid_path(q));
            self.lemma_cid_split(q);
            let r = (q.len() - 1) as nat;
            lemma_pow_succ(a, r);
            let ds = p.drop_first();
            assert(ds.drop_last() =~= q.drop_first());
            assert(ds.last() == p.last());
            let pp = pow(a, r);
            let v = digits_val(q.drop_first(), self.a as nat);
            let l = p.last() as int;
            let b0 = a + p[0];
            assert(q[0] == p[0]);
            assert((b0 * pp + v) * a + l == b0 * (pp * a) + (v * a + l)) by (nonlinear_arith);
            assert(digits_val(ds, self.a as nat) == v * a + l);
            assert(self.spec_cid(p) == self.spec_cid(q) * a + l);
            assert(pow(a, (p.len() - 1) as nat) == pp * a);
            assert(self.spec_cid(p) == b0 * (pp * a) + (v * a + l));
        }
    }

    /// A leaf lies under a cid exactly when they share a base and the leaf's offset in the base
    /// block, cut to the cid's level, is the value of the cid's digits.
    pub proof fn lemma_ancestor_digits(self, c: int, x: int)
        requires
            self.valid(),
            self.is_cid(c),
            self.is_cid(x),
            self.spec_level(c) <= self.spec_level(x),
        ensures
            self.spec_is_ancestor(c, x) <==> (self.lead(x) == self.lead(c)
                && (x % pow(self.a as int, self.spec_level(x))) / pow(self.a as int, (self.spec_level(x) - self.spec_level(c)) as nat)
                    == digits_val(self.path_of(c).drop_first(), self.a as nat)),
            self.lead(c) == self.a + self.path_of(c)[0],
    {
        let a = self.a as int;
        let (r, d) = (self.spec_level(c), self.spec_level(x));
        let k = (d - r) as nat;
        let p = self.path_of(c);
        self.lemma_path_cid(c);
        self.lemma_cid_split(p);
        self.lemma_leaf_split(x);
        self.lemma_leaf_split(c);
        let v = digits_val(p.drop_first(), self.a as nat);
        let i = x % pow(a, d);
        let w = pow(a, k);
        let pr = pow(a, r);
        lemma_pow_pos(a, k);
        lemma_pow_pos(a, r);
        lemma_pow_adds(a, r, k);
        assert(r + k == d);
        let lx = self.lead(x);
        let lc = a + p[0];
        // c = lc a^r + v with v < a^r, so lead(c) = lc
        assert(c == lc * pr + v);
        assert(lc * pr <= c < (lc + 1) * pr) by (nonlinear_arith)
            requires
                c == lc * pr + v,
                0 <= v < pr,
        ;
        lemma_div_in_block(c, lc, pr);
        // x / a^k = lx a^r + i / a^k, with i / a^k < a^r
        lemma_fundamental_div_mod(i, w);
        lemma_mod_bound(i, w);
        lemma_div_pos_is_pos(i, w);
        lemma_multiply_divide_lt(i, w, pr);
        lemma_mul_is_commutative(w, pr);
        let q = i / w;
        let m = i % w;
        assert(x == (lx * pr + q) * w + m) by (nonlinear_arith)
            requires
                x == lx * (pr * w) + i,
                i == w * q + m,
        ;
        assert((lx * pr + q) * w <= x < (lx * pr + q + 1) * w) by (nonlinear_arith)
            requires
                x == (lx * pr + q) * w + m,
                0 <= m < w,
        ;
        lemma_div_in_block(x, lx * pr + q, w);
        // two decompositions of the same number by a^r agree
        if x / w == c {
            assert(lx * pr <= c < (lx + 1) * pr) by (nonlinear_arith)
                requires
                    c == lx * pr + q,
                    0 <= q < pr,
            ;
            lemma_div_in_block(c, lx, pr);
        }
    }

    /// A hierarchy whose leading block is two digits: `A >= 2`, `1 <= B <= A(A-1)`.
    pub fn is_valid(&self) -> (r: bool)
        ensures
            r == self.valid(),
    {
        if self.a < 2 || self.b < 1 {
            return false;
        }
        proof {
            assert((self.a as u64) * ((self.a as u64) - 1) <= 0xffff_ffff * 0xffff_ffffu64) by (nonlinear_arith)
                requires
                    2 <= self.a <= 0xffff_ffff,
            ;
        }
        self.b as u64 <= self.a as u64 * (self.a as u64 - 1)
    }

    /// The hierarchy `H(A, B)`, for `2 <= A <= MAX_APERTURE` and `1 <= B <= A(A-1)`.
    pub fn new(a: u32, b: u32) -> (r: Result<Hierarchy>)
        ensures
            r is Ok <==> (Hierarchy { a, b }).buildable(),
            r matches Ok(h) ==> h == (Hierarchy { a, b }),
    {
        if a < 2 || b < 1 {
            return invalid("need A >= 2 and B >= 1");
        }
        if a > MAX_APERTURE {
            return invalid("A is larger than the largest aperture");
        }
        proof {
            assert((a as u64) * ((a as u64) - 1) <= 0xffff_ffff * 0xffff_ffffu64) by (nonlinear_arith)
                requires
                    2 <= a <= 0xffff_ffff,
            ;
        }
        if b as u64 > a as u64 * (a as u64 - 1) {
            return invalid("B > A(A-1): the leading block would not be two digits");
        }
        Ok(Hierarchy { a, b })
    }

    /// The deepest level whose cids all fit in 64 bits. Below an aperture of 2 every level fits,
    /// and the answer is the deepest level a `u32` names.
    pub fn max_level(&self) -> (r: u32)
        ensures
            self.a >= 2 ==> self.is_max_level(r as nat),
            self.a < 2 ==> r == u32::MAX && forall|l: nat| #[trigger] self.fits(l),
    {
        if self.a < 2 {
            proof {
                assert forall|l: nat| #[trigger] self.fits(l) by {
                    if self.a == 1 {
                        lemma1_pow(l);
                    } else if l == 0 {
                        lemma_pow0(0);
                    } else {
                        lemma0_pow(l);
                    }
                }
            }
            return u32::MAX;
        }
        let a = self.a as u128;
        let mut top: u128 = self.a as u128 + self.b as u128;
        let mut r: u32 = 0;
        proof {
            reveal(pow);
            assert(pow(a as int, 0) == 1);
        }
        loop
            invariant
                a == self.a,
                a >= 2,
                r <= 64,
                top == (self.a + self.b) * pow(a as int, r as nat),
                top <= 0x1_0000_0000_0000_0000,
                top >= pow(2, r as nat),
            ensures
                top == (self.a + self.b) * pow(a as int, r as nat),
                top <= 0x1_0000_0000_0000_0000,
                top * a > 0x1_0000_0000_0000_0000,
            decreases 0x1_0000_0000_0000_0000 - top,
        {
            proof {
                assert(top * a <= 0x1_0000_0000_0000_0000 * 0xffff_ffffu128) by (nonlinear_arith)
                    requires
                        top <= 0x1_0000_0000_0000_0000,
                        a <= 0xffff_ffff,
                ;
            }
            if top * a > 0x1_0000_0000_0000_0000 {
                break;
            }
            proof {
                lemma_pow_succ(a as int, r as nat);
                lemma_pow_succ(2, r as nat);
                lemma_mul_is_associative(self.a + self.b, pow(a as int, r as nat), a as int);
                lemma_pow_pos(2, r as nat);
                lemma_mul_inequality(2, a as int, top as int);
                if r >= 64 {
                    lemma_pow_increases(2, 64, r as nat);
                    lemma_pow2(64);
                    lemma2_to64();
                    assert(false);
                }
            }
            top = top * a;
            r = r + 1;
        }
        proof {
            lemma_pow_succ(a as int, r as nat);
            lemma_mul_is_associative(self.a + self.b, pow(a as int, r as nat), a as int);
        }
        r
    }

    /// The cid of a path: a base below `B`, then digits below `A`, no deeper than the deepest
    /// level. Any `A` and `B` are read this way; below an aperture of 2 every level fits.
    pub fn cid(&self, path: &[u32]) -> (r: Result<Cid>)
        ensures
            r is Ok <==> self.valid_path(path@) && self.fits((path@.len() - 1) as nat),
            r matches Ok(c) ==> c == self.spec_cid(path@),
    {
        if path.len() == 0 {
            return invalid("empty path");
        }
        if path[0] >= self.b {
            return invalid("base out of range");
        }
        let n = path.len();
        let mut i: usize = 1;
        while i < n
            invariant
                n == path@.len(),
                1 <= i <= n,
                path@[0] < self.b,
                forall|j: int| 1 <= j < i ==> #[trigger] path@[j] < self.a,
            decreases n - i,
        {
            if path[i] >= self.a {
                return invalid("digit out of range");
            }
            i = i + 1;
        }
        if self.a < 2 {
            return Ok(self.cid_below_two(path));
        }
        let deepest = self.max_level();
        if n - 1 > deepest as usize {
            proof {
                lemma_pow_increases(self.a as nat, (deepest + 1) as nat, (n - 1) as nat);
                lemma_mul_inequality(pow(self.a as int, (deepest + 1) as nat), pow(self.a as int, (n - 1) as nat), self.a + self.b);
                lemma_mul_is_commutative(self.a + self.b, pow(self.a as int, (deepest + 1) as nat));
                lemma_mul_is_commutative(self.a + self.b, pow(self.a as int, (n - 1) as nat));
            }
            return invalid("path deeper than the deepest level");
        }
        proof {
            if !self.fits((n - 1) as nat) {
                lemma_pow_increases(self.a as nat, (n - 1) as nat, deepest as nat);
                lemma_mul_inequality(pow(self.a as int, (n - 1) as nat), pow(self.a as int, deepest as nat), self.a + self.b);
                lemma_mul_is_commutative(self.a + self.b, pow(self.a as int, (n - 1) as nat));
                lemma_mul_is_commutative(self.a + self.b, pow(self.a as int, deepest as nat));
                assert(false);
            }
        }
        let mut c: u64 = self.a as u64 + path[0] as u64;
        let mut i: usize = 1;
        while i < n
            invariant
                self.a >= 2,
                n == path@.len(),
                1 <= i <= n,
                self.valid_path(path@),
                self.fits((n - 1) as nat),
                c == self.spec_cid(path@.take(i as int)),
            decreases n - i,
        {
            proof {
                let q = path@.take(i + 1);
                assert(q.drop_last() =~= path@.take(i as int));
                assert(self.valid_path(q));
                self.lemma_cid_bounds(q);
                let a = self.a as int;
                lemma_pow_increases(a as nat, i as nat, (n - 1) as nat);
                lemma_pow_pos(a, i as nat);
                lemma_mul_inequality(self.a + path@[0] + 1, self.a + self.b, pow(a, i as nat));
                lemma_mul_inequality(pow(a, i as nat), pow(a, (n - 1) as nat), self.a + self.b);
                lemma_mul_is_commutative(self.a + self.b, pow(a, i as nat));
                lemma_mul_is_commutative(self.a + self.b, pow(a, (n - 1) as nat));
            }
            c = c * self.a as u64 + path[i] as u64;
            i = i + 1;
        }
        proof {
            assert(path@.take(n as int) =~= path@);
        }
        Ok(c)
    }

    /// The cid of a path below an aperture of 2: no digit is below 0, and the only digit below 1
    /// is 0, so the cid is `A` plus the base.
    fn cid_below_two(&self, path: &[u32]) -> (r: Cid)
        requires
            self.a < 2,
            self.valid_path(path@),
        ensures
            r == self.spec_cid(path@),
            self.fits((path@.len() - 1) as nat),
    {
        let n = path.len();
        let c: u64 = self.a as u64 + path[0] as u64;
        let mut i: usize = 1;
        while i < n
            invariant
                self.a < 2,
                n == path@.len(),
                1 <= i <= n,
                self.valid_path(path@),
                c == self.a + path@[0],
                c == self.spec_cid(path@.take(i as int)),
            decreases n - i,
        {
            proof {
                let q = path@.take(i + 1);
                assert(q.drop_last() =~= path@.take(i as int));
                assert(path@[i as int] == 0);
                assert(self.a == 1);
                assert(self.spec_cid(q) == c * 1 + 0);
            }
            i = i + 1;
        }
        proof {
            assert(path@.take(n as int) =~= path@);
            let l = (n - 1) as nat;
            if self.a == 1 {
                lemma1_pow(l);
            } else if l == 0 {
                lemma_pow0(0);
            } else {
                lemma0_pow(l);
            }
        }
        c
    }

    /// The level of a cid (0 for anything with fewer than three digits).
    pub fn level(&self, cid: Cid) -> (r: u32)
        requires
            self.a >= 2,
        ensures
            r == self.spec_level(cid as int),
            r < 64,
    {
        proof {
            if cid > 0 {
                let n = ndigits(cid as nat, self.a as nat);
                lemma_ndigits_bounds(cid as nat, self.a as nat);
                lemma_pow_base_mono(self.a as nat, (n - 1) as nat);
                lemma_pow2(64);
                lemma2_to64();
                if n > 64 {
                    lemma_pow_increases(2, 64, (n - 1) as nat);
                    assert(false);
                }
            }
        }
        let mut n: u64 = 0;
        let mut x: u64 = cid;
        while x != 0
            invariant
                self.a >= 2,
                ndigits(cid as nat, self.a as nat) == n + ndigits(x as nat, self.a as nat),
                ndigits(cid as nat, self.a as nat) <= 64,
            decreases x,
        {
            proof {
                lemma_ndigits_bounds(x as nat, self.a as nat);
            }
            x = x / self.a as u64;
            n = n + 1;
        }
        if n >= 2 { (n - 2) as u32 } else { 0 }
    }

    /// The digit `j` places above the leaves of a path read from a cid.
    proof fn lemma_spec_path_digits(self, x: int, r: nat)
        requires
            self.valid(),
            x >= 0,
        ensures
            self.spec_path(x, r).len() == r + 1,
            self.spec_path(x, r)[0] == (x / pow(self.a as int, r) - self.a) as u32,
            forall|j: nat| j < r ==> #[trigger] self.spec_path(x, r)[r - j] == ((x / pow(self.a as int, j)) % self.a as int) as u32,
        decreases r,
    {
        let a = self.a as int;
        reveal(pow);
        if r == 0 {
            assert(pow(a, 0) == 1);
        } else {
            lemma_div_pos_is_pos(x, a);
            self.lemma_spec_path_digits(x / a, (r - 1) as nat);
            lemma_pow_succ(a, (r - 1) as nat);
            lemma_pow_pos(a, (r - 1) as nat);
            lemma_div_denominator(x, a, pow(a, (r - 1) as nat));
            assert forall|j: nat| j < r implies #[trigger] self.spec_path(x, r)[r - j] == ((x / pow(a, j)) % a) as u32 by {
                if j == 0 {
                    assert(pow(a, 0) == 1);
                } else {
                    lemma_pow_succ(a, (j - 1) as nat);
                    lemma_pow_pos(a, (j - 1) as nat);
                    lemma_div_denominator(x, a, pow(a, (j - 1) as nat));
                    assert(self.spec_path(x / a, (r - 1) as nat)[(r - 1) - (j - 1)] == ((x / a / pow(a, (j - 1) as nat)) % a) as u32);
                }
            }
        }
    }

    /// Validate a cid (well-formed leading block, a level whose cids all fit in 64 bits, level
    /// bound); returns its level.
    pub fn check(&self, cid: Cid, max_level: Option<u32>) -> (r: Result<u32>)
        requires
            self.valid(),
        ensures
            r is Ok <==> self.is_cid(cid as int) && self.fits(self.spec_level(cid as int))
                && (max_level matches Some(m) ==> self.spec_level(cid as int) <= m),
            max_level is Some && self.fits(max_level->0 as nat)
                ==> (r is Ok <==> self.is_cid(cid as int) && self.spec_level(cid as int) <= max_level->0),
            r matches Ok(l) ==> l == self.spec_level(cid as int) && l < 64,
    {
        if cid < self.a as u64 {
            return invalid("not a cid");
        }
        let r = self.level(cid);
        proof {
            if max_level is Some {
                let m = max_level->0;
                if self.fits(m as nat) && r <= m {
                    self.lemma_fits_mono(r as nat, m as nat);
                }
            }
        }
        proof {
            self.lemma_cid_digits(cid as int);
            lemma_pow_succ(self.a as int, r as nat);
            lemma_pow_pos(self.a as int, r as nat);
            lemma_mul_inequality(1, self.a as int, pow(self.a as int, r as nat));
        }
        let lead = cid / upow(self.a as u64, r);
        if !(self.a as u64 <= lead && lead < self.a as u64 + self.b as u64) {
            return invalid("cid names a base outside the hierarchy");
        }
        let deepest = self.max_level();
        if r > deepest {
            proof {
                if self.fits(r as nat) {
                    self.lemma_fits_mono((deepest + 1) as nat, r as nat);
                }
            }
            return invalid("cid is below the deepest level");
        }
        proof {
            self.lemma_fits_mono(r as nat, deepest as nat);
        }
        match max_level {
            Some(m) => {
                if r > m {
                    return invalid("cid is deeper than the tree");
                }
            },
            None => {},
        }
        Ok(r)
    }

    /// The path `(b, d_1, ..., d_r)` of a cid.
    pub fn path(&self, cid: Cid) -> (r: Result<Vec<u32>>)
        requires
            self.valid(),
        ensures
            r is Ok <==> self.is_cid(cid as int) && self.fits(self.spec_level(cid as int)),
            r matches Ok(p) ==> p@ == self.path_of(cid as int),
    {
        let r = self.check(cid, None)?;
        let n = r as usize + 1;
        let mut digits: Vec<u32> = vec![0u32; n];
        let a = self.a as u64;
        let mut x: u64 = cid;
        let mut j: u32 = 0;
        proof {
            self.lemma_spec_path_digits(cid as int, r as nat);
            reveal(pow);
            assert(pow(a as int, 0) == 1);
        }
        while j < r
            invariant
                self.valid(),
                a == self.a,
                j <= r,
                n == r + 1,
                r == self.spec_level(cid as int),
                digits@.len() == n,
                x == cid as int / pow(a as int, j as nat),
                forall|k: int| n - j <= k < n ==> #[trigger] digits@[k] == self.spec_path(cid as int, r as nat)[k],
                self.spec_path(cid as int, r as nat).len() == r + 1,
                self.spec_path(cid as int, r as nat)[0] == (cid as int / pow(a as int, r as nat) - a) as u32,
                forall|i: nat| i < r ==> #[trigger] self.spec_path(cid as int, r as nat)[r - i] == ((cid as int / pow(a as int, i)) % (a as int)) as u32,
            decreases r - j,
        {
            let idx = (r - j) as usize;
            digits[idx] = (x % a) as u32;
            proof {
                assert(self.spec_path(cid as int, r as nat)[r - j] == ((cid as int / pow(a as int, j as nat)) % (a as int)) as u32);
                lemma_pow_succ(a as int, j as nat);
                lemma_pow_pos(a as int, j as nat);
                lemma_div_denominator(cid as int, pow(a as int, j as nat), a as int);
                lemma_mul_is_commutative(a as int, pow(a as int, j as nat));
            }
            x = x / a;
            j = j + 1;
        }
        proof {
            self.lemma_cid_digits(cid as int);
        }
        digits[0] = (x - a) as u32;
        proof {
            assert(digits@ =~= self.spec_path(cid as int, r as nat));
        }
        Ok(digits)
    }

    /// The parent of a cid, `None` at level 0.
    pub fn parent(&self, cid: Cid) -> (r: Option<Cid>)
        requires
            self.a >= 2,
        ensures
            r is None <==> self.spec_level(cid as int) == 0,
            r matches Some(p) ==> p == cid as int / self.a as int,
    {
        if self.level(cid) == 0 {
            None
        } else {
            Some(cid / self.a as u64)
        }
    }

    /// The `k`-th child of a cid.
    pub fn child(&self, cid: Cid, k: u32) -> (r: Cid)
        requires
            cid * self.a + k < cid_space(),
        ensures
            r == cid * self.a + k,
    {
        proof {
            assert(cid * (self.a as u64) <= cid * self.a + k);
        }
        cid * self.a as u64 + k as u64
    }

    /// The base cell a cid descends from.
    pub fn base(&self, cid: Cid) -> (r: u32)
        requires
            self.valid(),
            cid >= self.a,
        ensures
            r == (self.lead(cid as int) - self.a) as u32,
    {
        let l = self.level(cid);
        proof {
            self.lemma_cid_digits(cid as int);
            lemma_pow_succ(self.a as int, l as nat);
            lemma_pow_pos(self.a as int, l as nat);
            lemma_mul_inequality(1, self.a as int, pow(self.a as int, l as nat));
        }
        (cid / upow(self.a as u64, l) - self.a as u64) as u32
    }

    /// True iff `x` is `y` or a proper ancestor of `y`.
    pub fn is_ancestor(&self, x: Cid, y: Cid) -> (r: bool)
        requires
            self.valid(),
        ensures
            r == self.spec_is_ancestor(x as int, y as int),
    {
        let (la, lb) = (self.level(x), self.level(y));
        if la > lb {
            return false;
        }
        proof {
            let a = self.a as int;
            lemma_pow_pos(a, lb as nat);
            lemma_pow_pos(a, (lb - la) as nat);
            lemma_pow_increases(self.a as nat, (lb - la) as nat, lb as nat);
            if y >= self.a {
                self.lemma_cid_digits(y as int);
                lemma_pow_succ(a, lb as nat);
                lemma_mul_inequality(1, a, pow(a, lb as nat));
            } else {
                if y > 0 {
                    lemma_ndigits_bounds(y as nat, self.a as nat);
                    if ndigits(y as nat, self.a as nat) >= 2 {
                        lemma_pow_succ(a, 0);
                        lemma_pow_increases(self.a as nat, 1, (ndigits(y as nat, self.a as nat) - 1) as nat);
                        reveal(pow);
                        assert(false);
                    }
                }
                reveal(pow);
            }
        }
        y / upow(self.a as u64, lb - la) == x
    }

    /// The contiguous cid range of the descendants `k` levels below `cid`.
    pub fn descendants(&self, cid: Cid, k: u32) -> (r: core::ops::Range<Cid>)
        requires
            self.a >= 2,
            (cid + 1) * pow(self.a as int, k as nat) < cid_space(),
        ensures
            r.start == cid * pow(self.a as int, k as nat),
            r.end == (cid + 1) * pow(self.a as int, k as nat),
    {
        proof {
            lemma_pow_pos(self.a as int, k as nat);
            lemma_mul_inequality(1, cid + 1, pow(self.a as int, k as nat));
            lemma_mul_inequality(cid as int, cid + 1, pow(self.a as int, k as nat));
            let p = pow(self.a as int, k as nat);
            assert(cid + 1 <= (cid + 1) * p) by (nonlinear_arith)
                requires
                    p >= 1,
                    cid >= 0,
            ;
        }
        let span = upow(self.a as u64, k);
        cid * span..(cid + 1) * span
    }
}


/// `String::push`: appends one character.
pub assume_specification[ String::push ](s: &mut String, ch: char)
    ensures
        final(s)@ == old(s)@.push(ch),
;

/// The letter of base cell `b` (`NOPQRS`).
pub open spec fn base_letter(b: u32) -> char {
    (78 + b) as u8 as char
}

/// The base cell a letter names, if it is one of `NOPQRS`.
pub open spec fn letter_base(c: char) -> Option<u32> {
    if 'N' <= c <= 'S' {
        Some((c as u32 - 78) as u32)
    } else {
        None
    }
}

pub open spec fn is_decimal_digit(c: char) -> bool {
    '0' <= c <= '9'
}

/// The path a suid spells: a base letter followed by decimal digits.
pub open spec fn spec_suid_to_path(s: Seq<char>) -> Option<Seq<u32>> {
    if s.len() >= 1 && letter_base(s[0]) is Some && forall|i: int| 1 <= i < s.len() ==> #[trigger] is_decimal_digit(s[i]) {
        Some(seq![letter_base(s[0])->0] + Seq::new((s.len() - 1) as nat, |i: int| (s[i + 1] as u32 - 48) as u32))
    } else {
        None
    }
}

/// The suid of a path: the base letter, then each digit as `'0' + d`.
pub open spec fn spec_path_to_suid(p: Seq<u32>) -> Seq<char> {
    seq![base_letter(p[0])] + Seq::new((p.len() - 1) as nat, |i: int| ((p[i + 1] as u8) + 48) as u8 as char)
}

/// `'Q453'` → `[3, 4, 5, 3]`.
pub fn suid_to_path(suid: &str) -> (r: Result<Vec<u32>>)
    ensures
        r is Ok <==> spec_suid_to_path(suid@) is Some,
        r matches Ok(p) ==> p@ == spec_suid_to_path(suid@)->0,
{
    let n = suid.unicode_len();
    if n == 0 {
        return invalid("empty suid");
    }
    let head = suid.get_char(0);
    if !('N' <= head && head <= 'S') {
        return invalid("unknown base cell");
    }
    let mut path: Vec<u32> = Vec::new();
    path.push(head as u32 - 78);
    let mut i: usize = 1;
    while i < n
        invariant
            n == suid@.len(),
            1 <= i <= n,
            path@.len() == i,
            path@[0] == letter_base(suid@[0])->0,
            letter_base(suid@[0]) is Some,
            forall|j: int| 1 <= j < i ==> #[trigger] is_decimal_digit(suid@[j]),
            forall|j: int| 1 <= j < i ==> path@[j] == (suid@[j] as u32 - 48) as u32,
        decreases n - i,
    {
        let c = suid.get_char(i);
        if !('0' <= c && c <= '9') {
            assert(!is_decimal_digit(suid@[i as int]));
            return invalid("bad suid digit");
        }
        path.push(c as u32 - 48);
        i = i + 1;
    }
    assert(path@ =~= spec_suid_to_path(suid@)->0);
    Ok(path)
}

/// `[3, 4, 5, 3]` → `'Q453'`.
pub fn path_to_suid(path: &[u32]) -> (r: String)
    requires
        path@.len() >= 1,
        path@[0] < 6,
        forall|i: int| 1 <= i < path@.len() ==> (#[trigger] path@[i] as u8) <= 207,
    ensures
        r@ == spec_path_to_suid(path@),
{
    let mut s = String::new();
    s.push(BASE_LETTERS[path[0] as usize] as char);
    let n = path.len();
    let mut i: usize = 1;
    while i < n
        invariant
            n == path@.len(),
            1 <= i <= n,
            path@[0] < 6,
            forall|j: int| 1 <= j < path@.len() ==> (#[trigger] path@[j] as u8) <= 207,
            s@ == spec_path_to_suid(path@.take(i as int)),
        decreases n - i,
    {
        let d = path[i] as u8;
        s.push((48 + d) as char);
        assert(s@ =~= spec_path_to_suid(path@.take(i + 1)));
        i = i + 1;
    }
    assert(path@.take(n as int) =~= path@);
    s
}

/// The cid of an rHEALPix suid.
pub fn suid_to_cid(suid: &str) -> (r: Result<Cid>)
    ensures
        r is Ok <==> (spec_suid_to_path(suid@) matches Some(p) && space_h().valid_path(p) && space_h().fits((p.len() - 1) as nat)),
        r matches Ok(c) ==> c == space_h().spec_cid(spec_suid_to_path(suid@)->0),
{
    let path = suid_to_path(suid)?;
    space().cid(path.as_slice())
}

/// The suid of an rHEALPix cid.
pub fn cid_to_suid(cid: Cid) -> (r: Result<String>)
    ensures
        r is Ok <==> space_h().is_cid(cid as int) && space_h().fits(space_h().spec_level(cid as int)),
        r matches Ok(s) ==> s@ == spec_path_to_suid(space_h().path_of(cid as int)),
{
    let h = space();
    let path = h.path(cid)?;
    proof {
        h.lemma_path_cid(cid as int);
    }
    Ok(path_to_suid(path.as_slice()))
}


/// A suid has one spelling: the suid of the cid a suid names is that suid.
pub proof fn lemma_suid_round_trip(s: Seq<char>)
    requires
        spec_suid_to_path(s) matches Some(p) && space_h().valid_path(p) && space_h().fits((p.len() - 1) as nat),
    ensures
        space_h().is_cid(space_h().spec_cid(spec_suid_to_path(s)->0)),
        spec_path_to_suid(space_h().path_of(space_h().spec_cid(spec_suid_to_path(s)->0))) == s,
{
    let h = space_h();
    let p = spec_suid_to_path(s)->0;
    h.lemma_cid_path(p);
    let t = spec_path_to_suid(p);
    assert(t.len() == s.len());
    assert forall|i: int| 0 <= i < s.len() implies #[trigger] t[i] == s[i] by {
        if i >= 1 {
            assert(is_decimal_digit(s[i]));
            assert(p[i] < 9);
        }
    }
    assert(t =~= s);
}

/// The suid of a cid names that cid: a cid at a level whose cids fit in 64 bits reads back from
/// its suid.
pub proof fn lemma_cid_round_trip(c: int)
    requires
        space_h().is_cid(c),
        space_h().fits(space_h().spec_level(c)),
    ensures
        spec_suid_to_path(spec_path_to_suid(space_h().path_of(c))) == Some(space_h().path_of(c)),
        space_h().valid_path(space_h().path_of(c)),
        space_h().fits((space_h().path_of(c).len() - 1) as nat),
        space_h().spec_cid(space_h().path_of(c)) == c,
{
    let h = space_h();
    h.lemma_path_cid(c);
    let p = h.path_of(c);
    let s = spec_path_to_suid(p);
    assert(letter_base(s[0]) == Some(p[0]));
    assert forall|i: int| 1 <= i < s.len() implies #[trigger] is_decimal_digit(s[i]) by {
        assert(p[i] < 9);
    }
    let q = spec_suid_to_path(s)->0;
    assert forall|i: int| 0 <= i < p.len() implies #[trigger] q[i] == p[i] by {
        if i >= 1 {
            assert(p[i] < 9);
        }
    }
    assert(q =~= p);
}

/// The first `r - k + 1` entries of the path read at level `r` are the path of `x / A^k`.
proof fn lemma_spec_path_take(h: Hierarchy, x: int, r: nat, k: nat)
    requires
        h.valid(),
        x >= 0,
        k <= r,
    ensures
        h.spec_path(x, r).take(r - k + 1 as int) == h.spec_path(x / pow(h.a as int, k), (r - k) as nat),
    decreases k,
{
    let a = h.a as int;
    if k == 0 {
        reveal(pow);
        assert(h.spec_path(x, r).len() == r + 1) by {
            h.lemma_spec_path_len(x, r);
        }
        assert(h.spec_path(x, r).take(r + 1 as int) =~= h.spec_path(x, r));
    } else {
        lemma_div_pos_is_pos(x, a);
        lemma_spec_path_take(h, x / a, (r - 1) as nat, (k - 1) as nat);
        lemma_pow_succ(a, (k - 1) as nat);
        lemma_pow_pos(a, (k - 1) as nat);
        lemma_div_denominator(x, a, pow(a, (k - 1) as nat));
        h.lemma_spec_path_len(x / a, (r - 1) as nat);
        assert(h.spec_path(x, r).take(r - k + 1) =~= h.spec_path(x / a, (r - 1) as nat).take(r - k + 1));
    }
}

impl Hierarchy {
    /// The path read at level `r` has `r + 1` entries.
    pub proof fn lemma_spec_path_len(self, x: int, r: nat)
        ensures
            self.spec_path(x, r).len() == r + 1,
        decreases r,
    {
        if r > 0 {
            self.lemma_spec_path_len(x / self.a as int, (r - 1) as nat);
        }
    }

    /// The parent of a cid below the base level: a cid one level up whose path is the cid's
    /// without its last digit.
    pub proof fn lemma_parent_path(self, c: int)
        requires
            self.valid(),
            self.is_cid(c),
            self.spec_level(c) >= 1,
        ensures
            self.is_cid(c / self.a as int),
            self.spec_level(c / self.a as int) == self.spec_level(c) - 1,
            self.path_of(c / self.a as int) == self.path_of(c).drop_last(),
    {
        let a = self.a as int;
        let r = self.spec_level(c);
        self.lemma_cid_digits(c);
        lemma_div_pos_is_pos(c, a);
        lemma_ndigits_bounds(c as nat, a as nat);
        assert(ndigits(c as nat, a as nat) == 1 + ndigits((c / a) as nat, a as nat));
        lemma_pow_succ(a, (r - 1) as nat);
        lemma_pow_pos(a, (r - 1) as nat);
        lemma_div_denominator(c, a, pow(a, (r - 1) as nat));
        lemma_mul_is_commutative(a, pow(a, (r - 1) as nat));
        assert(self.spec_path(c, r).drop_last() =~= self.spec_path(c / a, (r - 1) as nat));
    }

    /// An ancestor's path is a prefix of its descendant's.
    pub proof fn lemma_ancestor_path(self, c: int, x: int)
        requires
            self.valid(),
            self.is_cid(c),
            self.is_cid(x),
            self.spec_is_ancestor(c, x),
        ensures
            self.spec_level(c) <= self.spec_level(x),
            self.path_of(x).take(self.spec_level(c) + 1 as int) == self.path_of(c),
    {
        let (lc, lx) = (self.spec_level(c), self.spec_level(x));
        lemma_spec_path_take(self, x, lx, (lx - lc) as nat);
    }

    /// Cutting `k` digits off a cid at level `k` or deeper gives its ancestor `k` levels up.
    pub proof fn lemma_ancestor_up(self, x: int, k: nat)
        requires
            self.valid(),
            self.is_cid(x),
            k <= self.spec_level(x),
        ensures
            self.is_cid(x / pow(self.a as int, k)),
            self.spec_level(x / pow(self.a as int, k)) == self.spec_level(x) - k,
            self.spec_is_ancestor(x / pow(self.a as int, k), x),
        decreases k,
    {
        let a = self.a as int;
        if k == 0 {
            reveal(pow);
            assert(pow(a, 0) == 1);
            assert(x / 1 == x);
        } else {
            self.lemma_ancestor_up(x, (k - 1) as nat);
            let y = x / pow(a, (k - 1) as nat);
            self.lemma_parent_path(y);
            lemma_pow_succ(a, (k - 1) as nat);
            lemma_pow_pos(a, (k - 1) as nat);
            lemma_div_denominator(x, pow(a, (k - 1) as nat), a);
            lemma_mul_is_commutative(a, pow(a, (k - 1) as nat));
        }
    }

    /// Lying under is transitive.
    pub proof fn lemma_ancestor_trans(self, c1: int, c2: int, x: int)
        requires
            self.valid(),
            self.spec_is_ancestor(c1, c2),
            self.spec_is_ancestor(c2, x),
            x >= 0,
        ensures
            self.spec_is_ancestor(c1, x),
    {
        let a = self.a as int;
        let (l1, l2, lx) = (self.spec_level(c1), self.spec_level(c2), self.spec_level(x));
        lemma_pow_pos(a, (lx - l2) as nat);
        lemma_pow_pos(a, (l2 - l1) as nat);
        lemma_div_denominator(x, pow(a, (lx - l2) as nat), pow(a, (l2 - l1) as nat));
        lemma_pow_adds(a, (lx - l2) as nat, (l2 - l1) as nat);
        assert((lx - l2) as nat + (l2 - l1) as nat == (lx - l1) as nat);
    }

    /// Of two cells over one cid, the coarser lies over the finer.
    pub proof fn lemma_ancestors_nest(self, c1: int, c2: int, x: int)
        requires
            self.valid(),
            self.is_cid(c2),
            self.spec_is_ancestor(c1, x),
            self.spec_is_ancestor(c2, x),
            self.spec_level(c1) <= self.spec_level(c2),
            x >= 0,
        ensures
            self.spec_is_ancestor(c1, c2),
    {
        let a = self.a as int;
        let (l1, l2, lx) = (self.spec_level(c1), self.spec_level(c2), self.spec_level(x));
        lemma_pow_pos(a, (lx - l2) as nat);
        lemma_pow_pos(a, (l2 - l1) as nat);
        lemma_div_denominator(x, pow(a, (lx - l2) as nat), pow(a, (l2 - l1) as nat));
        lemma_pow_adds(a, (lx - l2) as nat, (l2 - l1) as nat);
        assert((lx - l2) as nat + (l2 - l1) as nat == (lx - l1) as nat);
    }

    /// The `k`-th child of a cell is `a * c + k`: one level down, under the cell, with the cell's
    /// path and `k` after it; and its parent is the cell again.
    pub proof fn lemma_parent_child(self, c: int, k: int)
        requires
            self.valid(),
            self.is_cid(c),
            0 <= k < self.a,
        ensures
            self.is_cid(self.a * c + k),
            self.spec_level(self.a * c + k) == self.spec_level(c) + 1,
            (self.a * c + k) / (self.a as int) == c,
            self.spec_is_ancestor(c, self.a * c + k),
            self.path_of(self.a * c + k) == self.path_of(c).push(k as u32),
    {
        let a = self.a as int;
        let x = a * c + k;
        lemma_pow1(a);
        assert(c * pow(a, 1) + k == x) by (nonlinear_arith)
            requires
                pow(a, 1) == a,
                x == a * c + k,
        ;
        self.lemma_below(c, 1, k);
        assert(x == c * a + k) by (nonlinear_arith)
            requires
                x == a * c + k,
        ;
        lemma_fundamental_div_mod_converse(x, a, c, k);
        self.lemma_parent_path(x);
        let r = self.spec_level(x);
        assert(self.path_of(x) == self.spec_path(x / a, (r - 1) as nat).push((x % a) as u32));
        self.lemma_spec_path_len(x, r);
        assert(self.path_of(x) =~= self.path_of(x).drop_last().push(k as u32));
    }

    /// The `v`-th cid `k` levels below a cid lies under it.
    pub proof fn lemma_below(self, c: int, k: nat, v: int)
        requires
            self.valid(),
            self.is_cid(c),
            0 <= v < pow(self.a as int, k),
        ensures
            self.is_cid(c * pow(self.a as int, k) + v),
            self.spec_level(c * pow(self.a as int, k) + v) == self.spec_level(c) + k,
            self.spec_is_ancestor(c, c * pow(self.a as int, k) + v),
    {
        let a = self.a as int;
        let l = self.spec_level(c);
        self.lemma_leaf_split(c);
        let lead = self.lead(c);
        let off = c % pow(a, l);
        let w = pow(a, k);
        lemma_pow_pos(a, k);
        lemma_pow_pos(a, l);
        lemma_pow_adds(a, l, k);
        assert(c * w + v == lead * pow(a, l + k) + (off * w + v)) by (nonlinear_arith)
            requires
                c == lead * pow(a, l) + off,
                pow(a, l + k) == pow(a, l) * w,
        ;
        assert(off * w + v < pow(a, l + k)) by (nonlinear_arith)
            requires
                0 <= off < pow(a, l),
                0 <= v < w,
                pow(a, l + k) == pow(a, l) * w,
        ;
        assert(0 <= off * w) by (nonlinear_arith)
            requires
                0 <= off,
                w >= 1,
        ;
        self.lemma_block_leaf(lead, l + k, off * w + v);
        assert(c * w <= c * w + v < (c + 1) * w) by (nonlinear_arith)
            requires
                0 <= v < w,
        ;
        lemma_div_in_block(c * w + v, c, w);
    }
}

/// A cid at level `r` is at least `A^r`, and below `2^64`.
pub proof fn lemma_pow_le_cid(h: Hierarchy, c: int)
    requires
        h.valid(),
        h.is_cid(c),
        c < cid_space(),
    ensures
        pow(h.a as int, h.spec_level(c)) < cid_space(),
{
    h.lemma_cid_digits(c);
    lemma_pow_succ(h.a as int, h.spec_level(c));
    lemma_pow_pos(h.a as int, h.spec_level(c));
    lemma_mul_inequality(1, h.a as int, pow(h.a as int, h.spec_level(c)));
}

/// The value of a digit string in base `a`, most significant first.
pub open spec fn digits_val(ds: Seq<u32>, a: nat) -> int
    decreases ds.len(),
{
    if ds.len() == 0 {
        0
    } else {
        digits_val(ds.drop_last(), a) * a + ds.last()
    }
}

/// Digits below `a` make a value below `a^len`.
pub proof fn lemma_digits_val_bound(ds: Seq<u32>, a: nat)
    requires
        a >= 1,
        forall|i: int| 0 <= i < ds.len() ==> #[trigger] ds[i] < a,
    ensures
        0 <= digits_val(ds, a) < pow(a as int, ds.len()),
    decreases ds.len(),
{
    reveal(pow);
    if ds.len() > 0 {
        let q = ds.drop_last();
        lemma_digits_val_bound(q, a);
        lemma_pow_succ(a as int, q.len());
        lemma_mul_inequality(digits_val(q, a) + 1, pow(a as int, q.len()), a as int);
        lemma_mul_is_distributive_add_other_way(a as int, digits_val(q, a), 1);
        lemma_mul_is_commutative(a as int, digits_val(q, a));
        lemma_mul_is_commutative(a as int, pow(a as int, q.len()));
        lemma_mul_nonnegative(digits_val(q, a), a as int);
    }
}

/// The value of a digit string is its first digit's place plus the value of the rest.
pub proof fn lemma_digits_val_front(ds: Seq<u32>, a: nat)
    requires
        ds.len() >= 1,
    ensures
        digits_val(ds, a) == ds[0] * pow(a as int, (ds.len() - 1) as nat) + digits_val(ds.drop_first(), a),
    decreases ds.len(),
{
    reveal(pow);
    if ds.len() == 1 {
        assert(ds.drop_first().len() == 0);
        assert(ds.drop_last().len() == 0);
        assert(digits_val(ds.drop_last(), a) == 0);
        assert(digits_val(ds.drop_first(), a) == 0);
        assert(pow(a as int, 0) == 1);
        assert(digits_val(ds, a) == 0 * a + ds.last());
    } else {
        let q = ds.drop_last();
        lemma_digits_val_front(q, a);
        let t = ds.drop_first();
        assert(t.drop_last() =~= q.drop_first());
        assert(t.last() == ds.last());
        lemma_pow_succ(a as int, (q.len() - 1) as nat);
        let p = pow(a as int, (q.len() - 1) as nat);
        let v = digits_val(q.drop_first(), a);
        let l = ds.last() as int;
        let d0 = ds[0] as int;
        assert((d0 * p + v) * a + l == d0 * (p * a) + (v * a + l)) by (nonlinear_arith);
        assert(pow(a as int, (ds.len() - 1) as nat) == p * a);
        assert(digits_val(t, a) == v * a + l);
        assert(digits_val(ds, a) == digits_val(q, a) * a + l);
        assert(q[0] == ds[0]);
    }
}

} // verus!
