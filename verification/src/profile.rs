//! The profile: every parameter a cell identifier and a root are read against, stored as
//! integers so that its identity is reproducible in any language with no float formatting.
//!
//! ```text
//! id = SHA-256( "BURIN-PROFILE-1" ‖ u8 len(hash) ‖ hash ‖ u32 A ‖ u32 B ‖ i64 lon_0_udeg
//!               ‖ u8 north_square ‖ u8 south_square ‖ u64 a_um ‖ u64 inv_f_nano
//!               ‖ u64 tick_us ‖ i64 epoch_us )          all big-endian
//! ```
//! The id is derived, never transmitted: a wire record carries the parameters and the receiver
//! recomputes it, so a record and its identity cannot drift apart.

use vstd::prelude::*;
use crate::error::{invalid, Error, Result};
use crate::hash::{hasher_for, hex, sha256, sha256_id, spec_hex, spec_sha256, Ctx, Digest, Sha256Tagged};
use crate::hierarchy::Hierarchy;
use crate::zone::{is_sqrt, spec_side};

verus! {

/// Degrees to micro-degrees.
pub const LON_SCALE: i64 = 1000000;

/// Metres to micro-metres.
pub const AXIS_SCALE: u64 = 1000000;

/// `1/f` to nano.
pub const INVF_SCALE: u64 = 1000000000;

/// The domain tag the profile id is hashed under: `BURIN-PROFILE-1`.
pub const PROFILE_TAG: [u8; 15] = [66u8, 85u8, 82u8, 73u8, 78u8, 45u8, 80u8, 82u8, 79u8, 70u8, 73u8, 76u8, 69u8, 45u8, 49u8];

/// Every parameter a cell identifier and a root are read against.
#[derive(Debug, PartialEq, Eq, Hash)]
pub struct Profile {
    pub hash: String,
    pub aperture: u32,
    pub n_base: u32,
    pub lon_0_udeg: i64,
    pub north_square: u8,
    pub south_square: u8,
    pub a_um: u64,
    pub inv_f_nano: u64,
    pub tick_us: u64,
    pub epoch_us: i64,
}

/// The grid parameters of a profile: all but the hash and the time convention.
pub open spec fn grid_params(p: Profile) -> (u32, u32, i64, u8, u8, u64, u64) {
    (p.aperture, p.n_base, p.lon_0_udeg, p.north_square, p.south_square, p.a_um, p.inv_f_nano)
}

/// The OGC API-DGGS Annex B rHEALPix DGGRS: WGS84, `lon_0 = 50`, `N_side = 3`.
pub open spec fn ogc_params() -> (u32, u32, i64, u8, u8, u64, u64) {
    (9, 6, 50000000, 0, 0, 6378137000000, 298257223563)
}

/// A profile's parameters are usable: a hierarchy, a known hash, a longitude in `[-180, 180]`
/// degrees, polar squares in `0..=3`, a positive ellipsoid, a positive tick, a square aperture.
pub open spec fn spec_valid(p: Profile) -> bool {
    &&& (Hierarchy { a: p.aperture, b: p.n_base }).buildable()
    &&& p.hash@ == sha256_id()
    &&& -180 * LON_SCALE <= p.lon_0_udeg <= 180 * LON_SCALE
    &&& p.north_square <= 3 && p.south_square <= 3
    &&& p.a_um > 0 && p.inv_f_nano > 0
    &&& p.tick_us >= 1
    &&& spec_side(p.aperture as nat) is Some
}

/// `x` as `k` big-endian bytes.
pub open spec fn be_bytes(x: nat, k: nat) -> Seq<u8>
    decreases k,
{
    if k == 0 {
        Seq::empty()
    } else {
        be_bytes(x / 256, (k - 1) as nat).push((x % 256) as u8)
    }
}

/// The canonical bytes the id is the SHA-256 of.
pub open spec fn spec_id_preimage(p: Profile) -> Seq<u8> {
    PROFILE_TAG@ + seq![vstd::utf8::encode_utf8(p.hash@).len() as u8] + vstd::utf8::encode_utf8(p.hash@) + be_bytes(p.aperture as nat, 4) + be_bytes(p.n_base as nat, 4)
        + be_bytes((p.lon_0_udeg as u64) as nat, 8) + seq![p.north_square, p.south_square] + be_bytes(p.a_um as nat, 8)
        + be_bytes(p.inv_f_nano as nat, 8) + be_bytes(p.tick_us as nat, 8) + be_bytes((p.epoch_us as u64) as nat, 8)
}

/// Append `x` as `k` big-endian bytes.
fn push_be(v: &mut Vec<u8>, x: u64, k: u32)
    requires
        k <= 8,
    ensures
        final(v)@ == old(v)@ + be_bytes(x as nat, k as nat),
    decreases k,
{
    if k > 0 {
        push_be(v, x / 256, k - 1);
        v.push((x % 256) as u8);
    }
}

impl Clone for Profile {
    fn clone(&self) -> (r: Profile)
        ensures
            r.hash@ == self.hash@,
            grid_params(r) == grid_params(*self),
            r.tick_us == self.tick_us,
            r.epoch_us == self.epoch_us,
    {
        Profile {
            hash: self.hash.clone(),
            aperture: self.aperture,
            n_base: self.n_base,
            lon_0_udeg: self.lon_0_udeg,
            north_square: self.north_square,
            south_square: self.south_square,
            a_um: self.a_um,
            inv_f_nano: self.inv_f_nano,
            tick_us: self.tick_us,
            epoch_us: self.epoch_us,
        }
    }
}

/// The OGC rHEALPix parameters with an empty hash id: name a hash with `with_hash` (or take
/// `Profile::ogc()`) to obtain a usable profile.
pub fn ogc_rhealpix() -> (r: Profile)
    ensures
        r.hash@.len() == 0,
        grid_params(r) == ogc_params(),
        r.tick_us == 1,
        r.epoch_us == 0,
{
    Profile {
        hash: String::new(),
        aperture: 9,
        n_base: 6,
        lon_0_udeg: 50000000,
        north_square: 0,
        south_square: 0,
        a_um: 6378137000000,
        inv_f_nano: 298257223563,
        tick_us: 1,
        epoch_us: 0,
    }
}

/// rHEALPix with a 0° prime meridian, with an empty hash id.
pub fn burin_1() -> (r: Profile)
    ensures
        r.hash@.len() == 0,
        grid_params(r) == (9u32, 6u32, 0i64, 0u8, 0u8, 6378137000000u64, 298257223563u64),
        r.tick_us == 1,
        r.epoch_us == 0,
{
    Profile {
        hash: String::new(),
        aperture: 9,
        n_base: 6,
        lon_0_udeg: 0,
        north_square: 0,
        south_square: 0,
        a_um: 6378137000000,
        inv_f_nano: 298257223563,
        tick_us: 1,
        epoch_us: 0,
    }
}

impl Default for Profile {
    /// The OGC rHEALPix profile under SHA-256.
    fn default() -> (r: Profile)
        ensures
            r.hash@ == sha256_id(),
            grid_params(r) == ogc_params(),
            r.tick_us == 1,
            r.epoch_us == 0,
    {
        proof {
            reveal_strlit("sha256");
            assert("sha256"@ =~= sha256_id());
        }
        ogc_rhealpix().with_hash("sha256")
    }
}

/// The largest `n` with `n² <= a`.
pub fn isqrt(a: u32) -> (r: u32)
    ensures
        r * r <= a < (r + 1) * (r + 1),
{
    let a = a as u64;
    let mut lo: u64 = 0;
    let mut hi: u64 = 65536;
    while lo + 1 < hi
        invariant
            lo < hi <= 65536,
            lo * lo <= a,
            hi * hi > a,
        decreases hi - lo,
    {
        let mid = lo + (hi - lo) / 2;
        proof {
            assert(mid * mid <= 65536 * 65536) by (nonlinear_arith)
                requires
                    mid <= 65536,
            ;
        }
        if mid * mid <= a {
            lo = mid;
        } else {
            hi = mid;
        }
    }
    lo as u32
}

impl Profile {
    /// The same parameters under a named hash.
    pub fn with_hash(&self, hash: &str) -> (r: Profile)
        ensures
            r.hash@ == hash@,
            grid_params(r) == grid_params(*self),
            r.tick_us == self.tick_us,
            r.epoch_us == self.epoch_us,
    {
        let mut p = self.clone();
        p.hash = hash.to_string();
        p
    }

    /// The OGC rHEALPix profile under SHA-256: the default.
    pub fn ogc() -> (r: Profile)
        ensures
            r.hash@ == sha256_id(),
            grid_params(r) == ogc_params(),
            r.tick_us == 1,
            r.epoch_us == 0,
    {
        Profile::default()
    }

    /// rHEALPix with a 0° prime meridian under SHA-256.
    pub fn burin_1() -> (r: Profile)
        ensures
            r.hash@ == sha256_id(),
            grid_params(r) == (9u32, 6u32, 0i64, 0u8, 0u8, 6378137000000u64, 298257223563u64),
            r.tick_us == 1,
            r.epoch_us == 0,
    {
        proof {
            reveal_strlit("sha256");
            assert("sha256"@ =~= sha256_id());
        }
        burin_1().with_hash("sha256")
    }

    /// Refuse parameters no grid or hash can be built from.
    pub fn validate(&self) -> (r: Result<()>)
        ensures
            r is Ok <==> spec_valid(*self),
    {
        Hierarchy::new(self.aperture, self.n_base)?;
        if hasher_for(self.hash.as_str()).is_none() {
            return invalid("unknown hash id");
        }
        if self.lon_0_udeg < -180 * LON_SCALE || self.lon_0_udeg > 180 * LON_SCALE {
            return invalid("lon_0 outside [-180, 180] degrees");
        }
        if self.north_square > 3 || self.south_square > 3 {
            return invalid("north_square/south_square must be in 0..3");
        }
        if self.a_um == 0 || self.inv_f_nano == 0 {
            return invalid("ellipsoid a and inv_f must be positive");
        }
        if self.tick_us == 0 {
            return invalid("tick_us must be >= 1");
        }
        let n = self.n_side();
        if n as u64 * n as u64 != self.aperture as u64 {
            proof {
                if exists|m: nat| #[trigger] is_sqrt(m, self.aperture as nat) {
                    let m = choose|m: nat| #[trigger] is_sqrt(m, self.aperture as nat);
                    if m < n {
                        assert(m * m < n * n) by (nonlinear_arith)
                            requires
                                m < n,
                        ;
                    } else if m > n {
                        assert(m * m >= (n + 1) * (n + 1)) by (nonlinear_arith)
                            requires
                                m >= n + 1,
                        ;
                    }
                }
            }
            return invalid("aperture is not a square; no rHEALPix N_side");
        }
        proof {
            assert(is_sqrt(n as nat, self.aperture as nat));
        }
        Ok(())
    }

    /// `N_side`: the largest `n` with `n² <= A`, the side of a square aperture.
    pub fn n_side(&self) -> (r: u32)
        ensures
            r * r <= self.aperture < (r + 1) * (r + 1),
    {
        isqrt(self.aperture)
    }

    pub fn hierarchy(&self) -> (r: Hierarchy)
        ensures
            r == (Hierarchy { a: self.aperture, b: self.n_base }),
    {
        Hierarchy { a: self.aperture, b: self.n_base }
    }

    /// A hashing context for trees of depth `d_max` under this profile.
    pub fn ctx(&self, d_max: u32) -> (r: Result<Ctx>)
        ensures
            r is Ok <==> spec_valid(*self),
            r matches Ok(c) ==> c.wf() && c.a == self.aperture && c.b == self.n_base && c.depth() == d_max,
    {
        self.validate()?;
        Ok(Ctx::new(Sha256Tagged, self.aperture, self.n_base, d_max))
    }

    /// The canonical bytes the id is the SHA-256 of.
    pub fn id_preimage(&self) -> (r: Vec<u8>)
        ensures
            r@ == spec_id_preimage(*self),
    {
        let mut v: Vec<u8> = Vec::new();
        v.extend_from_slice(PROFILE_TAG.as_slice());
        let hb = self.hash.as_str().as_bytes();
        v.push(hb.len() as u8);
        v.extend_from_slice(hb);
        push_be(&mut v, self.aperture as u64, 4);
        push_be(&mut v, self.n_base as u64, 4);
        push_be(&mut v, self.lon_0_udeg as u64, 8);
        v.push(self.north_square);
        v.push(self.south_square);
        push_be(&mut v, self.a_um, 8);
        push_be(&mut v, self.inv_f_nano, 8);
        push_be(&mut v, self.tick_us, 8);
        push_be(&mut v, self.epoch_us as u64, 8);
        v
    }

    /// The profile identity: the SHA-256 of its canonical bytes.
    pub fn id(&self) -> (r: Digest)
        ensures
            r@ == spec_sha256(spec_id_preimage(*self)),
    {
        let pre = self.id_preimage();
        sha256(pre.as_slice())
    }

    pub fn id_hex(&self) -> (r: String)
        ensures
            r@ == spec_hex(spec_sha256(spec_id_preimage(*self))),
    {
        hex(&self.id())
    }
}

} // verus!
