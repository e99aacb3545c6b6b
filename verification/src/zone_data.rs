//! Zone data (the OGC API - DGGS "DGGS-JSON" form) for coverages: one field at one relative
//! depth over the sub-zones of one zone, listed in the DGGRS's sub-zone order (scanline for
//! rHEALPix).
//!
//! ```text
//! {"dggrs": uri, "zoneId": "Q4", "depths": [k],
//!  "values": {field: [{"depth": k, "shape": {"count": 9^k, "subZones": 9^k}, "data": [...]}]}}
//! ```
//! Writing puts 1 at each covered sub-zone and null elsewhere. Reading takes one field and one
//! depth and covers the sub-zones whose value is present (non-null, or non-zero if asked). A
//! document read against a profile whose grid is not the DGGRS it names is refused. The JSON text
//! itself is read into and written from the plain values below by the caller.

use vstd::prelude::*;
use vstd::arithmetic::power::*;
use std::sync::Arc;
use crate::error::{invalid, Error, Result};
use crate::hash::str_is;
use crate::hierarchy::{cid_space, cid_to_suid, space, space_h, spec_path_to_suid, spec_suid_to_path, suid_to_cid, upow, Cid, Hierarchy};
use crate::profile::{grid_params, ogc_params, ogc_rhealpix, spec_valid, Profile};
use crate::tree::Tree;
use crate::zone::{is_sqrt, spec_cell_at, spec_position, spec_side, subzone_at, MAX_RASTER_CELLS};

verus! {

/// The OGC-registered rHEALPix DGGRS.
pub const RHEALPIX_DGGRS: &'static str = "https://www.opengis.net/def/dggrs/OGC/1.0/rHEALPix";

/// Which values mark a sub-zone as covered when reading zone data.
#[derive(Debug, Clone, Copy, PartialEq, Eq, Structural)]
pub enum Presence {
    /// Any value that is not null.
    NonNull,
    /// Any value that is neither null nor zero.
    NonZero,
}

/// One value of a field, as far as coverage reads it.
#[derive(Debug, Clone, Copy, PartialEq, Eq, Structural)]
pub enum Datum {
    Null,
    /// A number, and whether it is zero.
    Number { zero: bool },
    /// Anything else (a string, a boolean, an array, an object).
    Other,
}

/// The values of one field at one depth.
pub struct DepthEntry {
    /// The entry's own depth, when it names one.
    pub depth: Option<u64>,
    /// `shape.count`, when present.
    pub shape_count: Option<u64>,
    /// `shape.subZones`, when present.
    pub shape_sub_zones: Option<u64>,
    /// `data`, when it is an array.
    pub data: Option<Vec<Datum>>,
}

/// A named field and its entries (`None` when they are not an array).
pub struct FieldValues {
    pub name: String,
    pub entries: Option<Vec<DepthEntry>>,
}

/// A zone-data document, as far as coverage reads it.
pub struct ZoneDoc {
    /// `dggrs`, when it is a string.
    pub dggrs: Option<String>,
    /// `dimensions` is a non-empty array.
    pub has_dimensions: bool,
    /// `zoneId`, when it is a string.
    pub zone_id: Option<String>,
    /// `values`, when it is an object.
    pub fields: Option<Vec<FieldValues>>,
    /// The document's `depths` that are unsigned integers.
    pub depths: Vec<u64>,
}

/// The coverage of a tree over the sub-zones of one zone: what a DGGS-JSON document of it holds.
pub struct ZoneCoverage {
    pub dggrs: &'static str,
    pub zone_id: String,
    pub depth: u32,
    pub count: u64,
    /// One flag per sub-zone in scanline order: covered or not.
    pub covered: Vec<bool>,
}

/// A value marks its sub-zone as covered.
pub open spec fn present(v: Datum, p: Presence) -> bool {
    match v {
        Datum::Null => false,
        Datum::Number { zero } => p == Presence::NonNull || !zero,
        Datum::Other => false,
    }
}

/// The `i`-th sub-zone, `k` levels below `zone`, in scanline order.
pub open spec fn sub_cell(zone: int, k: nat, i: int) -> int {
    let h = space_h();
    let pz = spec_position(h, zone, 3);
    let w = pow(3, k);
    spec_cell_at(h, pz.base, (pz.level + k) as u32, pz.row * w + i / w, pz.col * w + i % w, 3)
}

/// The depth of an entry: its own, or the document's when it lists exactly one.
pub open spec fn depth_of(e: DepthEntry, depths: Seq<u64>) -> Option<u64> {
    if e.depth is Some {
        e.depth
    } else if depths.len() == 1 {
        Some(depths[0])
    } else {
        None
    }
}

/// `j` is the field that `want` picks: the first of that name, or the only one.
pub open spec fn picks_field(fields: Seq<FieldValues>, want: Option<Seq<char>>, j: int) -> bool {
    match want {
        Some(w) => 0 <= j < fields.len() && fields[j].name@ == w && forall|i: int| 0 <= i < j ==> #[trigger] fields[i].name@ != w,
        None => fields.len() == 1 && j == 0,
    }
}

/// `j` is the entry that `want` picks: the first of that depth, or the only one.
pub open spec fn picks_entry(entries: Seq<DepthEntry>, depths: Seq<u64>, want: Option<u32>, j: int) -> bool {
    match want {
        Some(k) => 0 <= j < entries.len() && depth_of(entries[j], depths) == Some(k as u64)
            && forall|i: int| 0 <= i < j ==> depth_of(#[trigger] entries[i], depths) != Some(k as u64),
        None => entries.len() == 1 && j == 0,
    }
}

/// The entry a document reads as, with everything that reading it checks: a depth whose
/// sub-zones are few enough, a shape that agrees, one number or null per sub-zone.
pub open spec fn entry_readable(e: DepthEntry, depths: Seq<u64>) -> bool {
    let k = depth_of(e, depths)->0 as nat;
    &&& depth_of(e, depths)->0 <= u32::MAX
    &&& pow(9, k) <= MAX_RASTER_CELLS
    &&& (e.shape_sub_zones matches Some(s) ==> s == pow(9, k))
    &&& (e.shape_count matches Some(c) ==> c == pow(9, k))
    &&& e.data is Some
    &&& e.data->0@.len() == pow(9, k)
    &&& forall|i: int| 0 <= i < e.data->0@.len() ==> !(#[trigger] e.data->0@[i] is Other)
}

/// `spec_side(9) == 3`.
proof fn lemma_side_nine()
    ensures
        spec_side(9) == Some(3nat),
{
    assert(is_sqrt(3, 9));
    let n = spec_side(9)->0;
    assert(is_sqrt(n, 9));
    if n < 3 {
        assert(n * n <= 4) by (nonlinear_arith)
            requires
                n < 3,
        ;
    } else if n > 3 {
        assert(n * n >= 16) by (nonlinear_arith)
            requires
                n >= 4,
        ;
    }
}

/// The registered DGGRS whose zones this profile's cells are, if there is one. The hash and the
/// time convention do not change what a zone is, so they are not compared.
pub fn dggrs_uri(profile: &Profile) -> (r: Option<&'static str>)
    ensures
        r is Some <==> grid_params(*profile) == ogc_params(),
        r matches Some(u) ==> u@ == RHEALPIX_DGGRS@,
{
    let o = ogc_rhealpix();
    if profile.aperture == o.aperture && profile.n_base == o.n_base && profile.lon_0_udeg == o.lon_0_udeg
        && profile.north_square == o.north_square && profile.south_square == o.south_square
        && profile.a_um == o.a_um && profile.inv_f_nano == o.inv_f_nano {
        Some(RHEALPIX_DGGRS)
    } else {
        None
    }
}

/// The registered DGGRS of a usable profile.
fn registered(profile: &Profile) -> (r: Result<&'static str>)
    ensures
        r is Ok <==> spec_valid(*profile) && grid_params(*profile) == ogc_params(),
        r matches Ok(u) ==> u@ == RHEALPIX_DGGRS@,
{
    profile.validate()?;
    match dggrs_uri(profile) {
        Some(uri) => Ok(uri),
        None => invalid("the profile is not a registered DGGRS; its zone ids would be read against another grid"),
    }
}

/// The number of sub-zones `depth` levels down, `9^depth`, when it is no larger than
/// `MAX_RASTER_CELLS`.
fn count_at(depth: u32) -> (r: Result<u64>)
    ensures
        r is Ok <==> pow(9, depth as nat) <= MAX_RASTER_CELLS,
        r matches Ok(c) ==> c == pow(9, depth as nat),
{
    proof {
        lemma_pow_distributes(3, 3, depth as nat);
        crate::arith::lemma_pow_pos(3, depth as nat);
    }
    let width = match crate::hierarchy::checked_upow(3, depth) {
        Some(w) => w,
        None => {
            proof {
                assert(pow(3, depth as nat) * pow(3, depth as nat) >= pow(3, depth as nat)) by (nonlinear_arith)
                    requires
                        pow(3, depth as nat) >= 1,
                ;
            }
            return invalid("the depth has too many sub-zones");
        },
    };
    let count = match width.checked_mul(width) {
        Some(c) => c,
        None => return invalid("the depth has too many sub-zones"),
    };
    if count > MAX_RASTER_CELLS {
        return invalid("the depth has too many sub-zones");
    }
    Ok(count)
}

/// Which sub-zones of `zone`, at the tree's depth, the tree covers: what a DGGS-JSON document of
/// the coverage holds.
pub fn zone_coverage(tree: &Tree, profile: &Profile, zone: Cid) -> (r: Result<ZoneCoverage>)
    requires
        tree.wf(),
    ensures
        r is Ok <==> spec_valid(*profile) && grid_params(*profile) == ogc_params() && tree.h == space_h()
            && space_h().is_cid(zone as int) && space_h().spec_level(zone as int) <= tree.d
            && pow(9, (tree.d - space_h().spec_level(zone as int)) as nat) <= MAX_RASTER_CELLS,
        r matches Ok(z) ==> {
            &&& z.dggrs@ == RHEALPIX_DGGRS@
            &&& z.zone_id@ == spec_path_to_suid(space_h().path_of(zone as int))
            &&& z.depth == tree.d - space_h().spec_level(zone as int)
            &&& z.count == pow(9, z.depth as nat)
            &&& z.covered@.len() == z.count
            &&& forall|i: int| 0 <= i < z.count ==> #[trigger] z.covered@[i] == tree.covered(sub_cell(zone as int, z.depth as nat, i))
        },
{
    let uri = registered(profile)?;
    let h = space();
    if tree.h != h || profile.hierarchy() != h {
        return invalid("zone data needs the rHEALPix hierarchy");
    }
    let level = h.check(zone, Some(tree.d))?;
    let depth = tree.d - level;
    let count = count_at(depth)?;
    let zone_id = cid_to_suid(zone)?;
    proof {
        lemma_side_nine();
        lemma_pow_distributes(3, 3, depth as nat);
        crate::arith::lemma_pow_pos(3, depth as nat);
        assert(pow(3, depth as nat) <= pow(3, depth as nat) * pow(3, depth as nat)) by (nonlinear_arith)
            requires
                pow(3, depth as nat) >= 1,
        ;
    }
    let mut covered: Vec<bool> = Vec::new();
    let mut i: u64 = 0;
    while i < count
        invariant
            tree.wf(),
            tree.h == h,
            h == space_h(),
            spec_side(9) == Some(3nat),
            h.is_cid(zone as int),
            level == h.spec_level(zone as int),
            level + depth == tree.d,
            count == pow(9, depth as nat),
            count == pow(3, depth as nat) * pow(3, depth as nat),
            pow(3, depth as nat) <= count <= MAX_RASTER_CELLS,
            i <= count,
            covered@.len() == i,
            forall|j: int| 0 <= j < i ==> #[trigger] covered@[j] == tree.covered(sub_cell(zone as int, depth as nat, j)),
        decreases count - i,
    {
        let c = subzone_at(&h, zone, depth, i);
        let c = match c {
            Ok(c) => c,
            Err(e) => {
                return Err(e);
            },
        };
        proof {
            assert(c == sub_cell(zone as int, depth as nat, i as int));
            tree.lemma_covers_leaf(c as int);
        }
        let v = tree.covers(c)?;
        covered.push(v);
        i = i + 1;
    }
    Ok(ZoneCoverage { dggrs: uri, zone_id, depth, count, covered })
}

/// A name asked for, as characters.
pub open spec fn want_name(want: Option<&str>) -> Option<Seq<char>> {
    match want {
        Some(w) => Some(w@),
        None => None,
    }
}

/// The field and the entry that a document reads as, when both are picked.
pub open spec fn picked(doc: ZoneDoc, field: Option<Seq<char>>, depth: Option<u32>) -> Option<(int, int)> {
    let fs = doc.fields->0@;
    if doc.fields is Some && exists|fj: int, ej: int|
        picks_field(fs, field, fj) && fs[fj].entries is Some && #[trigger] picks_entry(fs[fj].entries->0@, doc.depths@, depth, ej) {
        Some(choose|fj: int, ej: int|
            picks_field(fs, field, fj) && fs[fj].entries is Some && #[trigger] picks_entry(fs[fj].entries->0@, doc.depths@, depth, ej))
    } else {
        None
    }
}

/// The zone a `zoneId` names, when it names one at a level that fits.
pub open spec fn zone_named(z: Seq<char>) -> Option<int> {
    match spec_suid_to_path(z) {
        Some(p) => if space_h().valid_path(p) && space_h().fits((p.len() - 1) as nat) {
            Some(space_h().spec_cid(p))
        } else {
            None
        },
        None => None,
    }
}

/// Everything reading a document for a field and a depth checks, under a profile.
pub open spec fn doc_readable(doc: ZoneDoc, profile: Profile, field: Option<Seq<char>>, depth: Option<u32>) -> bool {
    &&& spec_valid(profile) && grid_params(profile) == ogc_params()
    &&& doc.dggrs matches Some(s) && s@ == RHEALPIX_DGGRS@
    &&& !doc.has_dimensions
    &&& doc.zone_id matches Some(z) && zone_named(z@) is Some
    &&& picked(doc, field, depth) matches Some((fj, ej)) && {
        let es = doc.fields->0@[fj].entries->0@;
        let e = es[ej];
        let zone = zone_named(doc.zone_id->0@)->0;
        &&& forall|i: int| 0 <= i < es.len() ==> depth_of(#[trigger] es[i], doc.depths@) is Some
        &&& entry_readable(e, doc.depths@)
        &&& space_h().fits(space_h().spec_level(zone) + depth_of(e, doc.depths@)->0 as nat)
    }
}

/// Two fields picked by one request are the same field.
proof fn lemma_picks_field_unique(fields: Seq<FieldValues>, want: Option<Seq<char>>, j1: int, j2: int)
    requires
        picks_field(fields, want, j1),
        picks_field(fields, want, j2),
    ensures
        j1 == j2,
{
    if j1 < j2 {
        assert(fields[j1].name@ != want->0);
    } else if j2 < j1 {
        assert(fields[j2].name@ != want->0);
    }
}

/// Two entries picked by one request are the same entry.
proof fn lemma_picks_entry_unique(entries: Seq<DepthEntry>, depths: Seq<u64>, want: Option<u32>, j1: int, j2: int)
    requires
        picks_entry(entries, depths, want, j1),
        picks_entry(entries, depths, want, j2),
    ensures
        j1 == j2,
{
    if j1 < j2 {
        assert(depth_of(entries[j1], depths) != Some(want->0 as u64));
    } else if j2 < j1 {
        assert(depth_of(entries[j2], depths) != Some(want->0 as u64));
    }
}

/// The field `want` names, or the only one.
fn pick_field(fields: &Vec<FieldValues>, want: Option<&str>) -> (r: Result<usize>)
    ensures
        r is Ok <==> exists|j: int| picks_field(fields@, want_name(want), j),
        r matches Ok(j) ==> picks_field(fields@, want_name(want), j as int),
{
    match want {
        Some(w) => {
            let mut j: usize = 0;
            while j < fields.len()
                invariant
                    want == Some(w),
                    j <= fields@.len(),
                    forall|i: int| 0 <= i < j ==> #[trigger] fields@[i].name@ != w@,
                decreases fields@.len() - j,
            {
                if str_is(fields[j].name.as_str(), w) {
                    assert(picks_field(fields@, want_name(want), j as int));
                    return Ok(j);
                }
                j = j + 1;
            }
            proof {
                assert forall|jj: int| !picks_field(fields@, want_name(want), jj) by {
                    if 0 <= jj < fields@.len() {
                        assert(fields@[jj].name@ != w@);
                    }
                }
            }
            invalid("the document has no field of that name")
        },
        None => {
            if fields.len() == 1 {
                assert(picks_field(fields@, want_name(want), 0));
                Ok(0)
            } else {
                invalid("the document has several fields; name one")
            }
        },
    }
}

/// The depth of an entry: its own, or the document's when it lists exactly one.
fn entry_depth(e: &DepthEntry, depths: &Vec<u64>) -> (r: Option<u64>)
    ensures
        r == depth_of(*e, depths@),
{
    match e.depth {
        Some(d) => Some(d),
        None => if depths.len() == 1 {
            Some(depths[0])
        } else {
            None
        },
    }
}

/// The entry `want` names by depth, or the only one; every entry must name a depth.
fn pick_entry(entries: &Vec<DepthEntry>, depths: &Vec<u64>, want: Option<u32>) -> (r: Result<usize>)
    ensures
        r is Ok <==> (forall|i: int| 0 <= i < entries@.len() ==> depth_of(#[trigger] entries@[i], depths@) is Some)
            && exists|j: int| picks_entry(entries@, depths@, want, j),
        r matches Ok(j) ==> picks_entry(entries@, depths@, want, j as int),
{
    let mut i: usize = 0;
    while i < entries.len()
        invariant
            i <= entries@.len(),
            forall|j: int| 0 <= j < i ==> depth_of(#[trigger] entries@[j], depths@) is Some,
        decreases entries@.len() - i,
    {
        if entry_depth(&entries[i], depths).is_none() {
            return invalid("a value entry names no depth");
        }
        i = i + 1;
    }
    match want {
        Some(k) => {
            let mut j: usize = 0;
            while j < entries.len()
                invariant
                    want == Some(k),
                    forall|i: int| 0 <= i < entries@.len() ==> depth_of(#[trigger] entries@[i], depths@) is Some,
                    j <= entries@.len(),
                    forall|i: int| 0 <= i < j ==> depth_of(#[trigger] entries@[i], depths@) != Some(k as u64),
                decreases entries@.len() - j,
            {
                if entry_depth(&entries[j], depths) == Some(k as u64) {
                    assert(picks_entry(entries@, depths@, want, j as int));
                    return Ok(j);
                }
                j = j + 1;
            }
            proof {
                assert forall|jj: int| !picks_entry(entries@, depths@, want, jj) by {
                    if 0 <= jj < entries@.len() {
                        assert(depth_of(entries@[jj], depths@) != Some(k as u64));
                    }
                }
            }
            invalid("the document has no entry at that depth")
        },
        None => {
            if entries.len() == 1 {
                assert(picks_entry(entries@, depths@, want, 0));
                Ok(0)
            } else {
                invalid("the document has several depths; name one")
            }
        },
    }
}

/// The coverage a zone-data document describes: the sub-zones of its zone, at one depth, whose
/// value in one field is present. `field` and `depth` may be omitted when the document has one.
pub fn from_zone_doc(doc: &ZoneDoc, profile: &Profile, field: Option<&str>, depth: Option<u32>, presence: Presence) -> (r: Result<Tree>)
    ensures
        r is Ok <==> doc_readable(*doc, *profile, want_name(field), depth),
        r matches Ok(t) ==> {
            let (fj, ej) = picked(*doc, want_name(field), depth)->0;
            let e = doc.fields->0@[fj].entries->0@[ej];
            let k = depth_of(e, doc.depths@)->0 as nat;
            let zone = zone_named(doc.zone_id->0@)->0;
            let data = e.data->0@;
            &&& t.wf()
            &&& t.h == space_h()
            &&& t.d == space_h().spec_level(zone) + k
            &&& t.ctx.depth() == t.d
            &&& forall|x: int| #[trigger] t.covered(x)
                <==> exists|i: int| 0 <= i < data.len() && #[trigger] present(data[i], presence) && x == sub_cell(zone, k, i)
        },
{
    let uri = registered(profile)?;
    let h = space();
    if profile.hierarchy() != h {
        return invalid("zone data needs the rHEALPix hierarchy");
    }
    let named = match &doc.dggrs {
        Some(g) => str_is(g.as_str(), uri),
        None => false,
    };
    if !named {
        return invalid("the document's DGGRS is not the profile's");
    }
    if doc.has_dimensions {
        return invalid("zone data with extra dimensions has more than one value per sub-zone");
    }
    let zone_id = match &doc.zone_id {
        Some(z) => z,
        None => return invalid("missing zoneId"),
    };
    let zone = suid_to_cid(zone_id.as_str())?;
    let fields = match &doc.fields {
        Some(f) => f,
        None => return invalid("missing values"),
    };
    let fj = match pick_field(fields, field) {
        Ok(j) => j,
        Err(e) => {
            proof {
                assert forall|a: int, b: int| !(picks_field(fields@, want_name(field), a) && fields@[a].entries is Some
                    && #[trigger] picks_entry(fields@[a].entries->0@, doc.depths@, depth, b)) by {}
            }
            return Err(e);
        },
    };
    let entries = match &fields[fj].entries {
        Some(es) => es,
        None => {
            proof {
                assert forall|a: int, b: int| !(picks_field(fields@, want_name(field), a) && fields@[a].entries is Some
                    && #[trigger] picks_entry(fields@[a].entries->0@, doc.depths@, depth, b)) by {
                    if picks_field(fields@, want_name(field), a) {
                        lemma_picks_field_unique(fields@, want_name(field), a, fj as int);
                    }
                }
            }
            return invalid("a field's values must be an array");
        },
    };
    let ej = match pick_entry(entries, &doc.depths, depth) {
        Ok(j) => j,
        Err(e) => {
            proof {
                assert forall|a: int, b: int| !(picks_field(fields@, want_name(field), a) && fields@[a].entries is Some
                    && #[trigger] picks_entry(fields@[a].entries->0@, doc.depths@, depth, b)
                    && forall|i: int| 0 <= i < fields@[a].entries->0@.len() ==> depth_of(#[trigger] fields@[a].entries->0@[i], doc.depths@) is Some) by {
                    if picks_field(fields@, want_name(field), a) {
                        lemma_picks_field_unique(fields@, want_name(field), a, fj as int);
                    }
                }
            }
            return Err(e);
        },
    };
    proof {
        assert(picks_field(fields@, want_name(field), fj as int) && fields@[fj as int].entries is Some
            && picks_entry(fields@[fj as int].entries->0@, doc.depths@, depth, ej as int));
        let (a, b) = picked(*doc, want_name(field), depth)->0;
        lemma_picks_field_unique(fields@, want_name(field), a, fj as int);
        lemma_picks_entry_unique(entries@, doc.depths@, depth, b, ej as int);
    }
    let entry = &entries[ej];
    let k = match entry_depth(entry, &doc.depths) {
        Some(d) => if d > u32::MAX as u64 {
            return invalid("a depth past 32 bits names no sub-zones");
        } else {
            d as u32
        },
        None => return invalid("a value entry names no depth"),
    };
    let count = count_at(k)?;
    if let Some(s) = entry.shape_sub_zones {
        if s != count {
            return invalid("the shape does not describe the sub-zones at the depth");
        }
    }
    if let Some(c) = entry.shape_count {
        if c != count {
            return invalid("the shape does not describe the sub-zones at the depth");
        }
    }
    let data = match &entry.data {
        Some(d) => d,
        None => return invalid("missing data"),
    };
    if data.len() as u64 != count {
        return invalid("the data does not hold one value per sub-zone");
    }
    let level = h.level(zone);
    let ghost gzone = zone as int;
    proof {
        let p = spec_suid_to_path(zone_id@)->0;
        h.lemma_cid_path(p);
        lemma_side_nine();
        lemma_pow_distributes(3, 3, k as nat);
        crate::arith::lemma_pow_pos(3, k as nat);
        assert(pow(3, k as nat) <= pow(3, k as nat) * pow(3, k as nat)) by (nonlinear_arith)
            requires
                pow(3, k as nat) >= 1,
        ;
        crate::zone::lemma_small_exponent(3, k as nat);
        if doc_readable(*doc, *profile, want_name(field), depth) {
            let (a, b) = picked(*doc, want_name(field), depth)->0;
            assert(a == fj && b == ej);
            assert(zone_named(zone_id@)->0 == zone);
        }
    }
    let d = level + k;
    let mut cids: Vec<Cid> = Vec::new();
    let ghost mut src: Seq<int> = Seq::empty();
    let m = data.len();
    let mut i: usize = 0;
    while i < m
        invariant
            h == space_h(),
            spec_side(9) == Some(3nat),
            h.is_cid(gzone),
            gzone == zone,
            level == h.spec_level(gzone),
            d == level + k,
            m == data@.len(),
            m == count,
            count == pow(9, k as nat),
            count == pow(3, k as nat) * pow(3, k as nat),
            pow(3, k as nat) <= count <= MAX_RASTER_CELLS,
            i <= m,
            src.len() == cids@.len(),
            forall|j: int| #![trigger src[j]] #![trigger cids@[j]] 0 <= j < cids@.len() ==> 0 <= src[j] < i && present(data@[src[j]], presence)
                && cids@[j] as int == sub_cell(gzone, k as nat, src[j]) && h.is_cid(cids@[j] as int) && h.spec_level(cids@[j] as int) == d,
            doc_readable(*doc, *profile, want_name(field), depth) ==> h.fits(d as nat)
                && forall|ii: int| 0 <= ii < m ==> !(#[trigger] data@[ii] is Other),
            forall|ii: int| 0 <= ii < i && #[trigger] present(data@[ii], presence) ==> exists|j: int| 0 <= j < src.len() && src[j] == ii,
            forall|ii: int| 0 <= ii < i ==> !(#[trigger] data@[ii] is Other),
            h.fits(d as nat) || cids@.len() == 0,
        decreases m - i,
    {
        let on = match data[i] {
            Datum::Null => false,
            Datum::Number { zero } => presence == Presence::NonNull || !zero,
            Datum::Other => {
                return invalid("a zone data value is not a number or null");
            },
        };
        if on {
            let c = subzone_at(&h, zone, k, i as u64)?;
            proof {
                assert(c == sub_cell(gzone, k as nat, i as int));
                let s0 = src;
                src = src.push(i as int);
                assert forall|ii: int| 0 <= ii < i + 1 && #[trigger] present(data@[ii], presence)
                    implies exists|j: int| 0 <= j < src.len() && src[j] == ii by {
                    if ii == i {
                        assert(src[s0.len() as int] == ii);
                    } else {
                        let j = choose|j: int| 0 <= j < s0.len() && s0[j] == ii;
                        assert(src[j] == ii);
                    }
                }
            }
            cids.push(c);
        }
        i = i + 1;
    }
    let ctx = profile.ctx(d)?;
    let t = Tree::from_cells(h, d, cids.as_slice(), Arc::new(ctx))?;
    proof {
        reveal(pow);
        assert(pow(9, 0) == 1);
        let data_s = data@;
        assert forall|x: int| #[trigger] t.covered(x)
            <==> exists|ii: int| 0 <= ii < data_s.len() && #[trigger] present(data_s[ii], presence) && x == sub_cell(gzone, k as nat, ii) by {
            if t.covered(x) {
                let j = choose|j: int| 0 <= j < cids@.len() && h.spec_is_ancestor(#[trigger] cids@[j] as int, x);
                assert(x / 1 == x);
                assert(x == cids@[j] as int);
                assert(present(data_s[src[j]], presence));
            }
            if exists|ii: int| 0 <= ii < data_s.len() && #[trigger] present(data_s[ii], presence) && x == sub_cell(gzone, k as nat, ii) {
                let ii = choose|ii: int| 0 <= ii < data_s.len() && #[trigger] present(data_s[ii], presence) && x == sub_cell(gzone, k as nat, ii);
                let j = choose|j: int| 0 <= j < src.len() && src[j] == ii;
                assert(cids@[j] as int == x);
                assert(x / 1 == x);
                assert(h.spec_is_ancestor(cids@[j] as int, x));
                assert(Tree::under_some(h, cids@, x));
            }
        }
    }
    Ok(t)
}

/// Reading back the zone data written for a coverage gives the coverage's share of the zone: a
/// leaf is covered exactly when the tree covers it and it lies in the zone.
pub proof fn lemma_zone_round_trip(t: &Tree, zone: int, k: nat, data: Seq<Datum>, presence: Presence, back: &Tree)
    requires
        t.wf(),
        t.h == space_h(),
        space_h().is_cid(zone),
        zone < cid_space(),
        space_h().spec_level(zone) + k == t.d,
        data.len() == pow(9, k),
        forall|i: int| 0 <= i < data.len() ==> #[trigger] present(data[i], presence) == t.covered(sub_cell(zone, k, i)),
        back.h == t.h,
        back.d == t.d,
        forall|x: int| #[trigger] back.covered(x)
            <==> exists|i: int| 0 <= i < data.len() && #[trigger] present(data[i], presence) && x == sub_cell(zone, k, i),
    ensures
        forall|x: int| #[trigger] back.covered(x) <==> t.covered(x) && space_h().spec_is_ancestor(zone, x),
{
    let h = space_h();
    lemma_side_nine();
    let w = pow(3, k);
    lemma_pow_distributes(3, 3, k);
    crate::arith::lemma_pow_pos(3, k);
    let la = h.spec_level(zone);
    assert forall|x: int| #[trigger] back.covered(x) <==> t.covered(x) && h.spec_is_ancestor(zone, x) by {
        if back.covered(x) {
            let i = choose|i: int| 0 <= i < data.len() && #[trigger] present(data[i], presence) && x == sub_cell(zone, k, i);
            crate::zone::lemma_subzone_round_trip(h, zone, k, i);
        }
        if t.covered(x) && h.spec_is_ancestor(zone, x) {
            let pa = spec_position(h, zone, 3);
            let px = spec_position(h, x, 3);
            crate::zone::lemma_descendant_position(h, zone, x, 3);
            crate::zone::lemma_path_row_col_bound(h, zone, 3);
            t.h.lemma_leaf_split(x);
            let pd = pow(h.a as int, t.d as nat);
            assert(x < (h.a + h.b) * pd) by (nonlinear_arith)
                requires
                    x == h.lead(x) * pd + x % pd,
                    x % pd < pd,
                    h.lead(x) < h.a + h.b,
            ;
            crate::zone::lemma_path_row_col_bound(h, x, 3);
            let rel = crate::zone::rel_digits(h, zone, x);
            let (rr, rc) = (crate::zone::row_of(rel, 3), crate::zone::col_of(rel, 3));
            let i = rr * w + rc;
            assert(h.spec_level(x) == t.d);
            assert((h.spec_level(x) - h.spec_level(zone)) as nat == k);
            assert(0 <= i < w * w) by (nonlinear_arith)
                requires
                    0 <= rr < w,
                    0 <= rc < w,
                    i == rr * w + rc,
            ;
            assert(i / w == rr && i % w == rc) by {
                assert(rr * w <= i < (rr + 1) * w) by (nonlinear_arith)
                    requires
                        i == rr * w + rc,
                        0 <= rc < w,
                ;
                crate::arith::lemma_div_in_block(i, rr, w);
                vstd::arithmetic::div_mod::lemma_fundamental_div_mod(i, w);
                vstd::arithmetic::mul::lemma_mul_is_commutative(w, rr);
            }
            crate::zone::lemma_cell_at_position(h, x);
            h.lemma_path_cid(x);
            assert(sub_cell(zone, k, i) == x);
            assert(present(data[i], presence));
        }
    }
}

} // verus!
