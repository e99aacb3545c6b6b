//! Zone data: round trips, sub-zone placement, and every refusal. Documents are written here as
//! the plain values a DGGS-JSON document reads as.

use burin_core::hierarchy::{space, suid_to_cid, Cid};
use burin_core::profile::Profile;
use burin_core::setops::intersect;
use burin_core::tree::Tree;
use burin_core::zone::subzone_index;
use burin_core::zone_data::{dggrs_uri, from_zone_doc, zone_coverage, Datum, DepthEntry, FieldValues, Presence, ZoneCoverage, ZoneDoc, RHEALPIX_DGGRS};
use std::sync::Arc;

fn tree(d: u32, suids: &[&str]) -> Tree {
    let p = Profile::ogc();
    let cells: Vec<Cid> = suids.iter().map(|s| suid_to_cid(s).unwrap()).collect();
    Tree::from_cells(space(), d, &cells, Arc::new(p.ctx(d).unwrap())).unwrap()
}

fn num(x: f64) -> Datum {
    Datum::Number { zero: x == 0.0 }
}

/// The document a coverage is written as: 1 at covered sub-zones, null elsewhere.
fn written(z: &ZoneCoverage, field: &str) -> ZoneDoc {
    let data: Vec<Datum> = z.covered.iter().map(|&c| if c { num(1.0) } else { Datum::Null }).collect();
    ZoneDoc {
        dggrs: Some(z.dggrs.to_string()),
        has_dimensions: false,
        zone_id: Some(z.zone_id.clone()),
        fields: Some(vec![FieldValues {
            name: field.to_string(),
            entries: Some(vec![DepthEntry { depth: Some(z.depth as u64), shape_count: Some(z.count), shape_sub_zones: Some(z.count), data: Some(data) }]),
        }]),
        depths: vec![z.depth as u64],
    }
}

fn entry(depth: u64, data: Vec<Datum>) -> DepthEntry {
    let n = data.len() as u64;
    DepthEntry { depth: Some(depth), shape_count: Some(n), shape_sub_zones: Some(n), data: Some(data) }
}

fn doc(data: Vec<Datum>) -> ZoneDoc {
    ZoneDoc {
        dggrs: Some(RHEALPIX_DGGRS.to_string()),
        has_dimensions: false,
        zone_id: Some("Q4".to_string()),
        fields: Some(vec![FieldValues { name: "v".to_string(), entries: Some(vec![entry(1, data)]) }]),
        depths: vec![1],
    }
}

fn read(doc: &ZoneDoc) -> burin_core::Result<Tree> {
    from_zone_doc(doc, &Profile::ogc(), None, None, Presence::NonNull)
}

fn ones(n: usize) -> Vec<Datum> {
    vec![num(1.0); n]
}

#[test]
fn a_zone_round_trips_as_its_share_of_the_coverage() {
    let t = tree(4, &["Q4", "Q51", "Q520", "R0", "N8", "Q3888"]);
    let p = Profile::ogc();
    for zone in ["Q", "Q5", "Q52", "N", "R0", "S"] {
        let z = suid_to_cid(zone).unwrap();
        let cov = zone_coverage(&t, &p, z).unwrap();
        assert_eq!(cov.dggrs, RHEALPIX_DGGRS);
        assert_eq!(cov.zone_id, zone);
        let back = read(&written(&cov, "coverage")).unwrap();
        let expected = intersect(&t, &tree(4, &[zone])).unwrap();
        assert_eq!(back.root(), expected.root(), "{zone}");
        assert_eq!(back.cells(), expected.cells(), "{zone}: rebuilt tree is canonical");
    }
}

#[test]
fn values_sit_at_their_scanline_index() {
    let t = tree(3, &["Q452"]);
    let zone = suid_to_cid("Q").unwrap();
    let cov = zone_coverage(&t, &Profile::ogc(), zone).unwrap();
    assert_eq!(cov.covered.len(), 729);
    assert_eq!(cov.count, 729);
    let i = subzone_index(&space(), zone, suid_to_cid("Q452").unwrap()).unwrap() as usize;
    assert!(cov.covered[i]);
    assert_eq!(cov.covered.iter().filter(|&&v| v).count(), 1);
    let full = zone_coverage(&tree(2, &["Q"]), &Profile::ogc(), suid_to_cid("Q4").unwrap()).unwrap();
    assert!(full.covered.iter().all(|&v| v), "an ancestor covers every sub-zone");
}

#[test]
fn presence_is_non_null_unless_asked_for_non_zero() {
    let d = doc(vec![num(0.0), num(2.5), Datum::Null, num(-1.0), num(0.0), Datum::Null, num(1.0), num(0.0), num(7.0)]);
    let any = read(&d).unwrap();
    let nonzero = from_zone_doc(&d, &Profile::ogc(), Some("v"), Some(1), Presence::NonZero).unwrap();
    assert_eq!(any.leaf_count(), 7);
    assert_eq!(nonzero.leaf_count(), 4);
    assert!(any.covers(suid_to_cid("Q40").unwrap()).unwrap() && !nonzero.covers(suid_to_cid("Q40").unwrap()).unwrap());
}

#[test]
fn a_document_for_another_grid_is_refused() {
    let d = doc(ones(9));
    let mut other = doc(ones(9));
    other.dggrs = Some("https://www.opengis.net/def/dggrs/OGC/1.0/ISEA3H".to_string());
    assert!(read(&other).is_err());
    let mut missing = doc(ones(9));
    missing.dggrs = None;
    assert!(read(&missing).is_err());
    assert!(from_zone_doc(&d, &Profile::burin_1(), None, None, Presence::NonNull).is_err(), "lon_0 = 0 is not the registered grid");
    assert!(zone_coverage(&tree(1, &["Q4"]), &Profile::burin_1(), suid_to_cid("Q").unwrap()).is_err());
    assert_eq!(dggrs_uri(&Profile::ogc().with_hash("sha256")), Some(RHEALPIX_DGGRS));
    assert_eq!(dggrs_uri(&Profile { north_square: 1, ..Profile::ogc() }), None);
}

#[test]
fn malformed_zone_data_is_refused() {
    assert!(read(&doc(ones(8))).is_err(), "too few values");
    assert!(read(&doc(ones(10))).is_err(), "too many values");
    assert!(read(&doc(vec![Datum::Other; 9])).is_err(), "strings are not zone data values");
    let mut shape = doc(ones(9));
    shape.fields.as_mut().unwrap()[0].entries.as_mut().unwrap()[0].shape_sub_zones = Some(8);
    assert!(read(&shape).is_err());
    let mut dims = doc(ones(9));
    dims.has_dimensions = true;
    assert!(read(&dims).is_err());
    let mut zone = doc(ones(9));
    zone.zone_id = Some("X4".to_string());
    assert!(read(&zone).is_err());
}

#[test]
fn several_fields_or_depths_must_be_named() {
    let mut d = doc(ones(9));
    d.fields.as_mut().unwrap().push(FieldValues { name: "w".to_string(), entries: Some(vec![entry(1, ones(9))]) });
    assert!(read(&d).is_err());
    assert_eq!(from_zone_doc(&d, &Profile::ogc(), Some("w"), None, Presence::NonNull).unwrap().leaf_count(), 9);
    assert!(from_zone_doc(&d, &Profile::ogc(), Some("x"), None, Presence::NonNull).is_err());
    let mut deep = doc(ones(9));
    let two: Vec<Datum> = (0..81).map(|i| if i % 2 == 0 { num(1.0) } else { Datum::Null }).collect();
    deep.depths = vec![1, 2];
    deep.fields.as_mut().unwrap()[0].entries.as_mut().unwrap().push(entry(2, two));
    assert!(read(&deep).is_err());
    let t2 = from_zone_doc(&deep, &Profile::ogc(), None, Some(2), Presence::NonNull).unwrap();
    assert_eq!((t2.d, t2.leaf_count()), (3, 41));
}

#[test]
fn zone_data_depths_are_read_exactly_or_refused() {
    let p = Profile::ogc();
    let t = tree(3, &["Q41", "Q418"]);
    let cov = zone_coverage(&t, &p, suid_to_cid("Q4").unwrap()).unwrap();
    let written_doc = written(&cov, "f");
    assert_eq!(from_zone_doc(&written_doc, &p, None, None, Presence::NonNull).unwrap().root(), t.root());
    let mut wide = written(&cov, "f");
    wide.depths = vec![2 + (1u64 << 32)];
    wide.fields.as_mut().unwrap()[0].entries.as_mut().unwrap()[0].depth = Some(2 + (1u64 << 32));
    assert!(from_zone_doc(&wide, &p, None, None, Presence::NonNull).is_err());
    // a depth that fits the sub-zone limit but not below this zone
    let deep_zone = format!("Q{}", "4".repeat(space().max_level() as usize));
    let mut deep = ZoneDoc {
        dggrs: Some(RHEALPIX_DGGRS.to_string()),
        has_dimensions: false,
        zone_id: Some(deep_zone),
        fields: Some(vec![FieldValues {
            name: "f".to_string(),
            entries: Some(vec![DepthEntry { depth: Some(1), shape_count: None, shape_sub_zones: None, data: Some(ones(9)) }]),
        }]),
        depths: vec![1],
    };
    assert!(from_zone_doc(&deep, &p, None, None, Presence::NonNull).is_err());
    deep.zone_id = Some(format!("Q{}", "4".repeat(space().max_level() as usize - 1)));
    assert!(from_zone_doc(&deep, &p, None, None, Presence::NonNull).is_ok());
}

#[test]
fn an_entry_takes_the_document_depth_when_it_names_none() {
    let mut d = doc(ones(9));
    d.fields.as_mut().unwrap()[0].entries.as_mut().unwrap()[0].depth = None;
    assert_eq!(read(&d).unwrap().leaf_count(), 9);
    d.depths = vec![];
    assert!(read(&d).is_err(), "no depth anywhere");
    let mut no_values = doc(ones(9));
    no_values.fields = None;
    assert!(read(&no_values).is_err());
    let mut no_data = doc(ones(9));
    no_data.fields.as_mut().unwrap()[0].entries.as_mut().unwrap()[0].data = None;
    assert!(read(&no_data).is_err());
}
