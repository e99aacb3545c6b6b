//! Wire records under every single edit of their JSON: each value replaced, removed, re-typed,
//! pushed out of range or re-spelled. A verifier must never panic, and a mutant that still
//! verifies must state something true: an opening of a cell is the tree's own opening of that
//! cell, and a set-operation proof states the operation and roots it was made for. A JSON value is
//! turned into the library's document values field by field here; the library reads and writes
//! the records.

use burin_core::hierarchy::{space, suid_to_cid, Cid};
use burin_core::opening::{open_path, OpeningRecord};
use burin_core::profile::Profile;
use burin_core::setops::{prove, Op, SetOpProof};
use burin_core::wire::{ChildrenDoc, EntryDoc, OpeningDoc, ProofDoc, RecordDoc, StepDoc};
use burin_core::tree::Tree;
use burin_core::zone_data::{from_zone_doc, zone_coverage, Datum, DepthEntry, FieldValues, Presence, ZoneDoc};
use serde_json::Value;
use std::sync::Arc;


fn tree(d: u32, cells: &[&str]) -> Tree {
    let ctx = Arc::new(Profile::ogc().ctx(d).unwrap());
    let cids: Vec<Cid> = cells.iter().map(|s| suid_to_cid(s).unwrap()).collect();
    Tree::from_cells(space(), d, &cids, ctx).unwrap()
}

fn obj(pairs: Vec<(&str, Value)>) -> Value {
    let mut m = serde_json::Map::new();
    for (k, v) in pairs {
        m.insert(k.to_string(), v);
    }
    Value::Object(m)
}

fn string_field(v: &Value, k: &str) -> Option<String> {
    v.get(k).and_then(Value::as_str).map(str::to_string)
}

fn number_field(v: &Value, k: &str) -> Option<u64> {
    v.get(k).and_then(Value::as_u64)
}

fn text(s: &Option<String>) -> Value {
    s.clone().map(Value::String).unwrap_or(Value::Null)
}

fn number(n: Option<u64>) -> Value {
    n.map(Value::from).unwrap_or(Value::Null)
}

fn opening_doc(v: &Value) -> OpeningDoc {
    if let Some(c) = v.get("claim") {
        return OpeningDoc::Claim(c.as_str().map(str::to_string));
    }
    match v.get("entries").and_then(Value::as_array) {
        Some(es) => OpeningDoc::Entries(
            es.iter()
                .map(|e| match e.as_str() {
                    Some(s) => EntryDoc::Hash(s.to_string()),
                    None => EntryDoc::Open(Box::new(opening_doc(e))),
                })
                .collect(),
        ),
        None => OpeningDoc::Neither,
    }
}

fn opening_value(d: &OpeningDoc) -> Value {
    match d {
        OpeningDoc::Claim(c) => obj(vec![("claim", text(c))]),
        OpeningDoc::Entries(es) => obj(vec![(
            "entries",
            Value::Array(
                es.iter()
                    .map(|e| match e {
                        EntryDoc::Hash(s) => Value::String(s.clone()),
                        EntryDoc::Open(o) => opening_value(o),
                    })
                    .collect(),
            ),
        )]),
        OpeningDoc::Neither => obj(vec![]),
    }
}

fn record_doc(v: &Value) -> RecordDoc {
    RecordDoc {
        v: number_field(v, "v"),
        hash: string_field(v, "hash"),
        a: number_field(v, "A"),
        b: number_field(v, "B"),
        d: number_field(v, "D"),
        root: string_field(v, "root"),
        opening: v.get("opening").map(opening_doc),
    }
}

fn record_to_json(r: &OpeningRecord) -> Value {
    let d = r.to_doc();
    obj(vec![
        ("v", number(d.v)),
        ("hash", text(&d.hash)),
        ("A", number(d.a)),
        ("B", number(d.b)),
        ("D", number(d.d)),
        ("root", text(&d.root)),
        ("opening", d.opening.as_ref().map(opening_value).unwrap_or(Value::Null)),
    ])
}

fn record_from_json(v: &Value) -> burin_core::Result<OpeningRecord> {
    OpeningRecord::from_doc(&record_doc(v))
}

fn step_doc(v: &Value) -> StepDoc {
    StepDoc {
        a: string_field(v, "a"),
        b: string_field(v, "b"),
        c: string_field(v, "c"),
        children: match v.get("children") {
            None => ChildrenDoc::Absent,
            Some(Value::Array(ks)) => ChildrenDoc::Steps(ks.iter().map(step_doc).collect()),
            Some(_) => ChildrenDoc::NotSteps,
        },
    }
}

fn step_value(s: &StepDoc) -> Value {
    let mut v = obj(vec![("a", text(&s.a)), ("b", text(&s.b)), ("c", text(&s.c))]);
    match &s.children {
        ChildrenDoc::Steps(ks) => v["children"] = Value::Array(ks.iter().map(step_value).collect()),
        ChildrenDoc::NotSteps => v["children"] = Value::Null,
        ChildrenDoc::Absent => {}
    }
    v
}

fn proof_doc(v: &Value) -> ProofDoc {
    ProofDoc {
        v: number_field(v, "v"),
        op: string_field(v, "op"),
        hash: string_field(v, "hash"),
        root_a: string_field(v, "root_a"),
        root_b: string_field(v, "root_b"),
        root_c: string_field(v, "root_c"),
        a: number_field(v, "A"),
        b: number_field(v, "B"),
        d: number_field(v, "D"),
        steps: v.get("steps").and_then(Value::as_array).map(|ss| ss.iter().map(step_doc).collect()),
    }
}

fn proof_to_json(p: &SetOpProof) -> Value {
    let d = p.to_doc();
    obj(vec![
        ("v", number(d.v)),
        ("op", text(&d.op)),
        ("hash", text(&d.hash)),
        ("root_a", text(&d.root_a)),
        ("root_b", text(&d.root_b)),
        ("root_c", text(&d.root_c)),
        ("A", number(d.a)),
        ("B", number(d.b)),
        ("D", number(d.d)),
        ("steps", d.steps.as_ref().map(|ss| Value::Array(ss.iter().map(step_value).collect())).unwrap_or(Value::Null)),
    ])
}

fn proof_from_json(v: &Value) -> burin_core::Result<SetOpProof> {
    SetOpProof::from_doc(&proof_doc(v))
}

fn to_dggs_json(t: &Tree, p: &Profile, zone: Cid, field: &str) -> Value {
    let z = zone_coverage(t, p, zone).unwrap();
    let data: Vec<Value> = z.covered.iter().map(|&c| if c { Value::from(1u64) } else { Value::Null }).collect();
    let shape = obj(vec![("count", Value::from(z.count)), ("subZones", Value::from(z.count))]);
    let entry = obj(vec![("depth", Value::from(z.depth)), ("shape", shape), ("data", Value::Array(data))]);
    obj(vec![
        ("dggrs", Value::from(z.dggrs)),
        ("zoneId", Value::from(z.zone_id)),
        ("depths", Value::Array(vec![Value::from(z.depth)])),
        ("values", obj(vec![(field, Value::Array(vec![entry]))])),
    ])
}

fn datum(v: &Value) -> Datum {
    match v {
        Value::Null => Datum::Null,
        Value::Number(x) => Datum::Number { zero: x.as_f64() == Some(0.0) },
        _ => Datum::Other,
    }
}

fn depth_entry(e: &Value) -> DepthEntry {
    let shape = e.get("shape");
    let shape_n = |key: &str| shape.and_then(|s| s.get(key)).and_then(Value::as_u64);
    DepthEntry {
        depth: e.get("depth").and_then(Value::as_u64),
        shape_count: shape_n("count"),
        shape_sub_zones: shape_n("subZones"),
        data: e.get("data").and_then(Value::as_array).map(|d| d.iter().map(datum).collect()),
    }
}

fn zone_doc(doc: &Value) -> ZoneDoc {
    ZoneDoc {
        dggrs: doc.get("dggrs").and_then(Value::as_str).map(str::to_string),
        has_dimensions: doc.get("dimensions").and_then(Value::as_array).is_some_and(|d| !d.is_empty()),
        zone_id: doc.get("zoneId").and_then(Value::as_str).map(str::to_string),
        fields: doc.get("values").and_then(Value::as_object).map(|fields| {
            fields.iter().map(|(k, v)| FieldValues { name: k.clone(), entries: v.as_array().map(|es| es.iter().map(depth_entry).collect()) }).collect()
        }),
        depths: doc.get("depths").and_then(Value::as_array).map(|d| d.iter().filter_map(Value::as_u64).collect()).unwrap_or_default(),
    }
}

#[derive(Clone, Debug)]
enum Seg {
    Key(String),
    At(usize),
}

fn paths(v: &Value, here: &mut Vec<Seg>, out: &mut Vec<Vec<Seg>>) {
    out.push(here.clone());
    match v {
        Value::Object(m) => m.iter().for_each(|(k, x)| {
            here.push(Seg::Key(k.clone()));
            paths(x, here, out);
            here.pop();
        }),
        Value::Array(a) => a.iter().enumerate().for_each(|(i, x)| {
            here.push(Seg::At(i));
            paths(x, here, out);
            here.pop();
        }),
        _ => {}
    }
}

fn at<'a>(v: &'a mut Value, path: &[Seg]) -> &'a mut Value {
    path.iter().fold(v, |v, s| match s {
        Seg::Key(k) => &mut v[k.as_str()],
        Seg::At(i) => &mut v[*i],
    })
}

/// Every value the node at a path can be replaced by, plus `None` for removing it.
fn replacements(v: &Value) -> Vec<Option<Value>> {
    let mut out: Vec<Option<Value>> = vec![None, Some(Value::Null), Some(Value::Bool(true)), Some(Value::from(-1i64)), Some(Value::from(1.5f64)), Some(Value::from("x"))];
    out.extend([0u64, 1, 2, 4096, 4097, u32::MAX as u64, 1 << 32, u64::MAX].map(|n| Some(Value::from(n))));
    match v {
        Value::Number(n) => out.extend(n.as_u64().map(|n| Some(Value::from(n + (1 << 32))))),
        Value::String(s) if s.len() == 64 => {
            let mut b = s.clone().into_bytes();
            b[63] = if b[63] == b'0' { b'1' } else { b'0' };
            out.push(Some(Value::String(String::from_utf8(b).unwrap())));
            out.push(Some(Value::String(s.to_uppercase())));
            out.push(Some(Value::String(s[..62].to_string())));
        }
        Value::Array(a) if !a.is_empty() => {
            out.push(Some(Value::Array(vec![])));
            out.push(Some(Value::Array(a[1..].to_vec())));
            out.push(Some(Value::Array([a.clone(), vec![a[a.len() - 1].clone()]].concat())));
            out.push(Some(Value::Array(a.iter().rev().cloned().collect())));
        }
        _ => {}
    }
    out
}

fn mutants(pristine: &Value) -> Vec<Value> {
    let mut ps = Vec::new();
    paths(pristine, &mut Vec::new(), &mut ps);
    let mut out = Vec::new();
    for p in ps.iter().filter(|p| !p.is_empty()) {
        let target = at(&mut pristine.clone(), p).clone();
        for r in replacements(&target) {
            let mut m = pristine.clone();
            let (parent, last) = (at(&mut m, &p[..p.len() - 1]), &p[p.len() - 1]);
            match (r, last) {
                (Some(x), Seg::Key(k)) => parent[k.as_str()] = x,
                (Some(x), Seg::At(i)) => parent[*i] = x,
                (None, Seg::Key(k)) => {
                    parent.as_object_mut().unwrap().remove(k);
                }
                (None, Seg::At(i)) => {
                    parent.as_array_mut().unwrap().remove(*i);
                }
            }
            if m != *pristine {
                out.push(m);
            }
        }
    }
    out
}

fn check_all<R>(pristine: Value, parse: impl Fn(&Value) -> burin_core::Result<R>, verify: impl Fn(&R) -> bool, true_of: impl Fn(&R) -> bool) -> usize {
    assert!(verify(&parse(&pristine).unwrap()), "the unmutated record verifies");
    let ms = mutants(&pristine);
    for m in &ms {
        if let Ok(r) = parse(m) {
            assert!(!verify(&r) || true_of(&r), "a mutant verifies a false statement:\n{m}");
        }
    }
    ms.len()
}

#[test]
fn no_edit_of_an_opening_record_verifies() {
    let t = tree(3, &["Q4", "Q51", "N000", "S8"]);
    let mut n = 0;
    for cell in ["Q412", "Q518", "N000", "S820", "P000"] {
        let op = open_path(&t, suid_to_cid(cell).unwrap()).unwrap().unwrap();
        let own = |r: &OpeningRecord| r.cid().and_then(|c| open_path(&t, c).unwrap()).is_some_and(|o| OpeningRecord::new(&t, o) == *r);
        n += check_all(record_to_json(&OpeningRecord::new(&t, op)), record_from_json, OpeningRecord::verify, own);
    }
    assert!(n > 2000, "only {n} mutants");
}

#[test]
fn no_edit_of_a_set_operation_proof_verifies() {
    let (a, b) = (tree(3, &["Q4", "Q51", "N0"]), tree(3, &["Q45", "Q5", "S"]));
    let mut n = 0;
    for op in [Op::Union, Op::Intersect, Op::Difference] {
        let p = prove(&a, &b, op).unwrap();
        let same = |r: &SetOpProof| (r.op, r.root_a, r.root_b, r.root_c) == (p.op, p.root_a, p.root_b, p.root_c);
        n += check_all(proof_to_json(&p), proof_from_json, SetOpProof::verify, same);
    }
    assert!(n > 2000, "only {n} mutants");
}

#[test]
fn no_edit_of_zone_data_panics() {
    let p = Profile::ogc();
    let t = tree(2, &["Q41", "Q48"]);
    let doc = to_dggs_json(&t, &p, suid_to_cid("Q4").unwrap(), "f");
    for m in mutants(&doc) {
        for presence in [Presence::NonNull, Presence::NonZero] {
            let _ = from_zone_doc(&zone_doc(&m), &p, None, None, presence);
        }
    }
}

#[test]
fn records_read_back_what_they_write() {
    let t = tree(3, &["Q4", "Q51", "N000", "S8"]);
    for cell in ["Q412", "Q518", "N000", "S820", "P000"] {
        let r = OpeningRecord::new(&t, open_path(&t, suid_to_cid(cell).unwrap()).unwrap().unwrap());
        let again = record_from_json(&record_to_json(&r)).unwrap();
        assert_eq!(again.verify(), r.verify());
        assert_eq!(again, r);
    }
    let (a, b) = (tree(3, &["Q4", "Q51", "N0"]), tree(3, &["Q45", "Q5", "S"]));
    for op in [Op::Union, Op::Intersect, Op::Difference] {
        let p = prove(&a, &b, op).unwrap();
        let again = proof_from_json(&proof_to_json(&p)).unwrap();
        assert_eq!(again.verify(), p.verify());
        assert_eq!(again, p);
    }
}
