//! The wire records of openings and set-operation proofs (version 1), as the plain values a JSON
//! document reads as: each field present or absent, each string kept as it is spelled. Reading
//! checks the version, the shape and every spelling; writing produces what reading accepts and
//! reads back as the same record.
//!
//! ```text
//! opening  {"claim": "empty" | "full"}  or  {"entries": [hex digest | opening, ...]}
//! record   {"v": 1, "hash", "A", "B", "D", "root": hex, "opening"}
//! step     {"a": hex, "b": hex, "c": hex, "children"?: [step, ...]}
//! proof    {"v": 1, "op", "hash", "root_a", "root_b", "root_c", "A", "B", "D", "steps": [step, ...]}
//! ```

use vstd::prelude::*;
use crate::error::{invalid, Result};
use crate::hash::{hex, lemma_hex_round_trip, spec_hex, spec_unhex, spells_digest, str_is, unhex, Digest};
use crate::opening::{spec_valid_shape, wire_shape, Claim, Entry, Opening, OpeningRecord};
use crate::setops::{spec_op_name, spec_op_parse, Op, SetOpProof, Step};

verus! {

/// The version of the opening record this crate reads and writes.
pub const OPENING_WIRE_VERSION: u64 = 1;

/// The version of the set-operation proof this crate reads and writes.
pub const SETOP_WIRE_VERSION: u64 = 1;

/// An opening as a document holds it: a `claim` (a string, or `None` when it is not one), a list
/// of `entries`, or neither.
pub enum OpeningDoc {
    Claim(Option<String>),
    Entries(Vec<EntryDoc>),
    Neither,
}

/// One entry: a string (a hex digest, if it is spelled as one), or a nested opening.
pub enum EntryDoc {
    Hash(String),
    Open(Box<OpeningDoc>),
}

/// The wire name of a claim.
pub open spec fn claim_name(c: Claim) -> Seq<char> {
    match c {
        Claim::Empty => seq!['e', 'm', 'p', 't', 'y'],
        Claim::Full => seq!['f', 'u', 'l', 'l'],
    }
}

/// The claim a wire name names.
pub open spec fn claim_of(s: Seq<char>) -> Option<Claim> {
    if s == claim_name(Claim::Empty) {
        Some(Claim::Empty)
    } else if s == claim_name(Claim::Full) {
        Some(Claim::Full)
    } else {
        None
    }
}

/// `s` spells the digest `d`.
pub open spec fn spells(s: Seq<char>, d: Digest) -> bool {
    spells_digest(s) && d@ == spec_unhex(s)
}

/// The document reads as an opening: a claim named `empty` or `full`, or entries each a spelled
/// digest or an opening that reads.
pub open spec fn opening_ok(doc: OpeningDoc) -> bool
    decreases doc, 2nat,
{
    match doc {
        OpeningDoc::Claim(c) => c matches Some(s) && claim_of(s@) is Some,
        OpeningDoc::Entries(ds) => entries_ok(ds@),
        OpeningDoc::Neither => false,
    }
}

/// Every entry reads.
pub open spec fn entries_ok(ds: Seq<EntryDoc>) -> bool
    decreases ds, 1nat,
{
    if ds.len() == 0 {
        true
    } else {
        entry_ok(ds.last()) && entries_ok(ds.drop_last())
    }
}

/// The entry reads.
pub open spec fn entry_ok(d: EntryDoc) -> bool
    decreases d, 0nat,
{
    match d {
        EntryDoc::Hash(s) => spells_digest(s@),
        EntryDoc::Open(o) => opening_ok(*o),
    }
}

/// The document reads as the opening `op`.
pub open spec fn opening_reads(doc: OpeningDoc, op: Opening) -> bool
    decreases doc, 2nat,
{
    match doc {
        OpeningDoc::Claim(c) => c matches Some(s) && claim_of(s@) matches Some(k) && op == Opening::Claim(k),
        OpeningDoc::Entries(ds) => op matches Opening::Entries(es) && entries_read(ds@, es@),
        OpeningDoc::Neither => false,
    }
}

/// The entries read as `es`, one for one.
pub open spec fn entries_read(ds: Seq<EntryDoc>, es: Seq<Entry>) -> bool
    decreases ds, 1nat,
{
    if ds.len() == 0 {
        es.len() == 0
    } else {
        es.len() == ds.len() && entry_reads(ds.last(), es.last()) && entries_read(ds.drop_last(), es.drop_last())
    }
}

/// The entry reads as `e`.
pub open spec fn entry_reads(d: EntryDoc, e: Entry) -> bool
    decreases d, 0nat,
{
    match d {
        EntryDoc::Hash(s) => e matches Entry::Hash(h) && spells(s@, h),
        EntryDoc::Open(o) => e matches Entry::Open(p) && opening_reads(*o, *p),
    }
}

/// Entries read exactly when each of them does.
proof fn lemma_entries_ok(ds: Seq<EntryDoc>)
    ensures
        entries_ok(ds) <==> forall|i: int| 0 <= i < ds.len() ==> entry_ok(#[trigger] ds[i]),
    decreases ds.len(),
{
    if ds.len() > 0 {
        let p = ds.drop_last();
        lemma_entries_ok(p);
        if entries_ok(ds) {
            assert forall|i: int| 0 <= i < ds.len() implies entry_ok(#[trigger] ds[i]) by {
                if i < ds.len() - 1 {
                    assert(p[i] == ds[i]);
                    assert(entry_ok(p[i]));
                }
            }
        }
        if forall|i: int| 0 <= i < ds.len() ==> entry_ok(#[trigger] ds[i]) {
            assert forall|i: int| 0 <= i < p.len() implies entry_ok(#[trigger] p[i]) by {
                assert(p[i] == ds[i]);
            }
            assert(entry_ok(ds[ds.len() - 1]));
        }
    }
}

/// Entries read as `es` exactly when each reads as its own.
proof fn lemma_entries_read(ds: Seq<EntryDoc>, es: Seq<Entry>)
    ensures
        entries_read(ds, es) <==> ds.len() == es.len() && forall|i: int| 0 <= i < ds.len() ==> entry_reads(#[trigger] ds[i], es[i]),
    decreases ds.len(),
{
    if ds.len() > 0 && es.len() == ds.len() {
        let p = ds.drop_last();
        let q = es.drop_last();
        lemma_entries_read(p, q);
        if entries_read(ds, es) {
            assert forall|i: int| 0 <= i < ds.len() implies entry_reads(#[trigger] ds[i], es[i]) by {
                if i < ds.len() - 1 {
                    assert(p[i] == ds[i] && q[i] == es[i]);
                    assert(entry_reads(p[i], q[i]));
                }
            }
        }
        if forall|i: int| 0 <= i < ds.len() ==> entry_reads(#[trigger] ds[i], es[i]) {
            assert forall|i: int| 0 <= i < p.len() implies entry_reads(#[trigger] p[i], q[i]) by {
                assert(p[i] == ds[i] && q[i] == es[i]);
            }
            assert(entry_reads(ds[ds.len() - 1], es[es.len() - 1]));
        }
    }
}

/// A document that reads as some opening reads.
pub proof fn lemma_reads_ok(doc: OpeningDoc, op: Opening)
    requires
        opening_reads(doc, op),
    ensures
        opening_ok(doc),
    decreases doc,
{
    if let OpeningDoc::Entries(ds) = doc {
        let es = op->Entries_0@;
        lemma_entries_read(ds@, es);
        assert forall|i: int| 0 <= i < ds@.len() implies entry_ok(#[trigger] ds@[i]) by {
            assert(entry_reads(ds@[i], es[i]));
            if let EntryDoc::Open(o) = ds@[i] {
                assert(decreases_to!(doc => ds));
                assert(decreases_to!(ds => ds@));
                assert(decreases_to!(ds@ => ds@[i]));
                lemma_reads_ok(*o, *es[i]->Open_0);
            }
        }
        lemma_entries_ok(ds@);
    }
}

/// The same opening, node for node.
pub open spec fn same_opening(o1: Opening, o2: Opening) -> bool
    decreases o1, 2nat,
{
    match o1 {
        Opening::Claim(c) => o2 == Opening::Claim(c),
        Opening::Entries(es) => o2 matches Opening::Entries(fs) && same_entries(es@, fs@),
    }
}

/// The same entries, one for one.
pub open spec fn same_entries(es: Seq<Entry>, fs: Seq<Entry>) -> bool
    decreases es, 1nat,
{
    if es.len() == 0 {
        fs.len() == 0
    } else {
        fs.len() == es.len() && same_entry(es.last(), fs.last()) && same_entries(es.drop_last(), fs.drop_last())
    }
}

/// The same entry.
pub open spec fn same_entry(e1: Entry, e2: Entry) -> bool
    decreases e1, 0nat,
{
    match e1 {
        Entry::Hash(h) => e2 == Entry::Hash(h),
        Entry::Open(o) => e2 matches Entry::Open(p) && same_opening(*o, *p),
    }
}

/// Entries are the same when each is the same as its own.
proof fn lemma_same_entries(es: Seq<Entry>, fs: Seq<Entry>)
    requires
        es.len() == fs.len(),
        forall|i: int| 0 <= i < es.len() ==> same_entry(#[trigger] es[i], fs[i]),
    ensures
        same_entries(es, fs),
    decreases es.len(),
{
    if es.len() > 0 {
        let p = es.drop_last();
        let q = fs.drop_last();
        assert forall|i: int| 0 <= i < p.len() implies same_entry(#[trigger] p[i], q[i]) by {
            assert(p[i] == es[i] && q[i] == fs[i]);
        }
        lemma_same_entries(p, q);
        assert(same_entry(es[es.len() - 1], fs[fs.len() - 1]));
    }
}

/// A document has one reading: two openings it reads as are the same opening.
pub proof fn lemma_one_reading(doc: OpeningDoc, o1: Opening, o2: Opening)
    requires
        opening_reads(doc, o1),
        opening_reads(doc, o2),
    ensures
        same_opening(o1, o2),
    decreases doc,
{
    broadcast use vstd::array::group_array_axioms;
    if let OpeningDoc::Entries(ds) = doc {
        let es = o1->Entries_0@;
        let fs = o2->Entries_0@;
        lemma_entries_read(ds@, es);
        lemma_entries_read(ds@, fs);
        assert forall|i: int| 0 <= i < es.len() implies #[trigger] same_entry(es[i], fs[i]) by {
            assert(entry_reads(ds@[i], es[i]) && entry_reads(ds@[i], fs[i]));
            match ds@[i] {
                EntryDoc::Hash(s) => {
                    let h1 = es[i]->Hash_0;
                    let h2 = fs[i]->Hash_0;
                    assert(h1 =~= h2);
                },
                EntryDoc::Open(o) => {
                    assert(decreases_to!(doc => ds));
                    assert(decreases_to!(ds => ds@));
                    assert(decreases_to!(ds@ => ds@[i]));
                    lemma_one_reading(*o, *es[i]->Open_0, *fs[i]->Open_0);
                },
            }
        }
        lemma_same_entries(es, fs);
    }
}

/// The opening a claim document names.
fn claim_from_doc(c: &Option<String>) -> (r: Result<Claim>)
    ensures
        r is Ok <==> (c matches Some(s) && claim_of(s@) is Some),
        r matches Ok(k) ==> claim_of(c->0@) == Some(k),
{
    proof {
        reveal_strlit("empty");
        reveal_strlit("full");
        assert("empty"@ =~= claim_name(Claim::Empty));
        assert("full"@ =~= claim_name(Claim::Full));
    }
    match c {
        Some(s) => {
            if str_is(s.as_str(), "empty") {
                Ok(Claim::Empty)
            } else if str_is(s.as_str(), "full") {
                Ok(Claim::Full)
            } else {
                invalid("a claim is empty or full")
            }
        },
        None => invalid("a claim is a string"),
    }
}

impl Opening {
    /// The opening a document reads as; refused when it does not read.
    pub fn from_doc(doc: &OpeningDoc) -> (r: Result<Opening>)
        ensures
            r is Ok <==> opening_ok(*doc),
            r matches Ok(o) ==> opening_reads(*doc, o),
        decreases doc,
    {
        match doc {
            OpeningDoc::Claim(c) => {
                let k = claim_from_doc(c)?;
                Ok(Opening::Claim(k))
            },
            OpeningDoc::Entries(ds) => {
                let n = ds.len();
                let mut es: Vec<Entry> = Vec::new();
                let mut i: usize = 0;
                while i < n
                    invariant
                        n == ds@.len(),
                        *doc == OpeningDoc::Entries(*ds),
                        i <= n,
                        entries_ok(ds@.take(i as int)),
                        entries_read(ds@.take(i as int), es@),
                    decreases n - i,
                {
                    let ghost t = ds@.take(i + 1);
                    proof {
                        assert(t.drop_last() =~= ds@.take(i as int));
                        assert(t.last() == ds@[i as int]);
                    }
                    let di = &ds[i];
                    proof {
                        assert(*di == ds@[i as int]);
                    }
                    let e = match di {
                        EntryDoc::Hash(s) => match unhex(s.as_str()) {
                            Some(h) => Entry::Hash(h),
                            None => {
                                proof {
                                    lemma_entries_ok(ds@);
                                    assert(!entry_ok(ds@[i as int]));
                                }
                                return invalid("an entry is a hex digest or an opening");
                            },
                        },
                        EntryDoc::Open(o) => {
                            proof {
                                assert(decreases_to!(*doc => doc->Entries_0));
                                assert(decreases_to!(doc->Entries_0 => ds@));
                                assert(decreases_to!(ds@ => ds@[i as int]));
                            }
                            match Opening::from_doc(o) {
                                Ok(p) => Entry::Open(Box::new(p)),
                                Err(err) => {
                                    proof {
                                        lemma_entries_ok(ds@);
                                        assert(!entry_ok(ds@[i as int]));
                                    }
                                    return Err(err);
                                },
                            }
                        },
                    };
                    proof {
                        assert(entry_ok(ds@[i as int]));
                        assert(entry_reads(ds@[i as int], e));
                    }
                    let ghost before = es@;
                    es.push(e);
                    proof {
                        assert(es@.drop_last() =~= before);
                        assert(es@.last() == e);
                        assert(entries_ok(t));
                        assert(entries_read(t, es@));
                    }
                    i = i + 1;
                }
                proof {
                    assert(ds@.take(n as int) =~= ds@);
                }
                Ok(Opening::Entries(es))
            },
            OpeningDoc::Neither => invalid("an opening is a claim or entries"),
        }
    }

    /// The document an opening writes: it reads as this opening.
    pub fn to_doc(&self) -> (r: OpeningDoc)
        ensures
            opening_reads(r, *self),
        decreases self,
    {
        match self {
            Opening::Claim(k) => {
                proof {
                    reveal_strlit("empty");
                    reveal_strlit("full");
                }
                let name = match k {
                    Claim::Empty => "empty",
                    Claim::Full => "full",
                };
                proof {
                    assert(name@ =~= claim_name(*k));
                }
                OpeningDoc::Claim(Some(name.to_string()))
            },
            Opening::Entries(es) => {
                let n = es.len();
                let mut ds: Vec<EntryDoc> = Vec::new();
                let mut i: usize = 0;
                while i < n
                    invariant
                        n == es@.len(),
                        *self == Opening::Entries(*es),
                        i <= n,
                        entries_read(ds@, es@.take(i as int)),
                    decreases n - i,
                {
                    let ghost t = es@.take(i + 1);
                    proof {
                        assert(t.drop_last() =~= es@.take(i as int));
                        assert(t.last() == es@[i as int]);
                    }
                    let ei = &es[i];
                    proof {
                        assert(*ei == es@[i as int]);
                    }
                    let d = match ei {
                        Entry::Hash(h) => {
                            proof {
                                lemma_hex_round_trip(h@);
                            }
                            EntryDoc::Hash(hex(h))
                        },
                        Entry::Open(o) => {
                            proof {
                                assert(decreases_to!(*self => self->Entries_0));
                                assert(decreases_to!(self->Entries_0 => es@));
                                assert(decreases_to!(es@ => es@[i as int]));
                            }
                            EntryDoc::Open(Box::new(o.to_doc()))
                        },
                    };
                    proof {
                        assert(entry_reads(d, es@[i as int]));
                    }
                    let ghost before = ds@;
                    ds.push(d);
                    proof {
                        assert(ds@.drop_last() =~= before);
                        assert(ds@.last() == d);
                        assert(entries_read(ds@, t));
                    }
                    i = i + 1;
                }
                proof {
                    assert(es@.take(n as int) =~= es@);
                }
                OpeningDoc::Entries(ds)
            },
        }
    }
}

/// An opening record as a document holds it; `None` where the field is absent or not of its type.
pub struct RecordDoc {
    pub v: Option<u64>,
    pub hash: Option<String>,
    pub a: Option<u64>,
    pub b: Option<u64>,
    pub d: Option<u64>,
    pub root: Option<String>,
    pub opening: Option<OpeningDoc>,
}

/// `A`, `B` and `D` as a document holds them are a shape `wire_shape` reads.
pub open spec fn shape_ok(a: Option<u64>, b: Option<u64>, d: Option<u64>) -> bool {
    &&& a matches Some(x) && x <= u32::MAX
    &&& b matches Some(y) && y <= u32::MAX
    &&& d matches Some(z) && z <= u32::MAX
    &&& spec_valid_shape(a->0 as u32, b->0 as u32, d->0 as u32)
}

/// The text of an optional string field; an absent one reads as empty.
pub open spec fn text_of(s: Option<String>) -> Seq<char> {
    match s {
        Some(t) => t@,
        None => Seq::empty(),
    }
}

/// The field holds a spelled digest.
pub open spec fn digest_field_ok(s: Option<String>) -> bool {
    s matches Some(t) && spells_digest(t@)
}

/// The field spells the digest `d`.
pub open spec fn digest_field_reads(s: Option<String>, d: Digest) -> bool {
    s matches Some(t) && spells(t@, d)
}

/// The field holds the spelling of the digest `d`.
pub open spec fn digest_field_written(s: Option<String>, d: Digest) -> bool {
    s matches Some(t) && t@ == spec_hex(d@)
}

/// The document reads as a record: version 1, a shape, a spelled root and an opening.
pub open spec fn record_ok(doc: RecordDoc) -> bool {
    &&& doc.v == Some(OPENING_WIRE_VERSION)
    &&& shape_ok(doc.a, doc.b, doc.d)
    &&& digest_field_ok(doc.root)
    &&& doc.opening matches Some(o) && opening_ok(o)
}

/// The document reads as the record `r`.
pub open spec fn record_reads(doc: RecordDoc, r: OpeningRecord) -> bool {
    &&& r.hash@ == text_of(doc.hash)
    &&& doc.a == Some(r.a as u64) && doc.b == Some(r.b as u64) && doc.d == Some(r.d as u64)
    &&& digest_field_reads(doc.root, r.root)
    &&& doc.opening matches Some(o) && opening_reads(o, r.opening)
}

/// The document is the one the record `r` writes.
pub open spec fn record_written(r: OpeningRecord, doc: RecordDoc) -> bool {
    &&& doc.v == Some(OPENING_WIRE_VERSION)
    &&& doc.hash matches Some(h) && h@ == r.hash@
    &&& doc.a == Some(r.a as u64) && doc.b == Some(r.b as u64) && doc.d == Some(r.d as u64)
    &&& digest_field_written(doc.root, r.root)
    &&& doc.opening matches Some(o) && opening_reads(o, r.opening)
}

/// The digest a field spells.
fn digest_from_field(s: &Option<String>) -> (r: Result<Digest>)
    ensures
        r is Ok <==> digest_field_ok(*s),
        r matches Ok(d) ==> digest_field_reads(*s, d),
{
    match s {
        Some(t) => match unhex(t.as_str()) {
            Some(d) => Ok(d),
            None => invalid("a digest is 64 lowercase hex digits"),
        },
        None => invalid("missing digest"),
    }
}

/// The text of an optional string field.
fn text_from_field(s: &Option<String>) -> (r: String)
    ensures
        r@ == text_of(*s),
{
    match s {
        Some(t) => t.clone(),
        None => String::new(),
    }
}

/// The version field is the one this crate reads.
fn version_ok(v: Option<u64>, want: u64) -> (r: bool)
    ensures
        r == (v == Some(want)),
{
    match v {
        Some(x) => x == want,
        None => false,
    }
}

impl OpeningRecord {
    /// The record a document reads as; refused when it does not read (another version, a shape
    /// `wire_shape` refuses, a root that is not a spelled digest, or no opening that reads).
    pub fn from_doc(doc: &RecordDoc) -> (r: Result<OpeningRecord>)
        ensures
            r is Ok <==> record_ok(*doc),
            r matches Ok(rec) ==> record_reads(*doc, rec),
    {
        if !version_ok(doc.v, OPENING_WIRE_VERSION) {
            return invalid("not a version 1 opening record");
        }
        let (a, b, d) = wire_shape(doc.a, doc.b, doc.d)?;
        let root = digest_from_field(&doc.root)?;
        let opening = match &doc.opening {
            Some(o) => Opening::from_doc(o)?,
            None => return invalid("missing opening"),
        };
        Ok(OpeningRecord { hash: text_from_field(&doc.hash), a, b, d, root, opening })
    }

    /// The document a record writes.
    pub fn to_doc(&self) -> (r: RecordDoc)
        ensures
            record_written(*self, r),
    {
        RecordDoc {
            v: Some(OPENING_WIRE_VERSION),
            hash: Some(self.hash.clone()),
            a: Some(self.a as u64),
            b: Some(self.b as u64),
            d: Some(self.d as u64),
            root: Some(hex(&self.root)),
            opening: Some(self.opening.to_doc()),
        }
    }
}

/// A record reads back as itself from the document it writes, and a record of a valid shape (every
/// record this crate makes) is never refused: the document reads, and whatever it reads as has the
/// record's fields and the same opening.
pub proof fn lemma_record_round_trip(r: OpeningRecord, doc: RecordDoc, back: OpeningRecord)
    requires
        record_written(r, doc),
        spec_valid_shape(r.a, r.b, r.d),
    ensures
        record_ok(doc),
        record_reads(doc, r),
        record_reads(doc, back) ==> back.hash@ == r.hash@ && back.a == r.a && back.b == r.b && back.d == r.d
            && back.root == r.root && same_opening(back.opening, r.opening),
{
    broadcast use vstd::array::group_array_axioms;
    lemma_hex_round_trip(r.root@);
    let o = doc.opening->0;
    lemma_reads_ok(o, r.opening);
    if record_reads(doc, back) {
        assert(back.root =~= r.root);
        lemma_one_reading(o, back.opening, r.opening);
    }
}

/// A step's `children` as a document holds them: absent, a list of steps, or something else.
pub enum ChildrenDoc {
    Absent,
    Steps(Vec<StepDoc>),
    NotSteps,
}

/// A step as a document holds it.
pub struct StepDoc {
    pub a: Option<String>,
    pub b: Option<String>,
    pub c: Option<String>,
    pub children: ChildrenDoc,
}

/// A set-operation proof as a document holds it; `None` where the field is absent or not of its
/// type (for `steps`, not a list).
pub struct ProofDoc {
    pub v: Option<u64>,
    pub op: Option<String>,
    pub hash: Option<String>,
    pub root_a: Option<String>,
    pub root_b: Option<String>,
    pub root_c: Option<String>,
    pub a: Option<u64>,
    pub b: Option<u64>,
    pub d: Option<u64>,
    pub steps: Option<Vec<StepDoc>>,
}

/// The document reads as a step: three spelled digests, and children absent or steps that read.
pub open spec fn step_ok(doc: StepDoc) -> bool
    decreases doc, 1nat,
{
    &&& digest_field_ok(doc.a) && digest_field_ok(doc.b) && digest_field_ok(doc.c)
    &&& match doc.children {
        ChildrenDoc::Absent => true,
        ChildrenDoc::Steps(ks) => steps_ok(ks@),
        ChildrenDoc::NotSteps => false,
    }
}

/// Every step reads.
pub open spec fn steps_ok(ds: Seq<StepDoc>) -> bool
    decreases ds, 0nat,
{
    if ds.len() == 0 {
        true
    } else {
        step_ok(ds.last()) && steps_ok(ds.drop_last())
    }
}

/// The document reads as the step `st`.
pub open spec fn step_reads(doc: StepDoc, st: Step) -> bool
    decreases doc, 1nat,
{
    &&& digest_field_reads(doc.a, st.a) && digest_field_reads(doc.b, st.b) && digest_field_reads(doc.c, st.c)
    &&& match doc.children {
        ChildrenDoc::Absent => st.children is None,
        ChildrenDoc::Steps(ks) => st.children matches Some(k) && steps_read(ks@, k@),
        ChildrenDoc::NotSteps => false,
    }
}

/// The steps read as `ss`, one for one.
pub open spec fn steps_read(ds: Seq<StepDoc>, ss: Seq<Step>) -> bool
    decreases ds, 0nat,
{
    if ds.len() == 0 {
        ss.len() == 0
    } else {
        ss.len() == ds.len() && step_reads(ds.last(), ss.last()) && steps_read(ds.drop_last(), ss.drop_last())
    }
}

/// The same step, node for node.
pub open spec fn same_step(s1: Step, s2: Step) -> bool
    decreases s1, 1nat,
{
    &&& s1.a == s2.a && s1.b == s2.b && s1.c == s2.c
    &&& match s1.children {
        None => s2.children is None,
        Some(k) => s2.children matches Some(l) && same_steps(k@, l@),
    }
}

/// The same steps, one for one.
pub open spec fn same_steps(ss: Seq<Step>, ts: Seq<Step>) -> bool
    decreases ss, 0nat,
{
    if ss.len() == 0 {
        ts.len() == 0
    } else {
        ts.len() == ss.len() && same_step(ss.last(), ts.last()) && same_steps(ss.drop_last(), ts.drop_last())
    }
}

/// Steps read exactly when each of them does.
proof fn lemma_steps_ok(ds: Seq<StepDoc>)
    ensures
        steps_ok(ds) <==> forall|i: int| 0 <= i < ds.len() ==> step_ok(#[trigger] ds[i]),
    decreases ds.len(),
{
    if ds.len() > 0 {
        let p = ds.drop_last();
        lemma_steps_ok(p);
        if steps_ok(ds) {
            assert forall|i: int| 0 <= i < ds.len() implies step_ok(#[trigger] ds[i]) by {
                if i < ds.len() - 1 {
                    assert(p[i] == ds[i]);
                    assert(step_ok(p[i]));
                }
            }
        }
        if forall|i: int| 0 <= i < ds.len() ==> step_ok(#[trigger] ds[i]) {
            assert forall|i: int| 0 <= i < p.len() implies step_ok(#[trigger] p[i]) by {
                assert(p[i] == ds[i]);
            }
            assert(step_ok(ds[ds.len() - 1]));
        }
    }
}

/// Steps read as `ss` exactly when each reads as its own.
proof fn lemma_steps_read(ds: Seq<StepDoc>, ss: Seq<Step>)
    ensures
        steps_read(ds, ss) <==> ds.len() == ss.len() && forall|i: int| 0 <= i < ds.len() ==> step_reads(#[trigger] ds[i], ss[i]),
    decreases ds.len(),
{
    if ds.len() > 0 && ss.len() == ds.len() {
        let p = ds.drop_last();
        let q = ss.drop_last();
        lemma_steps_read(p, q);
        if steps_read(ds, ss) {
            assert forall|i: int| 0 <= i < ds.len() implies step_reads(#[trigger] ds[i], ss[i]) by {
                if i < ds.len() - 1 {
                    assert(p[i] == ds[i] && q[i] == ss[i]);
                    assert(step_reads(p[i], q[i]));
                }
            }
        }
        if forall|i: int| 0 <= i < ds.len() ==> step_reads(#[trigger] ds[i], ss[i]) {
            assert forall|i: int| 0 <= i < p.len() implies step_reads(#[trigger] p[i], q[i]) by {
                assert(p[i] == ds[i] && q[i] == ss[i]);
            }
            assert(step_reads(ds[ds.len() - 1], ss[ss.len() - 1]));
        }
    }
}

/// Steps are the same when each is the same as its own.
proof fn lemma_same_steps(ss: Seq<Step>, ts: Seq<Step>)
    requires
        ss.len() == ts.len(),
        forall|i: int| 0 <= i < ss.len() ==> same_step(#[trigger] ss[i], ts[i]),
    ensures
        same_steps(ss, ts),
    decreases ss.len(),
{
    if ss.len() > 0 {
        let p = ss.drop_last();
        let q = ts.drop_last();
        assert forall|i: int| 0 <= i < p.len() implies same_step(#[trigger] p[i], q[i]) by {
            assert(p[i] == ss[i] && q[i] == ts[i]);
        }
        lemma_same_steps(p, q);
        assert(same_step(ss[ss.len() - 1], ts[ts.len() - 1]));
    }
}

/// A step document that reads as some step reads.
pub proof fn lemma_step_reads_ok(doc: StepDoc, st: Step)
    requires
        step_reads(doc, st),
    ensures
        step_ok(doc),
    decreases doc,
{
    if let ChildrenDoc::Steps(ks) = doc.children {
        let k = st.children->0@;
        lemma_steps_read(ks@, k);
        assert forall|i: int| 0 <= i < ks@.len() implies step_ok(#[trigger] ks@[i]) by {
            assert(decreases_to!(doc => doc.children));
            assert(decreases_to!(doc.children => ks));
            assert(decreases_to!(ks => ks@));
            assert(decreases_to!(ks@ => ks@[i]));
            lemma_step_reads_ok(ks@[i], k[i]);
        }
        lemma_steps_ok(ks@);
    }
}

/// A step document has one reading.
pub proof fn lemma_one_step_reading(doc: StepDoc, s1: Step, s2: Step)
    requires
        step_reads(doc, s1),
        step_reads(doc, s2),
    ensures
        same_step(s1, s2),
    decreases doc,
{
    broadcast use vstd::array::group_array_axioms;
    assert(s1.a =~= s2.a && s1.b =~= s2.b && s1.c =~= s2.c);
    if let ChildrenDoc::Steps(ks) = doc.children {
        let k = s1.children->0@;
        let l = s2.children->0@;
        lemma_steps_read(ks@, k);
        lemma_steps_read(ks@, l);
        assert forall|i: int| 0 <= i < k.len() implies same_step(#[trigger] k[i], l[i]) by {
            assert(decreases_to!(doc => doc.children));
            assert(decreases_to!(doc.children => ks));
            assert(decreases_to!(ks => ks@));
            assert(decreases_to!(ks@ => ks@[i]));
            lemma_one_step_reading(ks@[i], k[i], l[i]);
        }
        lemma_same_steps(k, l);
    }
}

/// Steps read from documents, in order; refused at the first that does not read.
fn steps_from_docs(ds: &Vec<StepDoc>) -> (r: Result<Vec<Step>>)
    ensures
        r is Ok <==> steps_ok(ds@),
        r matches Ok(ss) ==> steps_read(ds@, ss@),
    decreases ds@,
{
    let n = ds.len();
    let mut ss: Vec<Step> = Vec::new();
    let mut i: usize = 0;
    while i < n
        invariant
            n == ds@.len(),
            i <= n,
            steps_ok(ds@.take(i as int)),
            steps_read(ds@.take(i as int), ss@),
        decreases n - i,
    {
        let ghost t = ds@.take(i + 1);
        proof {
            assert(t.drop_last() =~= ds@.take(i as int));
            assert(t.last() == ds@[i as int]);
            assert(decreases_to!(ds@ => ds@[i as int]));
        }
        let st = match Step::from_doc(&ds[i]) {
            Ok(x) => x,
            Err(e) => {
                proof {
                    lemma_steps_ok(ds@);
                }
                return Err(e);
            },
        };
        let ghost before = ss@;
        ss.push(st);
        proof {
            assert(ss@.drop_last() =~= before);
            assert(ss@.last() == st);
            assert(steps_ok(t));
            assert(steps_read(t, ss@));
        }
        i = i + 1;
    }
    proof {
        assert(ds@.take(n as int) =~= ds@);
    }
    Ok(ss)
}

/// Documents written from steps, in order.
fn steps_to_docs(ss: &Vec<Step>) -> (r: Vec<StepDoc>)
    ensures
        steps_read(r@, ss@),
    decreases ss@,
{
    let n = ss.len();
    let mut ds: Vec<StepDoc> = Vec::new();
    let mut i: usize = 0;
    while i < n
        invariant
            n == ss@.len(),
            i <= n,
            steps_read(ds@, ss@.take(i as int)),
        decreases n - i,
    {
        let ghost t = ss@.take(i + 1);
        proof {
            assert(t.drop_last() =~= ss@.take(i as int));
            assert(t.last() == ss@[i as int]);
            assert(decreases_to!(ss@ => ss@[i as int]));
        }
        let d = ss[i].to_doc();
        let ghost before = ds@;
        ds.push(d);
        proof {
            assert(ds@.drop_last() =~= before);
            assert(ds@.last() == d);
            assert(steps_read(ds@, t));
        }
        i = i + 1;
    }
    proof {
        assert(ss@.take(n as int) =~= ss@);
    }
    ds
}

impl Step {
    /// The step a document reads as; refused when a digest is not spelled, or `children` is
    /// present and not a list of steps that read.
    pub fn from_doc(doc: &StepDoc) -> (r: Result<Step>)
        ensures
            r is Ok <==> step_ok(*doc),
            r matches Ok(st) ==> step_reads(*doc, st),
        decreases doc,
    {
        let children = match &doc.children {
            ChildrenDoc::Absent => None,
            ChildrenDoc::Steps(ks) => {
                proof {
                    assert(decreases_to!(*doc => doc.children));
                    assert(decreases_to!(doc.children => *ks));
                    assert(decreases_to!(*ks => ks@));
                }
                Some(steps_from_docs(ks)?)
            },
            ChildrenDoc::NotSteps => return invalid("children must be a list of steps"),
        };
        let a = digest_from_field(&doc.a)?;
        let b = digest_from_field(&doc.b)?;
        let c = digest_from_field(&doc.c)?;
        Ok(Step { a, b, c, children })
    }

    /// The document a step writes: it reads as this step.
    pub fn to_doc(&self) -> (r: StepDoc)
        ensures
            step_reads(r, *self),
        decreases self,
    {
        proof {
            lemma_hex_round_trip(self.a@);
            lemma_hex_round_trip(self.b@);
            lemma_hex_round_trip(self.c@);
        }
        let children = match &self.children {
            Some(k) => {
                proof {
                    assert(decreases_to!(*self => self.children));
                    assert(decreases_to!(self.children => *k));
                    assert(decreases_to!(*k => k@));
                }
                ChildrenDoc::Steps(steps_to_docs(k))
            },
            None => ChildrenDoc::Absent,
        };
        StepDoc { a: Some(hex(&self.a)), b: Some(hex(&self.b)), c: Some(hex(&self.c)), children }
    }
}

/// The document reads as a proof: version 1, an operation name, a shape, three spelled roots and
/// a list of steps that read.
pub open spec fn proof_ok(doc: ProofDoc) -> bool {
    &&& doc.v == Some(SETOP_WIRE_VERSION)
    &&& doc.op matches Some(o) && spec_op_parse(o@) is Some
    &&& shape_ok(doc.a, doc.b, doc.d)
    &&& digest_field_ok(doc.root_a) && digest_field_ok(doc.root_b) && digest_field_ok(doc.root_c)
    &&& doc.steps matches Some(ks) && steps_ok(ks@)
}

/// The document reads as the proof `p`.
pub open spec fn proof_reads(doc: ProofDoc, p: SetOpProof) -> bool {
    &&& doc.op matches Some(o) && spec_op_parse(o@) == Some(p.op)
    &&& p.hash@ == text_of(doc.hash)
    &&& doc.a == Some(p.a as u64) && doc.b == Some(p.b as u64) && doc.d == Some(p.d as u64)
    &&& digest_field_reads(doc.root_a, p.root_a) && digest_field_reads(doc.root_b, p.root_b)
        && digest_field_reads(doc.root_c, p.root_c)
    &&& doc.steps matches Some(ks) && steps_read(ks@, p.steps@)
}

/// The document is the one the proof `p` writes.
pub open spec fn proof_written(p: SetOpProof, doc: ProofDoc) -> bool {
    &&& doc.v == Some(SETOP_WIRE_VERSION)
    &&& doc.op matches Some(o) && o@ == spec_op_name(p.op)
    &&& doc.hash matches Some(h) && h@ == p.hash@
    &&& doc.a == Some(p.a as u64) && doc.b == Some(p.b as u64) && doc.d == Some(p.d as u64)
    &&& digest_field_written(doc.root_a, p.root_a) && digest_field_written(doc.root_b, p.root_b)
        && digest_field_written(doc.root_c, p.root_c)
    &&& doc.steps matches Some(ks) && steps_read(ks@, p.steps@)
}

impl SetOpProof {
    /// The proof a document reads as; refused when it does not read.
    pub fn from_doc(doc: &ProofDoc) -> (r: Result<SetOpProof>)
        ensures
            r is Ok <==> proof_ok(*doc),
            r matches Ok(p) ==> proof_reads(*doc, p),
    {
        if !version_ok(doc.v, SETOP_WIRE_VERSION) {
            return invalid("not a version 1 set-operation proof");
        }
        let op = match &doc.op {
            Some(o) => match Op::parse(o.as_str()) {
                Some(x) => x,
                None => return invalid("unknown operation"),
            },
            None => return invalid("missing operation"),
        };
        let (a, b, d) = wire_shape(doc.a, doc.b, doc.d)?;
        let steps = match &doc.steps {
            Some(ks) => steps_from_docs(ks)?,
            None => return invalid("missing steps"),
        };
        let root_a = digest_from_field(&doc.root_a)?;
        let root_b = digest_from_field(&doc.root_b)?;
        let root_c = digest_from_field(&doc.root_c)?;
        Ok(SetOpProof { op, hash: text_from_field(&doc.hash), root_a, root_b, root_c, a, b, d, steps })
    }

    /// The document a proof writes.
    pub fn to_doc(&self) -> (r: ProofDoc)
        ensures
            proof_written(*self, r),
    {
        ProofDoc {
            v: Some(SETOP_WIRE_VERSION),
            op: Some(self.op.name().to_string()),
            hash: Some(self.hash.clone()),
            root_a: Some(hex(&self.root_a)),
            root_b: Some(hex(&self.root_b)),
            root_c: Some(hex(&self.root_c)),
            a: Some(self.a as u64),
            b: Some(self.b as u64),
            d: Some(self.d as u64),
            steps: Some(steps_to_docs(&self.steps)),
        }
    }
}

/// A proof reads back as itself from the document it writes, and a proof of a valid shape is never
/// refused: the document reads, and whatever it reads as has the proof's fields and the same steps.
pub proof fn lemma_proof_round_trip(p: SetOpProof, doc: ProofDoc, back: SetOpProof)
    requires
        proof_written(p, doc),
        spec_valid_shape(p.a, p.b, p.d),
    ensures
        proof_ok(doc),
        proof_reads(doc, p),
        proof_reads(doc, back) ==> back.op == p.op && back.hash@ == p.hash@ && back.a == p.a && back.b == p.b
            && back.d == p.d && back.root_a == p.root_a && back.root_b == p.root_b && back.root_c == p.root_c
            && same_steps(back.steps@, p.steps@),
{
    broadcast use vstd::array::group_array_axioms;
    lemma_hex_round_trip(p.root_a@);
    lemma_hex_round_trip(p.root_b@);
    lemma_hex_round_trip(p.root_c@);
    assert(spec_op_parse(spec_op_name(p.op)) == Some(p.op));
    let ks = doc.steps->0@;
    lemma_steps_read(ks, p.steps@);
    assert forall|i: int| 0 <= i < ks.len() implies step_ok(#[trigger] ks[i]) by {
        lemma_step_reads_ok(ks[i], p.steps@[i]);
    }
    lemma_steps_ok(ks);
    if proof_reads(doc, back) {
        assert(back.root_a =~= p.root_a && back.root_b =~= p.root_b && back.root_c =~= p.root_c);
        lemma_steps_read(ks, back.steps@);
        assert forall|i: int| 0 <= i < ks.len() implies same_step(#[trigger] back.steps@[i], p.steps@[i]) by {
            lemma_one_step_reading(ks[i], back.steps@[i], p.steps@[i]);
        }
        lemma_same_steps(back.steps@, p.steps@);
    }
}

} // verus!
