//! An embeddable vector store: fixed-dimension vectors keyed by id, nearest
//! neighbour search under a configurable similarity metric, and
//! insert/delete under a dimension invariant.
//!
//! Vector components are IEEE-754 single-precision bit patterns (`u32`); see
//! `fp` for the scalar layer. The store keeps a flat record list and a
//! proximity graph in lockstep: after every completed insert or delete the
//! two hold exactly the same ids.

use vstd::prelude::*;

pub mod cli;
pub mod embedding;
pub mod fp;
pub mod npy;
pub mod processing;
pub mod rank;

use crate::embedding::{normalize, normalize_spec, score_spec, Metric};
use crate::fp::key;
use crate::processing::{has_node, HnswIndex, BRUTE_THRESHOLD};
use crate::rank::holds_pair;
use vstd::string::StringExecFns;
use vstd::string::StrSliceExecFns;

verus! {

/// Errors of the store. `PluginLoadError`, `StorageError` and `ConfigError`
/// are reserved for the persistence and plugin-loading collaborators and are
/// not produced by the core.
#[derive(Debug)]
pub enum VecBaseError {
    DimensionMismatch { expected: usize, got: usize },
    NotFound { id: String },
    PluginLoadError(String),
    StorageError(String),
    ConfigError(String),
}

/// Decimal ASCII digit bytes of a number, most significant first.
pub open spec fn byte_digits(n: nat) -> Seq<u8>
    decreases n,
{
    if n < 10 {
        seq![(48 + n) as u8]
    } else {
        byte_digits(n / 10).push((48 + (n % 10)) as u8)
    }
}

/// Decimal digit characters of a number, most significant first.
pub open spec fn dec_digits(n: nat) -> Seq<char> {
    byte_digits(n).map_values(|b: u8| b as char)
}

/// Every decimal digit byte is an ASCII code.
proof fn lemma_byte_digits_ascii(n: nat)
    ensures
        forall|k: int| 0 <= k < byte_digits(n).len() ==> 48 <= #[trigger] byte_digits(n)[k] < 58,
    decreases n,
{
    if n >= 10 {
        lemma_byte_digits_ascii(n / 10);
        assert forall|k: int| 0 <= k < byte_digits(n).len() implies 48 <= #[trigger] byte_digits(
            n,
        )[k] < 58 by {
            if k < byte_digits(n / 10).len() {
                assert(byte_digits(n)[k] == byte_digits(n / 10)[k]);
            } else {
                assert(byte_digits(n)[k] == (48 + (n % 10)) as u8);
            }
        }
    } else {
        assert(byte_digits(n) == seq![(48 + n) as u8]);
        assert(byte_digits(n)[0] == (48 + n) as u8);
    }
}

/// Relies on std's `String::from_utf8`: bytes below 0x80 are ASCII and
/// decode one byte to one char of the same code.
#[verifier::external_body]
pub(crate) fn ascii_to_string(b: &Vec<u8>) -> (r: String)
    requires
        forall|i: int| 0 <= i < b@.len() ==> b@[i] < 0x80,
    ensures
        r@.len() == b@.len(),
        forall|i: int| 0 <= i < b@.len() ==> r@[i] == b@[i] as char,
{
    match String::from_utf8(b.clone()) {
        Ok(s) => s,
        Err(_) => String::new(),
    }
}

/// Append the decimal digits of a number to a byte buffer.
fn push_digits(n: usize, out: &mut Vec<u8>)
    ensures
        final(out)@ == old(out)@ + byte_digits(n as nat),
    decreases n,
{
    let ghost out0 = out@;
    if n >= 10 {
        push_digits(n / 10, out);
    }
    let d: u8 = (n % 10) as u8;
    out.push(48 + d);
    proof {
        if n >= 10 {
            assert(out@ =~= out0 + byte_digits(n as nat));
        } else {
            assert(out@ =~= out0 + byte_digits(n as nat));
        }
    }
}

/// The decimal representation of a number.
pub fn usize_to_string(n: usize) -> (r: String)
    ensures
        r@ == dec_digits(n as nat),
{
    let mut buf: Vec<u8> = Vec::new();
    push_digits(n, &mut buf);
    proof {
        lemma_byte_digits_ascii(n as nat);
    }
    let s = ascii_to_string(&buf);
    proof {
        assert(s@ =~= dec_digits(n as nat));
    }
    s
}

/// The message of a dimension-mismatch failure.
pub open spec fn dim_mismatch_msg(expected: nat, got: nat) -> Seq<char> {
    "Dimension mismatch: expected "@ + dec_digits(expected) + ", got "@ + dec_digits(got)
}

impl VecBaseError {
    /// The text of each error.
    pub open spec fn message_spec(&self) -> Seq<char> {
        match self {
            VecBaseError::DimensionMismatch { expected, got } => dim_mismatch_msg(
                *expected as nat,
                *got as nat,
            ),
            VecBaseError::NotFound { id } => "Record not found: "@ + id@,
            VecBaseError::PluginLoadError(s) => "Plugin load error: "@ + s@,
            VecBaseError::StorageError(s) => "Storage error: "@ + s@,
            VecBaseError::ConfigError(s) => "Configuration error: "@ + s@,
        }
    }

    /// Render the error as human-readable text.
    pub fn message(&self) -> (r: String)
        ensures
            r@ == self.message_spec(),
    {
        match self {
            VecBaseError::DimensionMismatch { expected, got } => {
                let mut s = "Dimension mismatch: expected ".to_owned();
                let e = usize_to_string(*expected);
                s.append(e.as_str());
                s.append(", got ");
                let g = usize_to_string(*got);
                s.append(g.as_str());
                s
            },
            VecBaseError::NotFound { id } => {
                let mut s = "Record not found: ".to_owned();
                s.append(id.as_str());
                s
            },
            VecBaseError::PluginLoadError(m) => {
                let mut s = "Plugin load error: ".to_owned();
                s.append(m.as_str());
                s
            },
            VecBaseError::StorageError(m) => {
                let mut s = "Storage error: ".to_owned();
                s.append(m.as_str());
                s
            },
            VecBaseError::ConfigError(m) => {
                let mut s = "Configuration error: ".to_owned();
                s.append(m.as_str());
                s
            },
        }
    }
}

/// Store configuration. An unrecognized metric string means cosine;
/// `storage_path` is reserved for a persistence collaborator and unused by
/// the core.
#[derive(Debug, Clone)]
pub struct VecBaseConfig {
    /// Dimensionality of all stored vectors
    pub dim: usize,
    /// Similarity metric: "cosine", "euclidean" or "dot"
    pub metric: String,
    /// Hard capacity ceiling: an insert of a fresh id past it is dropped
    pub max_elements: usize,
    /// Path for optional persistence (unused by the core)
    pub storage_path: String,
}

impl Default for VecBaseConfig {
    fn default() -> (r: Self)
        ensures
            r.dim == 128,
            r.metric@ == "cosine"@,
            r.max_elements == 1000000,
            r.storage_path@ == "./data"@,
    {
        VecBaseConfig {
            dim: 128,
            metric: "cosine".to_owned(),
            max_elements: 1000000,
            storage_path: "./data".to_owned(),
        }
    }
}

/// A single stored vector record.
#[derive(Debug, Clone)]
pub struct VecRecord {
    pub id: String,
    pub vector: Vec<u32>,
    pub metadata: Option<String>,
}

/// A single search result.
#[derive(Debug, Clone)]
pub struct SearchResult {
    pub id: String,
    pub score: u32,
    pub metadata: Option<String>,
}

/// The view of an optional string.
pub open spec fn opt_str_view(s: Option<String>) -> Option<Seq<char>> {
    match s {
        Some(s) => Some(s@),
        None => None,
    }
}

/// The metric a configuration string names: unrecognized strings mean
/// cosine.
pub open spec fn metric_of(s: Seq<char>) -> Metric {
    if s == "euclidean"@ {
        Metric::Euclidean
    } else if s == "dot"@ {
        Metric::DotProduct
    } else {
        Metric::Cosine
    }
}

/// What the store keeps for a vector handed to it: the normalized vector
/// under the cosine metric, the vector verbatim otherwise.
pub open spec fn stored_spec(m: Metric, v: Seq<u32>) -> Seq<u32> {
    if m == Metric::Cosine {
        normalize_spec(v)
    } else {
        v
    }
}

/// Some record carries this id.
pub open spec fn has_record(rs: Seq<VecRecord>, id: Seq<char>) -> bool {
    exists|i: int| 0 <= i < rs.len() && rs[i].id@ == id
}

/// The index of the record carrying this id (meaningful under
/// `records_distinct` when `has_record` holds).
pub open spec fn record_index(rs: Seq<VecRecord>, id: Seq<char>) -> int {
    choose|i: int| 0 <= i < rs.len() && rs[i].id@ == id
}

/// The record carrying this id.
pub open spec fn record_at(rs: Seq<VecRecord>, id: Seq<char>) -> VecRecord {
    rs[record_index(rs, id)]
}

/// All record ids are pairwise distinct.
pub open spec fn records_distinct(rs: Seq<VecRecord>) -> bool {
    forall|i: int, j: int| 0 <= i < j < rs.len() ==> rs[i].id@ != rs[j].id@
}

/// Under distinct ids, a record is the one found at its own id.
proof fn lemma_record_index_of(rs: Seq<VecRecord>, j: int)
    requires
        records_distinct(rs),
        0 <= j < rs.len(),
    ensures
        has_record(rs, rs[j].id@),
        record_index(rs, rs[j].id@) == j,
{
    assert(has_record(rs, rs[j].id@));
    let i = record_index(rs, rs[j].id@);
    if i != j {
        if i < j {
            assert(rs[i].id@ != rs[j].id@);
        } else {
            assert(rs[j].id@ != rs[i].id@);
        }
    }
}

/// A record list that changed at one position only keeps every other record
/// findable at the same place.
proof fn lemma_record_at_same(rs0: Seq<VecRecord>, rs1: Seq<VecRecord>, ch: int, y: Seq<char>)
    requires
        records_distinct(rs0),
        records_distinct(rs1),
        rs0.len() <= rs1.len(),
        0 <= ch <= rs0.len(),
        forall|w: int| 0 <= w < rs0.len() && w != ch ==> rs1[w] == rs0[w],
        has_record(rs0, y),
        record_index(rs0, y) != ch,
    ensures
        has_record(rs1, y),
        record_at(rs1, y) == record_at(rs0, y),
{
    let w = record_index(rs0, y);
    assert(rs1[w] == rs0[w]);
    lemma_record_index_of(rs1, w);
}

/// Removing one record keeps every other record findable.
proof fn lemma_record_at_removed(rs0: Seq<VecRecord>, rs1: Seq<VecRecord>, ri: int, y: Seq<char>)
    requires
        records_distinct(rs0),
        records_distinct(rs1),
        0 <= ri < rs0.len(),
        rs1 == rs0.remove(ri),
        has_record(rs0, y),
        rs0[ri].id@ != y,
    ensures
        has_record(rs1, y),
        record_at(rs1, y) == record_at(rs0, y),
{
    let w = record_index(rs0, y);
    if w < ri {
        assert(rs1[w] == rs0[w]);
        lemma_record_index_of(rs1, w);
    } else {
        assert(w != ri);
        assert(rs1[w - 1] == rs0[w]);
        lemma_record_index_of(rs1, w - 1);
    }
}

/// Find the position of the record carrying this id.
fn find_record(rs: &Vec<VecRecord>, id: &String) -> (r: Option<usize>)
    ensures
        match r {
            Some(i) => i < rs@.len() && rs@[i as int].id@ == id@,
            None => !has_record(rs@, id@),
        },
{
    let mut i: usize = 0;
    while i < rs.len()
        invariant
            i <= rs@.len(),
            forall|j: int| 0 <= j < i ==> rs@[j].id@ != id@,
        decreases rs@.len() - i,
    {
        if rs[i].id == *id {
            return Some(i);
        }
        i = i + 1;
    }
    None
}

/// Fresh copy of a bit-pattern vector.
pub fn copy_bits(v: &Vec<u32>) -> (r: Vec<u32>)
    ensures
        r@ == v@,
{
    let mut out: Vec<u32> = Vec::new();
    let mut i: usize = 0;
    while i < v.len()
        invariant
            i <= v@.len(),
            out@ == v@.take(i as int),
        decreases v@.len() - i,
    {
        out.push(v[i]);
        i = i + 1;
    }
    proof {
        assert(out@ == v@);
    }
    out
}

/// Character-by-character string equality.
pub fn str_eq_chars(a: &str, b: &str) -> (r: bool)
    ensures
        r == (a@ == b@),
{
    let la = a.unicode_len();
    let lb = b.unicode_len();
    if la != lb {
        return false;
    }
    let mut i: usize = 0;
    while i < la
        invariant
            i <= la,
            la == a@.len(),
            la == b@.len(),
            forall|j: int| 0 <= j < i ==> a@[j] == b@[j],
        decreases la - i,
    {
        if a.get_char(i) != b.get_char(i) {
            return false;
        }
        i = i + 1;
    }
    proof {
        assert(a@ =~= b@);
    }
    true
}

/// The main store: the id-to-record list and the proximity graph, kept in
/// lockstep, plus the configuration and the metric it names.
pub struct VecBase {
    pub config: VecBaseConfig,
    pub records: Vec<VecRecord>,
    pub index: HnswIndex,
    pub metric: Metric,
}

impl VecBase {
    /// Structural invariant: the graph is well formed and configured like
    /// the store, record ids are unique and dimensioned, and the record list
    /// and the graph hold exactly the same ids with identical stored
    /// vectors.
    pub open spec fn wf(&self) -> bool {
        &&& self.index.wf()
        &&& self.index.dim == self.config.dim
        &&& self.index.max_elements == self.config.max_elements
        &&& self.metric == metric_of(self.config.metric@)
        &&& records_distinct(self.records@)
        &&& forall|i: int|
            0 <= i < self.records@.len() ==> (#[trigger] self.records@[i]).vector@.len()
                == self.config.dim
        &&& forall|i: int|
            0 <= i < self.records@.len() ==> has_node(
                self.index.nodes@,
                (#[trigger] self.records@[i]).id@,
            )
        &&& forall|j: int|
            0 <= j < self.index.nodes@.len() ==> has_record(
                self.records@,
                (#[trigger] self.index.nodes@[j]).id@,
            )
        &&& forall|j: int|
            0 <= j < self.index.nodes@.len() ==> (#[trigger] self.index.nodes@[j]).vector@
                == record_at(self.records@, self.index.nodes@[j].id@).vector@
        &&& self.records@.len() == self.index.nodes@.len()
    }

    /// Create a new store with the given configuration.
    pub fn new(config: VecBaseConfig) -> (r: Self)
        ensures
            r.wf(),
            r.config == config,
            r.records@.len() == 0,
            r.metric == metric_of(config.metric@),
    {
        let metric = if str_eq_chars(config.metric.as_str(), "euclidean") {
            Metric::Euclidean
        } else if str_eq_chars(config.metric.as_str(), "dot") {
            Metric::DotProduct
        } else {
            Metric::Cosine
        };
        let index = HnswIndex::new(config.dim, config.max_elements);
        VecBase { config, records: Vec::new(), index, metric }
    }

    /// Return the total number of stored vectors (the record count, which
    /// always equals the graph's node count).
    pub fn len(&self) -> (r: usize)
        ensures
            r == self.records@.len(),
    {
        self.records.len()
    }

    pub fn is_empty(&self) -> (r: bool)
        ensures
            r == (self.records@.len() == 0),
    {
        self.records.len() == 0
    }

    /// Insert a vector record.
    ///
    /// A vector of the wrong length is rejected with `DimensionMismatch` and
    /// the store is left entirely unmodified. A fresh id arriving when the
    /// store already holds `max_elements` records is silently dropped (the
    /// call still succeeds). Otherwise the vector is normalized when the
    /// metric is cosine and stored verbatim otherwise, and the record is
    /// written — a full replace for an existing id, never a merge — into the
    /// record list and the graph together.
    pub fn insert(&mut self, id: String, vector: Vec<u32>, metadata: Option<String>) -> (r: Result<
        (),
        VecBaseError,
    >)
        requires
            old(self).wf(),
        ensures
            final(self).wf(),
            final(self).config == old(self).config,
            final(self).metric == old(self).metric,
            vector@.len() != old(self).config.dim ==> *final(self) == *old(self) && (
            r matches Err(VecBaseError::DimensionMismatch { expected, got }) && expected == old(
                self,
            ).config.dim && got == vector@.len()),
            vector@.len() == old(self).config.dim ==> r is Ok,
            vector@.len() == old(self).config.dim && !has_record(old(self).records@, id@) && old(
                self,
            ).records@.len() >= old(self).config.max_elements ==> *final(self) == *old(self),
            vector@.len() == old(self).config.dim && (has_record(old(self).records@, id@) || old(
                self,
            ).records@.len() < old(self).config.max_elements) ==> {
                &&& has_record(final(self).records@, id@)
                &&& record_at(final(self).records@, id@).vector@ == stored_spec(
                    old(self).metric,
                    vector@,
                )
                &&& opt_str_view(record_at(final(self).records@, id@).metadata) == opt_str_view(
                    metadata,
                )
                &&& final(self).records@.len() == old(self).records@.len() + (
                if has_record(old(self).records@, id@) {
                    0int
                } else {
                    1int
                })
                &&& forall|y: Seq<char>|
                    y != id@ ==> (has_record(final(self).records@, y) <==> has_record(
                        old(self).records@,
                        y,
                    ))
                &&& forall|y: Seq<char>|
                    y != id@ && has_record(old(self).records@, y) ==> record_at(
                        final(self).records@,
                        y,
                    ).vector@ == record_at(old(self).records@, y).vector@ && opt_str_view(
                        record_at(final(self).records@, y).metadata,
                    ) == opt_str_view(record_at(old(self).records@, y).metadata)
            },
    {
        if vector.len() != self.config.dim {
            return Err(
                VecBaseError::DimensionMismatch { expected: self.config.dim, got: vector.len() },
            );
        }
        let stored = if self.metric == Metric::Cosine {
            normalize(&vector)
        } else {
            copy_bits(&vector)
        };
        proof {
            assert(stored@ == stored_spec(self.metric, vector@));
        }
        let stored2 = copy_bits(&stored);
        let rix = find_record(&self.records, &id);
        if rix.is_none() && self.records.len() >= self.config.max_elements {
            return Ok(());
        }
        let ghost rs0 = self.records@;
        let ghost ns0 = self.index.nodes@;
        let ghost gid: String = id;
        let ghost sv: Seq<u32> = stored@;
        let ghost gmeta: Option<String> = metadata;
        match rix {
            Some(ri) => {
                proof {
                    lemma_record_index_of(rs0, ri as int);
                }
                self.records[ri].vector = stored;
                self.records[ri].metadata = metadata;
            },
            None => {
                self.records.push(VecRecord { id: id.clone(), vector: stored, metadata });
            },
        }
        let ghost rs1 = self.records@;
        proof {
            if has_record(rs0, id@) {
                let ri = record_index(rs0, id@);
                assert forall|i1: int, j1: int| 0 <= i1 < j1 < rs1.len() implies rs1[i1].id@
                    != rs1[j1].id@ by {
                    assert(rs0[i1].id@ != rs0[j1].id@);
                }
            } else {
                assert forall|i1: int, j1: int| 0 <= i1 < j1 < rs1.len() implies rs1[i1].id@
                    != rs1[j1].id@ by {
                    if j1 < rs0.len() {
                        assert(rs0[i1].id@ != rs0[j1].id@);
                    } else {
                        if rs1[i1].id@ == id@ {
                            assert(has_record(rs0, id@));
                        }
                    }
                }
            }
            // has_node for the old graph still covers every old record
            assert(has_node(ns0, id@) == has_record(rs0, id@)) by {
                if has_record(rs0, id@) {
                    let w = record_index(rs0, id@);
                    assert(has_node(ns0, rs0[w].id@));
                }
                if has_node(ns0, id@) {
                    let w = choose|w: int| 0 <= w < ns0.len() && ns0[w].id@ == id@;
                    assert(has_record(rs0, ns0[w].id@));
                }
            }
        }
        self.index.insert(id, stored2);
        proof {
            let ns2 = self.index.nodes@;
            let dim = self.config.dim;
            if has_record(rs0, id@) {
                // replace in place, both sides
                let x = crate::processing::node_index(ns0, id@);
                let ri = record_index(rs0, id@);
                assert(rs1[ri].id@ == id@ && rs1[ri].vector@ == sv && rs1[ri].metadata == gmeta);
                lemma_record_index_of(rs1, ri);
                assert forall|y: Seq<char>| y != id@ && has_record(rs0, y) implies has_record(
                    rs1,
                    y,
                ) && record_at(rs1, y) == record_at(rs0, y) by {
                    let w = record_index(rs0, y);
                    if w == ri {
                        assert(rs0[w].id@ == y);
                    }
                    lemma_record_at_same(rs0, rs1, ri, y);
                }
                assert forall|y: Seq<char>| y != id@ && has_record(rs1, y) implies has_record(
                    rs0,
                    y,
                ) by {
                    let w = record_index(rs1, y);
                    assert(rs0[w].id@ == y);
                }
                // node ids and vectors line up with the records again
                assert forall|j: int| 0 <= j < ns2.len() implies has_record(
                    rs1,
                    (#[trigger] ns2[j]).id@,
                ) && ns2[j].vector@ == record_at(rs1, ns2[j].id@).vector@ by {
                    if j == x {
                        assert(ns2[j].id@ == id@);
                        assert(ns2[j].vector@ == sv);
                    } else {
                        assert(crate::processing::kept_or_backlinked(
                            ns0[j],
                            ns2[j],
                            gid,
                            old(self).index.m,
                        ));
                        assert(ns2[j].id@ == ns0[j].id@ && ns2[j].vector@ == ns0[j].vector@);
                        assert(ns0[j].id@ != id@) by {
                            if ns0[j].id@ == id@ {
                                crate::processing::lemma_node_index_of(ns0, j);
                            }
                        }
                        assert(has_record(rs0, ns0[j].id@));
                        lemma_record_at_same(rs0, rs1, ri, ns0[j].id@);
                    }
                }
                assert forall|i2: int| 0 <= i2 < rs1.len() implies has_node(
                    ns2,
                    (#[trigger] rs1[i2]).id@,
                ) by {
                    assert(has_node(ns0, rs0[i2].id@));
                    let w = choose|w: int| 0 <= w < ns0.len() && ns0[w].id@ == rs0[i2].id@;
                    assert(ns2[w].id@ == ns0[w].id@);
                }
            } else {
                // append on both sides
                let newpos = rs0.len() as int;
                assert(rs1[newpos].id@ == id@ && rs1[newpos].vector@ == sv && rs1[newpos].metadata
                    == gmeta);
                lemma_record_index_of(rs1, newpos);
                assert forall|y: Seq<char>| y != id@ && has_record(rs0, y) implies has_record(
                    rs1,
                    y,
                ) && record_at(rs1, y) == record_at(rs0, y) by {
                    let w = record_index(rs0, y);
                    if w == newpos {
                        assert(rs0[w].id@ == y);
                    }
                    lemma_record_at_same(rs0, rs1, newpos, y);
                }
                assert forall|y: Seq<char>| y != id@ && has_record(rs1, y) implies has_record(
                    rs0,
                    y,
                ) by {
                    let w = record_index(rs1, y);
                    assert(w != newpos);
                    assert(rs0[w].id@ == y);
                }
                assert forall|j: int| 0 <= j < ns2.len() implies has_record(
                    rs1,
                    (#[trigger] ns2[j]).id@,
                ) && ns2[j].vector@ == record_at(rs1, ns2[j].id@).vector@ by {
                    if j == ns2.len() - 1 {
                        assert(ns2[j].id@ == id@);
                        assert(ns2[j].vector@ == sv);
                        assert(record_at(rs1, id@) == rs1[newpos]);
                    } else {
                        assert(crate::processing::kept_or_backlinked(
                            ns0[j],
                            ns2[j],
                            gid,
                            old(self).index.m,
                        ));
                        assert(ns2[j].id@ == ns0[j].id@ && ns2[j].vector@ == ns0[j].vector@);
                        assert(ns0[j].id@ != id@) by {
                            if ns0[j].id@ == id@ {
                                assert(has_node(ns0, id@));
                            }
                        }
                        assert(has_record(rs0, ns0[j].id@));
                        lemma_record_at_same(rs0, rs1, newpos, ns0[j].id@);
                    }
                }
                assert forall|i2: int| 0 <= i2 < rs1.len() implies has_node(
                    ns2,
                    (#[trigger] rs1[i2]).id@,
                ) by {
                    if i2 < rs0.len() {
                        assert(has_node(ns0, rs0[i2].id@));
                        let w = choose|w: int| 0 <= w < ns0.len() && ns0[w].id@ == rs0[i2].id@;
                        assert(ns2[w].id@ == ns0[w].id@);
                    } else {
                        assert(ns2[ns2.len() - 1].id@ == id@);
                    }
                }
            }
        }
        Ok(())
    }

    /// Delete a record by id: fails with `NotFound` when the id is absent,
    /// otherwise removes it from the record list and the graph together.
    pub fn delete(&mut self, id: &str) -> (r: Result<(), VecBaseError>)
        requires
            old(self).wf(),
        ensures
            final(self).wf(),
            final(self).config == old(self).config,
            final(self).metric == old(self).metric,
            !has_record(old(self).records@, id@) ==> *final(self) == *old(self) && (
            r matches Err(VecBaseError::NotFound { id: e }) && e@ == id@),
            has_record(old(self).records@, id@) ==> {
                &&& r is Ok
                &&& !has_record(final(self).records@, id@)
                &&& final(self).records@.len() == old(self).records@.len() - 1
                &&& forall|y: Seq<char>|
                    y != id@ ==> (has_record(final(self).records@, y) <==> has_record(
                        old(self).records@,
                        y,
                    ))
                &&& forall|y: Seq<char>|
                    y != id@ && has_record(old(self).records@, y) ==> record_at(
                        final(self).records@,
                        y,
                    ).vector@ == record_at(old(self).records@, y).vector@ && opt_str_view(
                        record_at(final(self).records@, y).metadata,
                    ) == opt_str_view(record_at(old(self).records@, y).metadata)
            },
    {
        let key_id: String = id.to_owned();
        let rix = find_record(&self.records, &key_id);
        let ri = match rix {
            Some(ri) => ri,
            None => {
                return Err(VecBaseError::NotFound { id: key_id });
            },
        };
        let ghost rs0 = self.records@;
        let ghost ns0 = self.index.nodes@;
        proof {
            lemma_record_index_of(rs0, ri as int);
            assert(has_node(ns0, rs0[ri as int].id@));
        }
        self.records.remove(ri);
        self.index.remove(id);
        proof {
            let rs1 = self.records@;
            let ns2 = self.index.nodes@;
            let rii = ri as int;
            assert forall|i1: int, j1: int| 0 <= i1 < j1 < rs1.len() implies rs1[i1].id@
                != rs1[j1].id@ by {
                let oi = if i1 < rii {
                    i1
                } else {
                    i1 + 1
                };
                let oj = if j1 < rii {
                    j1
                } else {
                    j1 + 1
                };
                assert(rs1[i1] == rs0[oi] && rs1[j1] == rs0[oj]);
                assert(rs0[oi].id@ != rs0[oj].id@);
            }
            assert forall|i1: int| 0 <= i1 < rs1.len() implies (#[trigger] rs1[i1]).id@ != id@
                && rs1[i1].vector@.len() == self.config.dim by {
                let oi = if i1 < rii {
                    i1
                } else {
                    i1 + 1
                };
                assert(rs1[i1] == rs0[oi]);
                if oi < rii {
                    assert(rs0[oi].id@ != rs0[rii].id@);
                } else {
                    assert(rs0[rii].id@ != rs0[oi].id@);
                }
            }
            assert(!has_record(rs1, id@));
            let x = crate::processing::node_index(ns0, id@);
            assert forall|y: Seq<char>| y != id@ && has_record(rs0, y) implies has_record(rs1, y)
                && record_at(rs1, y) == record_at(rs0, y) by {
                lemma_record_at_removed(rs0, rs1, rii, y);
            }
            assert forall|y: Seq<char>| has_record(rs1, y) implies has_record(rs0, y) by {
                let w = record_index(rs1, y);
                let oi = if w < rii {
                    w
                } else {
                    w + 1
                };
                assert(rs1[w] == rs0[oi]);
            }
            // every remaining record has a node, and the other way round
            assert forall|i1: int| 0 <= i1 < rs1.len() implies has_node(
                ns2,
                (#[trigger] rs1[i1]).id@,
            ) by {
                let oi = if i1 < rii {
                    i1
                } else {
                    i1 + 1
                };
                assert(rs1[i1] == rs0[oi]);
                assert(has_node(ns0, rs0[oi].id@));
            }
            assert forall|j1: int| 0 <= j1 < ns2.len() implies has_record(
                rs1,
                (#[trigger] ns2[j1]).id@,
            ) && ns2[j1].vector@ == record_at(rs1, ns2[j1].id@).vector@ by {
                let oi = if j1 < x {
                    j1
                } else {
                    j1 + 1
                };
                assert(ns2[j1].id == ns0[oi].id && ns2[j1].vector == ns0[oi].vector);
                assert(!has_node(ns2, id@));
                assert(ns2[j1].id@ != id@);
                assert(has_record(rs0, ns0[oi].id@));
                lemma_record_at_removed(rs0, rs1, rii, ns0[oi].id@);
                assert(ns0[oi].vector@ == record_at(rs0, ns0[oi].id@).vector@);
            }
        }
        Ok(())
    }

    /// Search for the `top_k` nearest neighbours of the query.
    ///
    /// A query of the wrong length yields an empty list — not an error, an
    /// intentional asymmetry with insert's hard failure. Otherwise the query
    /// is normalized when the metric is cosine, ranked against the graph,
    /// and each returned id joined with its record's metadata. Results come
    /// sorted descending by score in the IEEE-754 total order; while the
    /// store holds at most `BRUTE_THRESHOLD` records the list is the exact
    /// top `top_k`, and a `top_k` covering the whole store returns every id.
    pub fn search(&self, query: &Vec<u32>, top_k: usize) -> (r: Vec<SearchResult>)
        requires
            self.wf(),
        ensures
            query@.len() != self.config.dim ==> r@.len() == 0,
            query@.len() == self.config.dim ==> {
                &&& r@.len() <= top_k
                &&& (self.records@.len() > 0 && top_k > 0) ==> r@.len() > 0
                &&& forall|i: int, j: int|
                    0 <= i < j < r@.len() ==> key(r@[i].score) >= key(r@[j].score)
                &&& forall|i: int, j: int| 0 <= i < j < r@.len() ==> r@[i].id@ != r@[j].id@
                &&& forall|i: int|
                    0 <= i < r@.len() ==> has_record(self.records@, (#[trigger] r@[i]).id@)
                        && r@[i].score == score_spec(
                        self.metric,
                        stored_spec(self.metric, query@),
                        record_at(self.records@, r@[i].id@).vector@,
                    ) && opt_str_view(r@[i].metadata) == opt_str_view(
                        record_at(self.records@, r@[i].id@).metadata,
                    )
                &&& self.records@.len() <= BRUTE_THRESHOLD ==> r@.len() == (
                if top_k <= self.records@.len() {
                    top_k as int
                } else {
                    self.records@.len() as int
                })
                &&& (self.records@.len() <= BRUTE_THRESHOLD && top_k >= self.records@.len())
                    ==> forall|t: int|
                    0 <= t < self.records@.len() ==> exists|i: int|
                        0 <= i < r@.len() && r@[i].id@ == (#[trigger] self.records@[t]).id@
                &&& (self.records@.len() <= BRUTE_THRESHOLD && top_k > 0) ==> forall|t: int|
                    0 <= t < self.records@.len() && !(exists|i: int|
                        0 <= i < r@.len() && r@[i].id@ == (#[trigger] self.records@[t]).id@)
                        ==> r@.len() > 0 && key(
                        score_spec(
                            self.metric,
                            stored_spec(self.metric, query@),
                            self.records@[t].vector@,
                        ),
                    ) <= key(r@[r@.len() - 1].score)
            },
    {
        if query.len() != self.config.dim {
            return Vec::new();
        }
        let q = if self.metric == Metric::Cosine {
            normalize(query)
        } else {
            copy_bits(query)
        };
        let pairs = self.index.search(&q, top_k, &self.metric);
        let ghost ps = pairs@;
        let ghost ns = self.index.nodes@;
        let mut out: Vec<SearchResult> = Vec::new();
        let mut i: usize = 0;
        while i < pairs.len()
            invariant
                i <= ps.len(),
                pairs@ == ps,
                self.wf(),
                q@ == stored_spec(self.metric, query@),
                crate::processing::pairs_valid(ps, ns, self.metric, q@),
                ns == self.index.nodes@,
                out@.len() == i,
                forall|t: int|
                    0 <= t < i ==> (#[trigger] out@[t]).id@ == ps[t].0@ && out@[t].score
                        == ps[t].1 && has_record(self.records@, ps[t].0@) && opt_str_view(
                        out@[t].metadata,
                    ) == opt_str_view(record_at(self.records@, ps[t].0@).metadata),
            decreases ps.len() - i,
        {
            let rid = &pairs[i].0;
            match find_record(&self.records, rid) {
                Some(ri) => {
                    proof {
                        lemma_record_index_of(self.records@, ri as int);
                    }
                    let md = match &self.records[ri].metadata {
                        Some(s) => Some(s.clone()),
                        None => None,
                    };
                    out.push(SearchResult { id: rid.clone(), score: pairs[i].1, metadata: md });
                },
                None => {
                    proof {
                        // the graph never names an id the record list lacks
                        assert(has_node(ns, ps[i as int].0@));
                        let w = choose|w: int| 0 <= w < ns.len() && ns[w].id@ == ps[i as int].0@;
                        assert(has_record(self.records@, ns[w].id@));
                        assert(false);
                    }
                },
            }
            i = i + 1;
        }
        proof {
            // scores over node vectors are scores over record vectors
            assert forall|t: int| 0 <= t < out@.len() implies (#[trigger] out@[t]).score
                == score_spec(
                self.metric,
                stored_spec(self.metric, query@),
                record_at(self.records@, out@[t].id@).vector@,
            ) by {
                assert(has_node(ns, ps[t].0@));
                let w = crate::processing::node_index(ns, ps[t].0@);
                assert(ns[w].vector@ == record_at(self.records@, ns[w].id@).vector@);
            }
            if self.records@.len() <= BRUTE_THRESHOLD && top_k >= self.records@.len() {
                assert forall|t: int| 0 <= t < self.records@.len() implies exists|i2: int|
                    0 <= i2 < out@.len() && out@[i2].id@ == (#[trigger] self.records@[t]).id@ by {
                    assert(has_node(ns, self.records@[t].id@));
                    let w = choose|w: int| 0 <= w < ns.len() && ns[w].id@ == self.records@[t].id@;
                    assert(holds_pair(ps, ns[w].id@, score_spec(self.metric, q@, ns[w].vector@)));
                    let p = choose|p: int|
                        0 <= p < ps.len() && ps[p].0@ == ns[w].id@ && ps[p].1 == score_spec(
                            self.metric,
                            q@,
                            ns[w].vector@,
                        );
                    assert(out@[p].id@ == self.records@[t].id@);
                }
            }
            if self.records@.len() <= BRUTE_THRESHOLD && top_k > 0 {
                assert forall|t: int|
                    0 <= t < self.records@.len() && !(exists|i2: int|
                        0 <= i2 < out@.len() && out@[i2].id@ == (
                        #[trigger] self.records@[t]).id@) implies out@.len() > 0 && key(
                    score_spec(self.metric, q@, self.records@[t].vector@),
                ) <= key(out@[out@.len() - 1].score) by {
                    assert(has_node(ns, self.records@[t].id@));
                    let w = choose|w: int| 0 <= w < ns.len() && ns[w].id@ == self.records@[t].id@;
                    crate::processing::lemma_node_index_of(ns, w);
                    assert(ns[w].vector@ == self.records@[t].vector@) by {
                        lemma_record_index_of(self.records@, t);
                    }
                    // no result carries this id, so no pair does
                    assert(!holds_pair(ps, ns[w].id@, score_spec(self.metric, q@, ns[w].vector@)))
                        by {
                        if holds_pair(ps, ns[w].id@, score_spec(self.metric, q@, ns[w].vector@)) {
                            let p = choose|p: int|
                                0 <= p < ps.len() && ps[p].0@ == ns[w].id@ && ps[p].1 == score_spec(
                                    self.metric,
                                    q@,
                                    ns[w].vector@,
                                );
                            assert(out@[p].id@ == self.records@[t].id@);
                        }
                    }
                    assert(out@[out@.len() - 1].score == ps[ps.len() - 1].1);
                }
            }
        }
        out
    }

    /// Retrieve a record by id: a read-only lookup with no side effects.
    pub fn get(&self, id: &str) -> (r: Option<&VecRecord>)
        requires
            self.wf(),
        ensures
            match r {
                Some(rec) => has_record(self.records@, id@) && *rec == record_at(
                    self.records@,
                    id@,
                ),
                None => !has_record(self.records@, id@),
            },
    {
        let key_id: String = id.to_owned();
        match find_record(&self.records, &key_id) {
            Some(i) => {
                proof {
                    lemma_record_index_of(self.records@, i as int);
                }
                Some(&self.records[i])
            },
            None => None,
        }
    }
}


/// Law: a well-formed store never lets its two structures diverge — after
/// any completed insert or delete the record list and the graph hold exactly
/// the same ids, one record per node.
pub proof fn lemma_store_lockstep(v: &VecBase)
    requires
        v.wf(),
    ensures
        v.records@.len() == v.index.nodes@.len(),
        forall|id: Seq<char>| has_record(v.records@, id) <==> has_node(v.index.nodes@, id),
{
    assert forall|id: Seq<char>| has_record(v.records@, id) <==> has_node(
        v.index.nodes@,
        id,
    ) by {
        if has_record(v.records@, id) {
            let w = record_index(v.records@, id);
            assert(has_node(v.index.nodes@, v.records@[w].id@));
        }
        if has_node(v.index.nodes@, id) {
            let w = choose|w: int|
                0 <= w < v.index.nodes@.len() && v.index.nodes@[w].id@ == id;
            assert(has_record(v.records@, v.index.nodes@[w].id@));
        }
    }
}

} // verus!
