use vstd::prelude::*;
use vstd::string::StringExecFns;
use tantivy::schema::{NamedFieldDocument, Schema};
use tantivy::{Searcher as TvSearcher, TantivyDocument, TantivyError};
use crate::address::DocAddress;
use crate::facet::{facet_encoding, facets_overlap, is_facet_text, prefixes_disjoint, prefixes_wf};
use crate::ranking::{addresses_distinct, hits_ordered};
use vstd::math::min;
use crate::scan::{
    add_collector, collectors_len, extract_all, facet_collector, no_collectors, register_facet,
    registered_facets, run_scan, MAX_SCAN_HITS,
};
use crate::search::{
    assemble, tables_answer, error_text, is_first_unknown, plan_from, plan_matches, plan_wf, result_follows_request, scan_failure, FieldRequest,
    SearchError, SearchPlan, SearchResult,
};

verus! {

/// Tantivy's read-only view of an index snapshot: a fixed list of segments.
#[verifier::external_type_specification]
#[verifier::external_body]
pub struct ExSearcher(TvSearcher);

/// Tantivy's schema: the fields of the index by name.
#[verifier::external_type_specification]
#[verifier::external_body]
pub struct ExSchema(Schema);

/// A document as a map from field name to the field's values.
#[verifier::external_type_specification]
#[verifier::external_body]
pub struct ExNamedFieldDocument(NamedFieldDocument);

/// The number of segments in a searcher's fixed segment list.
pub uninterp spec fn segment_count(s: TvSearcher) -> nat;

/// Relies on `Searcher::segment_readers`: one reader per segment, in
/// segment ordinal order.
#[verifier::external_body]
fn num_segments(s: &TvSearcher) -> (r: usize)
    ensures
        r as nat == segment_count(*s),
{
    s.segment_readers().len()
}

/// The number of live documents over a searcher's segments.
pub uninterp spec fn live_doc_count(s: TvSearcher) -> nat;

/// The searcher's schema defines a facet field of that name.
pub uninterp spec fn schema_facet_field(s: TvSearcher, name: Seq<char>) -> bool;

/// Relies on `Searcher::num_docs`: the number of live documents over all
/// segments, fixed for the snapshot.
#[verifier::external_body]
fn live_docs(s: &TvSearcher) -> (r: u64)
    ensures
        r as nat == live_doc_count(*s),
{
    s.num_docs()
}

/// Relies on `Schema::get_field` and `FieldEntry::field_type` on the
/// searcher's schema: whether a field of that name exists and is a facet
/// field.
#[verifier::external_body]
fn facet_field_exists(s: &TvSearcher, name: &str) -> (r: bool)
    ensures
        r == schema_facet_field(*s, name@),
{
    match s.schema().get_field(name) {
        Ok(f) => matches!(s.schema().get_field_entry(f).field_type(), tantivy::schema::FieldType::Facet(_)),
        Err(_) => false,
    }
}

/// Relies on `Searcher::doc` and `Document::to_named_doc`: reads the stored
/// document at the address and keys its values by field name in the
/// searcher's own schema, which defines every field a stored document
/// holds. `Searcher::doc` indexes its store readers, one per segment, by the
/// ordinal, so the ordinal must be in range; a document id that the
/// segment's store lacks gives an error.
#[verifier::external_body]
fn fetch_named_document(s: &TvSearcher, segment_ord: u32, doc: u32) -> Result<NamedFieldDocument, TantivyError>
    requires
        (segment_ord as nat) < segment_count(*s),
{
    let address = tantivy::DocAddress::new(segment_ord, doc);
    s.doc::<TantivyDocument>(address).map(|d| tantivy::Document::to_named_doc(&d, s.schema()))
}

/// The decimal digit for `d < 10`.
pub open spec fn digit_char(d: nat) -> char {
    seq!['0', '1', '2', '3', '4', '5', '6', '7', '8', '9'][d as int]
}

/// The decimal digits of `n`, most significant first, without sign or
/// leading zeros.
pub open spec fn decimal(n: nat) -> Seq<char>
    decreases n,
{
    if n < 10 {
        seq![digit_char(n)]
    } else {
        decimal(n / 10).push(digit_char(n % 10))
    }
}

/// Relies on `ToString` for `u64`, that is its `Display`: the number in
/// decimal digits, with no sign, padding or separator.
#[verifier::external_body]
fn decimal_text(n: u64) -> (r: String)
    ensures
        r@ == decimal(n as nat),
{
    n.to_string()
}

/// `Searcher(num_docs=<docs>, num_segments=<segments>)`.
pub open spec fn summary_text(num_docs: nat, num_segments: nat) -> Seq<char> {
    "Searcher(num_docs="@ + decimal(num_docs) + ", num_segments="@ + decimal(num_segments) + ")"@
}

/// The human-readable summary of a searcher with the given counts.
pub fn render_summary(num_docs: u64, num_segments: u64) -> (r: String)
    ensures
        r@ == summary_text(num_docs as nat, num_segments as nat),
{
    let mut s = String::from_str("Searcher(num_docs=");
    let d = decimal_text(num_docs);
    s.append(d.as_str());
    s.append(", num_segments=");
    let n = decimal_text(num_segments);
    s.append(n.as_str());
    s.append(")");
    s
}

/// Executes searches against one immutable index snapshot and fetches the
/// documents that they found.
pub struct Searcher {
    inner: TvSearcher,
}

impl Searcher {
    /// The number of segments in this searcher's fixed segment list.
    pub closed spec fn segments(&self) -> nat {
        segment_count(self.inner)
    }

    /// The number of live documents visible to this searcher.
    pub closed spec fn live_docs(&self) -> nat {
        live_doc_count(self.inner)
    }

    /// The schema defines a facet field of that name.
    pub closed spec fn has_facet_field(&self, name: Seq<char>) -> bool {
        schema_facet_field(self.inner, name)
    }

    pub fn new(inner: TvSearcher) -> (r: Searcher)
        ensures
            r.segments() == segment_count(inner),
    {
        Searcher { inner }
    }

    /// The number of segments in this searcher.
    pub fn num_segments(&self) -> (r: usize)
        ensures
            r as nat == self.segments(),
    {
        num_segments(&self.inner)
    }

    /// The number of documents visible to this searcher.
    pub fn num_docs(&self) -> (r: u64)
        ensures
            r as nat == self.live_docs(),
    {
        live_docs(&self.inner)
    }

    /// The summary `Searcher(num_docs=<N>, num_segments=<M>)`.
    pub fn summary(&self) -> (r: String)
        ensures
            r@ == summary_text(self.live_docs(), self.segments()),
    {
        let docs = live_docs(&self.inner);
        let segs = num_segments(&self.inner);
        let r = render_summary(docs, segs as u64);
        assert(segs as u64 as nat == self.segments());
        r
    }

    /// Validates a search request against the schema before any scan: a
    /// zero limit fails with `InvalidLimit`, a field that the schema lacks
    /// with `FieldNotFound`, and otherwise every field is planned with the
    /// prefixes kept from its texts.
    pub fn plan(&self, limit: usize, requests: &Vec<FieldRequest>) -> (r: Result<SearchPlan, SearchError>)
        ensures
            limit == 0 ==> r == Err::<SearchPlan, SearchError>(SearchError::InvalidLimit),
            limit > 0 ==> (r is Ok <==> self.all_facet_fields(requests@)),
            r is Ok ==> plan_matches(r->Ok_0, limit, requests@) && plan_wf(r->Ok_0),
            r is Err && limit > 0 ==> self.first_unknown_field(r->Err_0, requests@),
    {
        let mut known: Vec<bool> = Vec::new();
        let mut i: usize = 0;
        while i < requests.len()
            invariant
                i <= requests.len(),
                known@.len() == i,
                forall|j: int| 0 <= j < i ==> known@[j] == self.has_facet_field(#[trigger] requests@[j].field@),
            decreases requests.len() - i,
        {
            known.push(facet_field_exists(&self.inner, requests[i].field.as_str()));
            i = i + 1;
        }
        let r = plan_from(limit, requests, &known);
        proof {
            if limit > 0 && r is Ok {
                assert forall|j: int| 0 <= j < requests@.len() implies self.has_facet_field(#[trigger] requests@[j].field@) by {
                    if !known@[j] {
                        assert(!(forall|k: int| 0 <= k < known@.len() ==> known@[k]));
                    }
                }
            }
            if limit > 0 && r is Err {
                let i = choose|i: int| is_first_unknown(known@, i) && r->Err_0->FieldNotFound_0@ == (#[trigger] requests@[i]).field@;
                assert(!self.has_facet_field(requests@[i].field@));
            }
        }
        r
    }

    /// Every requested field is a facet field of the schema.
    pub open spec fn all_facet_fields(&self, reqs: Seq<FieldRequest>) -> bool {
        forall|i: int| 0 <= i < reqs.len() ==> self.has_facet_field(#[trigger] reqs[i].field@)
    }

    /// `e` reports the first requested field that is not a facet field of
    /// the schema.
    pub open spec fn first_unknown_field(&self, e: SearchError, reqs: Seq<FieldRequest>) -> bool {
        &&& e is FieldNotFound
        &&& exists|i: int|
            0 <= i < reqs.len() && e->FieldNotFound_0@ == (#[trigger] reqs[i]).field@ && !self.has_facet_field(reqs[i].field@)
                && forall|j: int| 0 <= j < i ==> self.has_facet_field(#[trigger] reqs[j].field@)
    }

    /// Runs a search: validates the request against the schema before any
    /// scan, then makes one pass over the documents that `query` matches
    /// with a counting collector, a ranking collector, and one facet
    /// collector per requested field. A zero limit fails with
    /// `InvalidLimit`, a field that is not a facet field of the schema with
    /// `FieldNotFound`, a failed scan with `ScanFailure`; no partial result
    /// is returned. The ranking collector is asked for no more hits than
    /// the searcher has live documents (at least one) and at most
    /// `MAX_SCAN_HITS`.
    pub fn search<Q: tantivy::query::Query>(&self, query: &Q, limit: usize, requests: &Vec<FieldRequest>) -> (r: Result<SearchResult, SearchError>)
        ensures
            limit == 0 ==> r == Err::<SearchResult, SearchError>(SearchError::InvalidLimit),
            limit > 0 && !self.all_facet_fields(requests@) ==> r is Err && self.first_unknown_field(r->Err_0, requests@),
            limit > 0 && self.all_facet_fields(requests@) ==> r is Ok || r->Err_0 is ScanFailure,
            r is Ok ==> result_follows_request(r->Ok_0, limit, requests@),
            r is Ok ==> (r->Ok_0.count as nat) <= self.live_docs(),
            r is Ok ==> r->Ok_0.hits@.len() == min(min(limit as int, r->Ok_0.count as int), MAX_SCAN_HITS as int),
            r is Ok ==> addresses_distinct(r->Ok_0.hits@),
            r is Ok ==> forall|k: int|
                0 <= k < r->Ok_0.hits@.len() ==> ((#[trigger] r->Ok_0.hits@[k]).address.segment_ord as nat) < self.segments(),
    {
        let plan = match self.plan(limit, requests) {
            Ok(p) => p,
            Err(e) => {
                return Err(e);
            },
        };
        let mut set = no_collectors();
        let mut i: usize = 0;
        while i < plan.fields.len()
            invariant
                i <= plan.fields@.len(),
                plan_wf(plan),
                collectors_len(set) == i,
            decreases plan.fields@.len() - i,
        {
            let field = &plan.fields[i];
            let ghost ps = field.prefixes@;
            assert(prefixes_wf(ps) && prefixes_disjoint(ps));
            let mut c = facet_collector(field.field.as_str());
            let mut j: usize = 0;
            while j < field.prefixes.len()
                invariant
                    j <= ps.len(),
                    ps == field.prefixes@,
                    prefixes_wf(ps),
                    prefixes_disjoint(ps),
                    forall|e: Seq<char>|
                        #[trigger] registered_facets(c).contains(e) ==> exists|k: int|
                            0 <= k < j && (#[trigger] ps[k]).encoded@ == e,
                decreases ps.len() - j,
            {
                let p = &field.prefixes[j];
                assert(is_facet_text(ps[j as int].text@));
                proof {
                    assert forall|e: Seq<char>|
                        #[trigger] registered_facets(c).contains(e) implies !facets_overlap(e, facet_encoding(p.text@)->0) by {
                        let k = choose|k: int| 0 <= k < j && (#[trigger] ps[k]).encoded@ == e;
                        assert(!facets_overlap(ps[k].encoded@, ps[j as int].encoded@));
                    }
                }
                register_facet(&mut c, p.text.as_str());
                j = j + 1;
            }
            add_collector(&mut set, c);
            i = i + 1;
        }
        let docs = live_docs(&self.inner);
        let mut cap: usize = plan.limit;
        if cap as u64 > docs {
            cap = if docs == 0 { 1 } else { docs as usize };
        }
        if cap > MAX_SCAN_HITS {
            cap = MAX_SCAN_HITS;
        }
        match run_scan(&self.inner, query, cap, set) {
            Ok((count, hits, fruits)) => {
                let ghost scanned = hits@;
                let counts = extract_all(fruits);
                let result = assemble(&plan, count, hits, &counts);
                proof {
                    assert(tables_answer(result.facets@, plan, counts@, limit, requests@));
                    assert forall|k: int| 0 <= k < result.hits@.len() implies ((#[trigger] result.hits@[k]).address.segment_ord as nat) < self.segments() by {
                        let j = choose|j: int| 0 <= j < scanned.len() && scanned[j] == result.hits@[k];
                    }
                }
                Ok(result)
            },
            Err(e) => Err(scan_failure(&e)),
        }
    }

    /// Fetches the document at an address. An address whose segment
    /// ordinal is not below the number of segments fails with
    /// `InvalidAddress`; a failed read of the store with `StorageError`.
    pub fn doc(&self, address: &DocAddress) -> (r: Result<NamedFieldDocument, SearchError>)
        ensures
            (address.segment_ord as nat) >= self.segments() <==> r == Err::<NamedFieldDocument, SearchError>(
                SearchError::InvalidAddress { segment_ord: address.segment_ord, doc: address.doc },
            ),
            (address.segment_ord as nat) < self.segments() && r is Err ==> r->Err_0 is StorageError,
    {
        let n = num_segments(&self.inner);
        if address.segment_ord as usize >= n {
            return Err(SearchError::InvalidAddress { segment_ord: address.segment_ord, doc: address.doc });
        }
        match fetch_named_document(&self.inner, address.segment_ord, address.doc) {
            Ok(d) => Ok(d),
            Err(e) => Err(SearchError::StorageError(error_text(&e))),
        }
    }

    /// Fetches the document at the address given as a (segment ordinal,
    /// segment-local id) pair, as `doc` does.
    pub fn docn(&self, seg_doc: (u32, u32)) -> (r: Result<NamedFieldDocument, SearchError>)
        ensures
            (seg_doc.0 as nat) >= self.segments() <==> r == Err::<NamedFieldDocument, SearchError>(
                SearchError::InvalidAddress { segment_ord: seg_doc.0, doc: seg_doc.1 },
            ),
            (seg_doc.0 as nat) < self.segments() && r is Err ==> r->Err_0 is StorageError,
    {
        self.doc(&DocAddress::new(seg_doc.0, seg_doc.1))
    }
}

} // verus!
