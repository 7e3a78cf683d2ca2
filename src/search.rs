use vstd::prelude::*;
use tantivy::collector::FacetCounts;
use tantivy::TantivyError;
use crate::facet::{
    facet_display, facet_encoding, facets_from_counts, field_facets, is_facet_ancestor, kept_prefixes,
    lemma_kept_from_request, prefixes_disjoint, prefixes_view, prefixes_wf, select_prefixes,
    strings_view, under_some_prefix, FacetEntry, FacetPrefix,
};
use crate::ranking::{addresses_distinct, hits_ordered, order_hits, Hit};

verus! {

/// Why a search or a document fetch failed.
#[derive(Clone, Debug, PartialEq, Eq)]
pub enum SearchError {
    /// A facet request names a field that the schema does not define.
    FieldNotFound(String),
    /// The number of hits to keep is zero.
    InvalidLimit,
    /// The index scan failed; no partial result exists.
    ScanFailure(String),
    /// The address names a segment that this searcher does not hold.
    InvalidAddress { segment_ord: u32, doc: u32 },
    /// The stored document could not be read.
    StorageError(String),
}

/// Facet counts asked for one field: the field's name and the facet
/// prefixes whose children are to be counted.
#[derive(Clone, Debug)]
pub struct FieldRequest {
    pub field: String,
    pub prefixes: Vec<String>,
}

/// One validated facet field: its name and the prefixes kept for it.
#[derive(Clone, Debug)]
pub struct FieldPlan {
    pub field: String,
    pub prefixes: Vec<FacetPrefix>,
}

/// A validated search request: how many hits to keep, and one facet
/// collector's worth of prefixes per requested field, in request order.
#[derive(Clone, Debug)]
pub struct SearchPlan {
    pub limit: usize,
    pub fields: Vec<FieldPlan>,
}

/// The facet table of one field: its name and its counted facets.
#[derive(Clone, Debug)]
pub struct FieldFacets {
    pub field: String,
    pub entries: Vec<FacetEntry>,
}

/// The answer to one search: the number of matching documents, the
/// top-ranked hits, and one facet table per requested field.
#[derive(Clone, Debug)]
pub struct SearchResult {
    pub count: usize,
    pub hits: Vec<Hit>,
    pub facets: Vec<FieldFacets>,
}

/// `plan` keeps `limit` and, for each request in order, its field and the
/// prefixes kept from its texts.
pub open spec fn plan_matches(plan: SearchPlan, limit: usize, reqs: Seq<FieldRequest>) -> bool {
    &&& plan.limit == limit
    &&& plan.fields@.len() == reqs.len()
    &&& forall|i: int|
        0 <= i < reqs.len() ==> {
            &&& (#[trigger] plan.fields@[i]).field@ == reqs[i].field@
            &&& prefixes_view(plan.fields@[i].prefixes@) == kept_prefixes(
                strings_view(reqs[i].prefixes@),
                reqs[i].prefixes@.len(),
            )
        }
}

/// A plan that a scan can be built from: a positive limit, and prefixes
/// that parse and do not overlap within a field.
pub open spec fn plan_wf(plan: SearchPlan) -> bool {
    &&& plan.limit > 0
    &&& forall|i: int|
        0 <= i < plan.fields@.len() ==> prefixes_wf((#[trigger] plan.fields@[i]).prefixes@)
            && prefixes_disjoint(plan.fields@[i].prefixes@)
}

/// Index of the first request whose field is unknown.
pub open spec fn is_first_unknown(known: Seq<bool>, i: int) -> bool {
    0 <= i < known.len() && !known[i] && forall|j: int| 0 <= j < i ==> known[j]
}

/// Builds the plan of a search from the request and, for each requested
/// field, whether the schema defines it. A zero limit fails with
/// `InvalidLimit`; else the first unknown field fails with
/// `FieldNotFound`; else every field gets the prefixes kept from its texts.
pub fn plan_from(limit: usize, requests: &Vec<FieldRequest>, known: &Vec<bool>) -> (r: Result<SearchPlan, SearchError>)
    requires
        known@.len() == requests@.len(),
    ensures
        limit == 0 ==> r == Err::<SearchPlan, SearchError>(SearchError::InvalidLimit),
        limit > 0 ==> (r is Ok <==> forall|i: int| 0 <= i < known@.len() ==> known@[i]),
        r is Ok ==> plan_matches(r->Ok_0, limit, requests@) && plan_wf(r->Ok_0),
        r is Err && limit > 0 ==> r->Err_0 is FieldNotFound && exists|i: int|
            is_first_unknown(known@, i) && r->Err_0->FieldNotFound_0@ == (#[trigger] requests@[i]).field@,
{
    if limit == 0 {
        return Err(SearchError::InvalidLimit);
    }
    let mut fields: Vec<FieldPlan> = Vec::new();
    let mut i: usize = 0;
    while i < requests.len()
        invariant
            i <= requests.len(),
            limit > 0,
            known@.len() == requests@.len(),
            forall|j: int| 0 <= j < i ==> known@[j],
            fields@.len() == i,
            forall|j: int|
                0 <= j < i ==> {
                    &&& (#[trigger] fields@[j]).field@ == requests@[j].field@
                    &&& prefixes_view(fields@[j].prefixes@) == kept_prefixes(
                        strings_view(requests@[j].prefixes@),
                        requests@[j].prefixes@.len(),
                    )
                    &&& prefixes_wf(fields@[j].prefixes@)
                    &&& prefixes_disjoint(fields@[j].prefixes@)
                },
        decreases requests.len() - i,
    {
        let req = &requests[i];
        if !known[i] {
            assert(is_first_unknown(known@, i as int));
            return Err(SearchError::FieldNotFound(req.field.clone()));
        }
        let prefixes = select_prefixes(&req.prefixes);
        fields.push(FieldPlan { field: req.field.clone(), prefixes });
        i = i + 1;
    }
    Ok(SearchPlan { limit, fields })
}

/// The hits of a result: at most `limit` of the given hits, in ranked
/// order, and none left out that ranks before one kept.
pub open spec fn top_hits(kept: Seq<Hit>, limit: usize, hits: Seq<Hit>) -> bool {
    &&& kept.len() == if hits.len() < limit { hits.len() } else { limit as nat }
    &&& exists|full: Seq<Hit>|
        hits_ordered(full) && full.to_multiset() == hits.to_multiset() && kept == full.take(
            kept.len() as int,
        )
}

/// The facet tables of a result agree with the plan: one per planned
/// field, in order, each holding only facets under that field's prefixes,
/// and none for a field planned with no prefix.
pub open spec fn facets_follow_plan(facets: Seq<FieldFacets>, plan: SearchPlan) -> bool {
    &&& facets.len() == plan.fields@.len()
    &&& forall|i: int|
        0 <= i < facets.len() ==> {
            &&& (#[trigger] facets[i]).field@ == plan.fields@[i].field@
            &&& forall|k: int|
                0 <= k < facets[i].entries@.len() ==> under_some_prefix(
                    plan.fields@[i].prefixes@,
                    (#[trigger] facets[i].entries@[k]).encoded@,
                ) && facets[i].entries@[k].path@ == facet_display(facets[i].entries@[k].encoded@)
            &&& plan.fields@[i].prefixes@.len() == 0 ==> facets[i].entries@.len() == 0
        }
}

/// The facet tables answer a request through `plan` and the facet-count
/// tables `counts`: one table per planned field, each listing exactly,
/// prefix by prefix, the counted children of that field's prefixes.
pub open spec fn tables_answer(
    facets: Seq<FieldFacets>,
    plan: SearchPlan,
    counts: Seq<FacetCounts>,
    limit: usize,
    reqs: Seq<FieldRequest>,
) -> bool {
    &&& plan_matches(plan, limit, reqs)
    &&& plan_wf(plan)
    &&& facets_follow_plan(facets, plan)
    &&& counts.len() == facets.len()
    &&& forall|i: int|
        0 <= i < counts.len() ==> facets_from_counts(
            (#[trigger] facets[i]).entries@,
            counts[i],
            plan.fields@[i].prefixes@,
        )
}

/// A search result answers the request: it keeps at most `limit` hits in
/// ranked order, and it holds one facet table per requested field, in
/// request order, each listing exactly, prefix by prefix, the counted
/// children of the prefixes kept for that field in one facet-count table.
pub open spec fn result_follows_request(r: SearchResult, limit: usize, reqs: Seq<FieldRequest>) -> bool {
    &&& r.hits@.len() <= limit
    &&& hits_ordered(r.hits@)
    &&& exists|plan: SearchPlan, counts: Seq<FacetCounts>| #[trigger] tables_answer(r.facets@, plan, counts, limit, reqs)
}

/// Builds the result of a search from what the scan gathered: the number
/// of matches, the hits that the ranking collector kept, and one facet
/// table per planned field, in plan order.
pub fn assemble(plan: &SearchPlan, count: usize, hits: Vec<Hit>, counts: &Vec<FacetCounts>) -> (r: SearchResult)
    requires
        plan_wf(*plan),
        counts@.len() == plan.fields@.len(),
    ensures
        r.count == count,
        top_hits(r.hits@, plan.limit, hits@),
        hits_ordered(r.hits@),
        forall|k: int| 0 <= k < r.hits@.len() ==> hits@.contains(#[trigger] r.hits@[k]),
        addresses_distinct(hits@) ==> addresses_distinct(r.hits@),
        facets_follow_plan(r.facets@, *plan),
        forall|i: int|
            0 <= i < r.facets@.len() ==> facets_from_counts(
                (#[trigger] r.facets@[i]).entries@,
                counts@[i],
                plan.fields@[i].prefixes@,
            ),
{
    let ghost given = hits@;
    let mut ranked = order_hits(hits);
    let ghost full = ranked@;
    proof {
        vstd::seq_lib::to_multiset_len(full);
        vstd::seq_lib::to_multiset_len(given);
    }
    if plan.limit < ranked.len() {
        ranked.truncate(plan.limit);
    }
    assert(ranked@ == full.take(ranked@.len() as int));
    assert(hits_ordered(ranked@));
    assert forall|k: int| 0 <= k < ranked@.len() implies given.contains(#[trigger] ranked@[k]) by {
        assert(ranked@[k] == full[k]);
    }
    assert(hits_ordered(full) && full.to_multiset() == given.to_multiset() && ranked@ == full.take(
        ranked@.len() as int,
    ));
    let mut facets: Vec<FieldFacets> = Vec::new();
    let mut i: usize = 0;
    while i < counts.len()
        invariant
            i <= counts.len(),
            counts@.len() == plan.fields@.len(),
            plan_wf(*plan),
            facets@.len() == i,
            forall|j: int|
                0 <= j < i ==> {
                    &&& (#[trigger] facets@[j]).field@ == plan.fields@[j].field@
                    &&& forall|k: int|
                        0 <= k < facets@[j].entries@.len() ==> under_some_prefix(
                            plan.fields@[j].prefixes@,
                            (#[trigger] facets@[j].entries@[k]).encoded@,
                        ) && facets@[j].entries@[k].path@ == facet_display(facets@[j].entries@[k].encoded@)
                    &&& plan.fields@[j].prefixes@.len() == 0 ==> facets@[j].entries@.len() == 0
                    &&& facets_from_counts(facets@[j].entries@, counts@[j], plan.fields@[j].prefixes@)
                },
        decreases counts.len() - i,
    {
        let field = &plan.fields[i];
        assert(prefixes_wf(plan.fields@[i as int].prefixes@));
        let entries = field_facets(&counts[i], &field.prefixes);
        facets.push(FieldFacets { field: field.field.clone(), entries });
        i = i + 1;
    }
    SearchResult { count, hits: ranked, facets }
}

/// Facet filtering holds: every facet in the table of a requested field
/// descends from a prefix that the caller asked for on that field, so no
/// count under an unrelated prefix is ever reported.
pub proof fn lemma_facets_within_request(
    plan: SearchPlan,
    limit: usize,
    reqs: Seq<FieldRequest>,
    facets: Seq<FieldFacets>,
    i: int,
    k: int,
)
    requires
        plan_matches(plan, limit, reqs),
        facets_follow_plan(facets, plan),
        0 <= i < facets.len(),
        0 <= k < facets[i].entries@.len(),
    ensures
        exists|t: int|
            0 <= t < reqs[i].prefixes@.len() && facet_encoding((#[trigger] reqs[i].prefixes@[t])@) is Some
                && is_facet_ancestor(
                facet_encoding(reqs[i].prefixes@[t]@)->0,
                facets[i].entries@[k].encoded@,
            ),
{
    let ps = plan.fields@[i].prefixes@;
    let e = facets[i].entries@[k].encoded@;
    assert(under_some_prefix(ps, e));
    let p = choose|p: int| 0 <= p < ps.len() && is_facet_ancestor((#[trigger] ps[p]).encoded@, e);
    let req = strings_view(reqs[i].prefixes@);
    let kept = kept_prefixes(req, reqs[i].prefixes@.len());
    assert(prefixes_view(ps)[p] == kept[p]);
    lemma_kept_from_request(req, reqs[i].prefixes@.len(), p);
    let t = choose|t: int|
        0 <= t < reqs[i].prefixes@.len() && #[trigger] req[t] == kept[p].0 && facet_encoding(req[t]) == Some(
            kept[p].1,
        );
    assert(req[t] == reqs[i].prefixes@[t]@);
}

/// A field requested with no prefix gets an empty facet table, not an
/// error and not every counted facet.
pub proof fn lemma_no_prefix_no_facets(
    plan: SearchPlan,
    limit: usize,
    reqs: Seq<FieldRequest>,
    facets: Seq<FieldFacets>,
    i: int,
)
    requires
        plan_matches(plan, limit, reqs),
        facets_follow_plan(facets, plan),
        0 <= i < reqs.len(),
        reqs[i].prefixes@.len() == 0,
    ensures
        facets[i].entries@.len() == 0,
{
    assert(prefixes_view(plan.fields@[i].prefixes@).len() == 0);
}

/// Maps a failed index scan to the library's error.
pub fn scan_failure(e: &TantivyError) -> (r: SearchError)
    ensures
        r is ScanFailure,
{
    SearchError::ScanFailure(error_text(e))
}

/// Tantivy's error type.
#[verifier::external_type_specification]
#[verifier::external_body]
pub struct ExTantivyError(TantivyError);

/// Relies on the `Display` of `TantivyError`: a message for the error.
#[verifier::external_body]
pub(crate) fn error_text(e: &TantivyError) -> String {
    e.to_string()
}

} // verus!
