use vstd::prelude::*;
use tantivy::collector::{Count, FacetCollector, FacetCounts, FruitHandle, MultiCollector, MultiFruit, TopDocs};
use tantivy::query::Query;
use tantivy::{Searcher as TvSearcher, TantivyError};
use crate::facet::{facet_encoding, facets_overlap, is_facet_text};
use crate::ranking::{addresses_distinct, Hit};
use crate::searcher::{live_doc_count, segment_count};

verus! {

/// Tantivy's collector of facet counts for one field.
#[verifier::external_type_specification]
#[verifier::external_body]
pub struct ExFacetCollector(FacetCollector);

/// The encoded facets registered with a facet collector.
pub uninterp spec fn registered_facets(c: FacetCollector) -> Set<Seq<char>>;

/// Relies on `FacetCollector::for_field`: a collector for the named field
/// with no facet registered.
#[verifier::external_body]
pub(crate) fn facet_collector(field: &str) -> (r: FacetCollector)
    ensures
        registered_facets(r) == Set::<Seq<char>>::empty(),
{
    FacetCollector::for_field(field)
}

/// Relies on `FacetCollector::add_facet`: it parses the text, panics when the
/// facet is an ancestor or a descendant of one registered before, and
/// otherwise adds it to the registered set.
#[verifier::external_body]
pub(crate) fn register_facet(c: &mut FacetCollector, text: &str)
    requires
        is_facet_text(text@),
        forall|e: Seq<char>|
            #[trigger] registered_facets(*old(c)).contains(e) ==> !facets_overlap(e, facet_encoding(text@)->0),
    ensures
        registered_facets(*final(c)) == registered_facets(*old(c)).insert(facet_encoding(text@)->0),
{
    c.add_facet(text)
}

/// The facet collectors of one search, run together by a tantivy
/// `MultiCollector`, with the handles to their results in order of
/// addition. Held whole because the handles' type cannot be declared.
#[verifier::external_body]
pub struct FacetCollectors {
    multi: MultiCollector<'static>,
    handles: Vec<FruitHandle<FacetCounts>>,
}

/// The number of collectors added to a set.
pub uninterp spec fn collectors_len(c: FacetCollectors) -> nat;

/// The results of a scan over a set of facet collectors, one per collector.
#[verifier::external_body]
pub struct FacetFruits {
    fruit: MultiFruit,
    handles: Vec<FruitHandle<FacetCounts>>,
}

/// The number of results held, one per collector of the scanned set.
pub uninterp spec fn fruits_len(f: FacetFruits) -> nat;

/// Relies on `MultiCollector::new`: a multi-collector with no collector.
#[verifier::external_body]
pub(crate) fn no_collectors() -> (r: FacetCollectors)
    ensures
        collectors_len(r) == 0,
{
    FacetCollectors { multi: MultiCollector::new(), handles: Vec::new() }
}

/// Relies on `MultiCollector::add_collector`: the collector takes the next
/// position and its handle points at that position.
#[verifier::external_body]
pub(crate) fn add_collector(set: &mut FacetCollectors, c: FacetCollector)
    ensures
        collectors_len(*final(set)) == collectors_len(*old(set)) + 1,
{
    let handle = set.multi.add_collector(c);
    set.handles.push(handle);
}

/// The largest number of hits a scan is asked to keep. The ranking
/// collector reserves room for twice its limit up front, so a limit near
/// `usize::MAX` overflows that reservation.
pub const MAX_SCAN_HITS: usize = 0xFFFF_FFFF;

/// Relies on `Searcher::search` with a `Count`, a `TopDocs` of `limit` hits
/// ranked by score (`TopDocs::with_limit` panics on zero) and the facet
/// collectors: one pass over the live documents that the query matches.
/// `Count` counts them, so at most the live documents; `TopDocs` keeps the
/// best `limit` of the same documents, each once, by its address in the
/// searcher's segment list; there is one result per facet collector.
#[verifier::external_body]
pub(crate) fn run_scan<Q: Query>(s: &TvSearcher, q: &Q, limit: usize, set: FacetCollectors) -> (r: Result<(usize, Vec<Hit>, FacetFruits), TantivyError>)
    requires
        0 < limit <= MAX_SCAN_HITS,
    ensures
        r is Ok ==> fruits_len(r->Ok_0.2) == collectors_len(set),
        r is Ok ==> r->Ok_0.0 as nat <= live_doc_count(*s),
        r is Ok ==> r->Ok_0.1@.len() == if r->Ok_0.0 < limit { r->Ok_0.0 } else { limit },
        r is Ok ==> addresses_distinct(r->Ok_0.1@),
        r is Ok ==> forall|k: int|
            0 <= k < r->Ok_0.1@.len() ==> ((#[trigger] r->Ok_0.1@[k]).address.segment_ord as nat) < segment_count(*s),
{
    let FacetCollectors { multi, handles } = set;
    let top = TopDocs::with_limit(limit).order_by_score();
    s.search(q, &(Count, top, multi)).map(|(count, top, fruit)| {
        let hits = top.iter().map(|(sc, d)| Hit::new(sc.to_bits(), d.segment_ord, d.doc_id)).collect();
        (count, hits, FacetFruits { fruit, handles })
    })
}

/// Relies on `FruitHandle::extract`: each handle takes its collector's
/// result, once, in order of addition.
#[verifier::external_body]
pub(crate) fn extract_all(f: FacetFruits) -> (r: Vec<FacetCounts>)
    ensures
        r@.len() == fruits_len(f),
{
    let FacetFruits { mut fruit, handles } = f;
    handles.into_iter().map(|h| h.extract(&mut fruit)).collect()
}

} // verus!
