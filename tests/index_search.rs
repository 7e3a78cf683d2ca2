use tantivy::collector::FacetCounts;
use tantivy::query::TermQuery;
use tantivy::schema::{Facet, FacetOptions, IndexRecordOption, Schema, STORED, TEXT};
use tantivy::{Index, IndexWriter, TantivyDocument, Term};
use tantivy_search::address::DocAddress;
use tantivy_search::ranking::Hit;
use tantivy_search::search::{
    assemble, plan_from, scan_failure, FieldRequest, SearchError, SearchResult,
};
use tantivy_search::searcher::Searcher;

struct Fixture {
    searcher: Searcher,
    query: TermQuery,
}

fn fixture() -> Fixture {
    let mut builder = Schema::builder();
    let body = builder.add_text_field("body", TEXT | STORED);
    let category = builder.add_facet_field("category", FacetOptions::default());
    let index = Index::create_in_ram(builder.build());
    let mut writer: IndexWriter = index.writer_with_num_threads(1, 50_000_000).unwrap();
    for (text, facet) in [("apple pie", "/cat/books"), ("apple", "/cat/books"), ("apple tart", "/cat/music")] {
        let mut doc = TantivyDocument::new();
        doc.add_text(body, text);
        doc.add_facet(category, Facet::from(facet));
        writer.add_document(doc).unwrap();
    }
    writer.commit().unwrap();
    let searcher = index.reader().unwrap().searcher();
    let query = TermQuery::new(Term::from_field_text(body, "apple"), IndexRecordOption::WithFreqs);
    Fixture { searcher: Searcher::new(searcher), query }
}

fn search(f: &Fixture, limit: usize, reqs: &Vec<FieldRequest>) -> Result<SearchResult, SearchError> {
    f.searcher.search(&f.query, limit, reqs)
}

fn category(prefixes: &[&str]) -> Vec<FieldRequest> {
    vec![FieldRequest {
        field: "category".to_string(),
        prefixes: prefixes.iter().map(|s| s.to_string()).collect(),
    }]
}

#[test]
fn three_documents_two_books() {
    let f = fixture();
    let r = search(&f, 2, &category(&["/cat"])).unwrap();
    assert_eq!(r.count, 3);
    assert_eq!(r.hits.len(), 2);
    assert_eq!(r.facets.len(), 1);
    assert_eq!(r.facets[0].field, "category");
    let table: Vec<(String, u64)> =
        r.facets[0].entries.iter().map(|e| (e.path.clone(), e.count)).collect();
    assert!(table.contains(&("/cat/books".to_string(), 2)));
    assert!(table.contains(&("/cat/music".to_string(), 1)));
    assert_eq!(r.facets[0].entries[0].encoded, "cat\u{0}books");
}

#[test]
fn count_equals_unbounded_hits() {
    let f = fixture();
    let bounded = search(&f, 1, &vec![]).unwrap();
    let all = search(&f, 1000, &vec![]).unwrap();
    assert_eq!(bounded.count, all.hits.len());
    assert_eq!(all.count, all.hits.len());
}

#[test]
fn hits_bounded_by_limit_and_empty_only_without_matches() {
    let f = fixture();
    for limit in 1..5 {
        let r = search(&f, limit, &vec![]).unwrap();
        assert!(r.hits.len() <= limit);
        assert_eq!(r.hits.is_empty(), r.count == 0);
    }
}

#[test]
fn repeated_searches_rank_identically() {
    let f = fixture();
    let a = search(&f, 3, &vec![]).unwrap();
    let b = search(&f, 3, &vec![]).unwrap();
    assert_eq!(a.hits, b.hits);
    for w in a.hits.windows(2) {
        assert!(f32::from_bits(w[0].score_bits) >= f32::from_bits(w[1].score_bits));
    }
}

#[test]
fn facets_stay_under_requested_prefix() {
    let f = fixture();
    let r = search(&f, 3, &category(&["/cat/books"])).unwrap();
    assert!(r.facets[0].entries.is_empty());
    let r = search(&f, 3, &category(&["/dog"])).unwrap();
    assert!(r.facets[0].entries.is_empty());
    let r = search(&f, 3, &category(&["/cat"])).unwrap();
    let total: u64 = r.facets[0].entries.iter().map(|e| e.count).sum();
    assert!(total <= r.count as u64);
    assert!(r.facets[0].entries.iter().all(|e| e.path.starts_with("/cat/")));
}

#[test]
fn every_hit_address_resolves() {
    let f = fixture();
    let r = search(&f, 10, &vec![]).unwrap();
    for h in &r.hits {
        let doc = f.searcher.doc(&h.address).unwrap();
        assert!(doc.0.contains_key("body"));
    }
}

#[test]
fn out_of_range_segment_is_invalid_address() {
    let f = fixture();
    let n = f.searcher.num_segments() as u32;
    let err = f.searcher.doc(&DocAddress::new(n, 0)).unwrap_err();
    assert_eq!(err, SearchError::InvalidAddress { segment_ord: n, doc: 0 });
    let err = f.searcher.docn((n + 5, 1)).unwrap_err();
    assert_eq!(err, SearchError::InvalidAddress { segment_ord: n + 5, doc: 1 });
}

#[test]
fn pair_address_fetches_document() {
    let f = fixture();
    let doc = f.searcher.docn((0, 0)).unwrap();
    assert!(doc.0.contains_key("body"));
}

#[test]
fn unknown_facet_field_fails_whole_search() {
    let f = fixture();
    let reqs = vec![FieldRequest { field: "colour".to_string(), prefixes: vec!["/red".to_string()] }];
    let err = search(&f, 3, &reqs).unwrap_err();
    assert_eq!(err, SearchError::FieldNotFound("colour".to_string()));
}

#[test]
fn zero_limit_fails_before_scan() {
    let f = fixture();
    assert_eq!(search(&f, 0, &vec![]).unwrap_err(), SearchError::InvalidLimit);
}

#[test]
fn empty_prefix_list_gives_empty_table() {
    let f = fixture();
    let r = search(&f, 3, &category(&[])).unwrap();
    assert_eq!(r.facets.len(), 1);
    assert!(r.facets[0].entries.is_empty());
}

#[test]
fn searcher_counts_and_summary() {
    let f = fixture();
    assert_eq!(f.searcher.num_docs(), 3);
    assert_eq!(f.searcher.num_segments(), 1);
    assert_eq!(f.searcher.summary(), "Searcher(num_docs=3, num_segments=1)");
}

#[test]
fn scan_error_becomes_scan_failure() {
    let e = tantivy::TantivyError::InvalidArgument("broken".to_string());
    assert!(matches!(scan_failure(&e), SearchError::ScanFailure(m) if m.contains("broken")));
}

#[test]
fn assemble_ranks_and_truncates_hits() {
    let reqs = vec![FieldRequest { field: "category".to_string(), prefixes: vec![] }];
    let plan = plan_from(2, &reqs, &vec![true]).unwrap();
    let hits = vec![
        Hit::new(1.0f32.to_bits(), 0, 4),
        Hit::new(3.0f32.to_bits(), 1, 0),
        Hit::new(1.0f32.to_bits(), 0, 1),
    ];
    let r = assemble(&plan, 7, hits, &vec![FacetCounts::default()]);
    assert_eq!(r.count, 7);
    assert_eq!(r.hits, vec![Hit::new(3.0f32.to_bits(), 1, 0), Hit::new(1.0f32.to_bits(), 0, 1)]);
    assert_eq!(r.facets.len(), 1);
    assert!(r.facets[0].entries.is_empty());
}

#[test]
fn facet_request_on_text_field_is_field_not_found() {
    let f = fixture();
    let reqs = vec![FieldRequest { field: "body".to_string(), prefixes: vec!["/a".to_string()] }];
    let err = search(&f, 3, &reqs).unwrap_err();
    assert_eq!(err, SearchError::FieldNotFound("body".to_string()));
}

#[test]
fn three_documents_prefix_is_the_books_facet_itself() {
    let f = fixture();
    let r = search(&f, 2, &category(&["/cat/books"])).unwrap();
    assert_eq!(r.count, 3);
    assert_eq!(r.hits.len(), 2);
    assert_eq!(r.facets.len(), 1);
    assert!(r.facets[0].entries.is_empty());
}

#[test]
fn unbounded_limit_keeps_every_match() {
    let f = fixture();
    let r = search(&f, usize::MAX, &vec![]).unwrap();
    assert_eq!(r.count, 3);
    assert_eq!(r.hits.len(), 3);
}

#[test]
fn repeated_prefix_is_counted_once() {
    let f = fixture();
    let r = search(&f, 3, &category(&["/cat", "/cat"])).unwrap();
    let table: Vec<(String, u64)> =
        r.facets[0].entries.iter().map(|e| (e.path.clone(), e.count)).collect();
    assert_eq!(table, vec![("/cat/books".to_string(), 2), ("/cat/music".to_string(), 1)]);
}
