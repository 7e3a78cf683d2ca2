use tantivy_search::address::DocAddress;
use tantivy_search::facet::{facet_ancestor, facets_conflict, select_prefixes};
use tantivy_search::ranking::{order_hits, precedes, score_order_key, Hit};
use tantivy_search::search::{plan_from, FieldRequest, SearchError};
use tantivy_search::searcher::render_summary;

fn hit(score: f32, seg: u32, doc: u32) -> Hit {
    Hit::new(score.to_bits(), seg, doc)
}

fn strings(items: &[&str]) -> Vec<String> {
    items.iter().map(|s| s.to_string()).collect()
}

#[test]
fn address_accessors_and_equality() {
    let a = DocAddress::new(2, 7);
    assert_eq!(a.segment_ord(), 2);
    assert_eq!(a.doc(), 7);
    assert_eq!(a, DocAddress::new(2, 7));
    assert_ne!(a, DocAddress::new(7, 2));
}

#[test]
fn score_key_follows_float_order() {
    assert_eq!(score_order_key(1.0f32.to_bits()), 0xbf80_0000);
    assert_eq!(score_order_key((-1.0f32).to_bits()), 0x407f_ffff);
    assert_eq!(score_order_key(0.0f32.to_bits()), 0x8000_0000);
    let xs = [-3.5f32, -1.0, 0.0, 0.25, 1.0, 7.5];
    for w in xs.windows(2) {
        assert!(score_order_key(w[0].to_bits()) < score_order_key(w[1].to_bits()));
    }
}

#[test]
fn hits_ranked_by_descending_score() {
    let ranked = order_hits(vec![hit(0.5, 0, 1), hit(2.0, 1, 0), hit(1.0, 0, 3)]);
    let scores: Vec<f32> = ranked.iter().map(|h| f32::from_bits(h.score_bits)).collect();
    assert_eq!(scores, vec![2.0, 1.0, 0.5]);
}

#[test]
fn equal_scores_break_ties_by_segment_then_doc() {
    let ranked = order_hits(vec![hit(1.0, 1, 0), hit(1.0, 0, 5), hit(1.0, 0, 2), hit(3.0, 2, 9)]);
    let addrs: Vec<(u32, u32)> =
        ranked.iter().map(|h| (h.address.segment_ord(), h.address.doc())).collect();
    assert_eq!(addrs, vec![(2, 9), (0, 2), (0, 5), (1, 0)]);
    assert!(precedes(&ranked[1], &ranked[2]));
    assert!(!precedes(&ranked[2], &ranked[1]));
}

#[test]
fn ranking_is_the_same_for_any_input_order() {
    let a = order_hits(vec![hit(1.0, 0, 1), hit(1.0, 0, 0), hit(-2.0, 3, 3), hit(4.0, 1, 1)]);
    let b = order_hits(vec![hit(4.0, 1, 1), hit(-2.0, 3, 3), hit(1.0, 0, 0), hit(1.0, 0, 1)]);
    assert_eq!(a, b);
    assert_eq!(order_hits(vec![]), vec![]);
}

#[test]
fn facet_ancestry_on_encoded_paths() {
    assert!(facet_ancestor("a", "a\u{0}b"));
    assert!(!facet_ancestor("a", "ab"));
    assert!(!facet_ancestor("a", "a"));
    assert!(facet_ancestor("", "a"));
    assert!(!facet_ancestor("", ""));
    assert!(facets_conflict("a\u{0}b", "a"));
    assert!(!facets_conflict("a", "b"));
}

#[test]
fn prefixes_are_parsed_and_filtered() {
    let kept = select_prefixes(&strings(&["/cat/books", "cat", "", "/cat/books/old", "/dog", "/cat/books"]));
    let texts: Vec<&str> = kept.iter().map(|p| p.text.as_str()).collect();
    assert_eq!(texts, vec!["/cat/books", "/dog"]);
    assert_eq!(kept[0].encoded, "cat\u{0}books");
    assert_eq!(kept[1].encoded, "dog");
}

#[test]
fn root_prefix_conflicts_with_every_other() {
    let kept = select_prefixes(&strings(&["/", "/a"]));
    assert_eq!(kept.len(), 1);
    assert_eq!(kept[0].encoded, "");
}

#[test]
fn zero_limit_is_rejected() {
    let reqs = vec![FieldRequest { field: "category".to_string(), prefixes: strings(&["/a"]) }];
    assert_eq!(plan_from(0, &reqs, &vec![true]).unwrap_err(), SearchError::InvalidLimit);
}

#[test]
fn first_unknown_field_is_reported() {
    let reqs = vec![
        FieldRequest { field: "category".to_string(), prefixes: vec![] },
        FieldRequest { field: "colour".to_string(), prefixes: vec![] },
        FieldRequest { field: "shape".to_string(), prefixes: vec![] },
    ];
    let err = plan_from(10, &reqs, &vec![true, false, false]).unwrap_err();
    assert_eq!(err, SearchError::FieldNotFound("colour".to_string()));
}

#[test]
fn plan_keeps_fields_in_request_order() {
    let reqs = vec![
        FieldRequest { field: "b".to_string(), prefixes: strings(&["/x", "y"]) },
        FieldRequest { field: "a".to_string(), prefixes: vec![] },
    ];
    let plan = plan_from(3, &reqs, &vec![true, true]).unwrap();
    assert_eq!(plan.limit, 3);
    assert_eq!(plan.fields.len(), 2);
    assert_eq!(plan.fields[0].field, "b");
    assert_eq!(plan.fields[0].prefixes.len(), 1);
    assert_eq!(plan.fields[1].field, "a");
    assert!(plan.fields[1].prefixes.is_empty());
}

#[test]
fn summary_text_is_rendered() {
    assert_eq!(render_summary(3, 1), "Searcher(num_docs=3, num_segments=1)");
    assert_eq!(render_summary(0, 0), "Searcher(num_docs=0, num_segments=0)");
    assert_eq!(render_summary(1234567, 10), "Searcher(num_docs=1234567, num_segments=10)");
}
