use parsearch::codec::decode_store;
use parsearch::codec::encode_store;
use parsearch::indexer::build_from_pages;
use parsearch::indexer::IndexStore;
use parsearch::indexer::Page;
use parsearch::search::damerau_levenshtein;
use parsearch::search::proximity_band;
use parsearch::search::rank_top_k;
use parsearch::search::search_features;
use parsearch::search::suggest_candidates;
use parsearch::search::total_doc_length;

fn build(docs: &[(&str, &str)]) -> IndexStore {
    let pages: Vec<Page> = docs
        .iter()
        .enumerate()
        .map(|(i, (title, body))| Page {
            url: format!("doc-{}", i),
            title: title.to_string(),
            body: body.to_string(),
        })
        .collect();
    build_from_pages(&pages)
}

fn indexed_corpus() -> IndexStore {
    build(&[
        ("کتاب خوب", "این یک کتاب خوب است"),
        ("خودرو", "خودرو سریع است"),
        ("کتابها", "مجموعه ای از کتاب ها و نوشته ها"),
    ])
}

/// The full ranking formula over the verified features: BM25 with k1=1.2
/// and b=0.75, the title boost, and the banded proximity boost.
fn run_search(index: &IndexStore, query: &str, top_k: usize) -> Vec<(usize, f64)> {
    let feats = search_features(index, query);
    if feats.is_empty() {
        return vec![];
    }
    let qlen = feats[0].term_stats.len();
    let doc_count = index.doc_count;
    let avg_len = total_doc_length(index) as f64 / doc_count.max(1) as f64;
    let k1 = 1.2_f64;
    let b = 0.75_f64;
    let mut scored: Vec<(usize, f64)> = Vec::new();
    for f in &feats {
        let mut score = 0.0_f64;
        for &(tf, df) in f.term_stats.iter() {
            let dff = df as f64;
            let idf = ((doc_count as f64 - dff + 0.5) / (dff + 0.5) + 1.0).ln();
            let tff = tf as f64;
            let denom = tff + k1 * (1.0 - b + b * (f.doc_len as f64) / avg_len.max(1.0));
            score += idf * (tff * (k1 + 1.0)) / denom;
        }
        if f.title_hits > 0 {
            score += f.title_hits as f64 * 5.0;
        }
        if qlen >= 2 {
            if let Some(d) = f.min_total_dist {
                score += match proximity_band(d, qlen) {
                    3 => 5.0,
                    2 => 2.5,
                    1 => 1.0,
                    _ => 0.0,
                };
            }
        }
        scored.push((f.doc_id, score));
    }
    let scaled: Vec<(usize, u64)> = scored
        .iter()
        .map(|&(d, s)| (d, (s * 1_000_000.0) as u64))
        .collect();
    rank_top_k(scaled, top_k)
        .into_iter()
        .map(|(d, s)| (d, s as f64 / 1_000_000.0))
        .collect()
}

fn result_ids(results: &[(usize, f64)]) -> Vec<usize> {
    results.iter().map(|&(d, _)| d).collect()
}

#[test]
fn single_term_query_finds_both_book_docs() {
    let idx = indexed_corpus();
    let results = run_search(&idx, "کتاب", 10);
    let ids = result_ids(&results);
    assert!(ids.contains(&0));
    assert!(ids.contains(&2));
    assert!(!ids.contains(&1));
}

#[test]
fn title_boost_applies_to_matching_title() {
    let idx = indexed_corpus();
    let feats = search_features(&idx, "کتاب");
    let d0 = feats.iter().find(|f| f.doc_id == 0).expect("doc 0 matches");
    assert!(d0.title_hits >= 1);
    // with the title boost doc 0 outranks doc 2
    let results = run_search(&idx, "کتاب", 10);
    assert_eq!(results[0].0, 0);
}

#[test]
fn two_term_query_is_and_gated() {
    let idx = indexed_corpus();
    let results = run_search(&idx, "خوب کتاب", 10);
    assert_eq!(result_ids(&results), vec![0]);
}

#[test]
fn adjacent_terms_get_the_top_proximity_band() {
    let idx = indexed_corpus();
    let feats = search_features(&idx, "خوب کتاب");
    assert_eq!(feats.len(), 1);
    assert_eq!(feats[0].doc_id, 0);
    let dist = feats[0].min_total_dist.expect("both terms present");
    assert_eq!(dist, 1);
    assert_eq!(proximity_band(dist, 2), 3);
}

#[test]
fn empty_query_yields_empty_result() {
    let idx = indexed_corpus();
    assert!(run_search(&idx, "", 10).is_empty());
    assert!(search_features(&idx, "   ").is_empty());
}

#[test]
fn repeated_query_terms_contribute_again() {
    let idx = indexed_corpus();
    let feats = search_features(&idx, "کتاب کتاب");
    assert!(!feats.is_empty());
    // one (tf, df) pair per query term, in query order, repeats included
    assert_eq!(feats[0].term_stats.len(), 2);
    assert_eq!(feats[0].term_stats[0], feats[0].term_stats[1]);
}

#[test]
fn absent_term_yields_empty_result() {
    let idx = indexed_corpus();
    assert!(run_search(&idx, "گربه", 10).is_empty());
}

#[test]
fn partially_absent_query_yields_empty_result() {
    let idx = indexed_corpus();
    assert!(run_search(&idx, "کتاب گربه", 10).is_empty());
}

#[test]
fn search_is_idempotent() {
    let idx = indexed_corpus();
    let first = run_search(&idx, "خوب کتاب", 10);
    let second = run_search(&idx, "خوب کتاب", 10);
    assert_eq!(first, second);
}

#[test]
fn suggestions_recover_transposed_term() {
    let idx = indexed_corpus();
    let cands = suggest_candidates(&idx, "کتبا", 2);
    let book = cands
        .iter()
        .find(|(t, _, _)| t == "کتاب")
        .expect("the transposed term is within distance two");
    assert_eq!(book.1, 1);
    // rank as the suggester does: -3 * distance + ln(df + 1), descending
    let mut ranked: Vec<(String, f64)> = cands
        .iter()
        .map(|(t, d, df)| (t.clone(), -3.0 * (*d as f64) + ((*df + 1) as f64).ln()))
        .collect();
    ranked.sort_by(|a, b| b.1.partial_cmp(&a.1).unwrap_or(std::cmp::Ordering::Equal));
    let top: Vec<String> = ranked.into_iter().take(3).map(|(t, _)| t).collect();
    assert!(top.contains(&"کتاب".to_string()));
}

#[test]
fn positions_and_lengths_of_a_tiny_document() {
    let idx = build(&[("", "a b a b a")]);
    let i = idx.find_term(&"a".to_string()).expect("term is indexed");
    let postings = &idx.dict[i].postings;
    assert_eq!(postings.len(), 1);
    assert_eq!(postings[0].doc_id, 0);
    assert_eq!(postings[0].tf, 3);
    assert_eq!(postings[0].positions, vec![0, 2, 4]);
    assert_eq!(idx.docs[0].length, 5);
}

#[test]
fn title_tokens_count_into_length_and_positions() {
    let idx = build(&[("x y", "y z")]);
    // stream: x y y z
    assert_eq!(idx.docs[0].length, 4);
    let i = idx.find_term(&"y".to_string()).unwrap();
    assert_eq!(idx.dict[i].postings[0].positions, vec![1, 2]);
}

#[test]
fn higher_tf_scores_no_lower_at_equal_length() {
    let idx = build(&[("", "x x y"), ("", "x y y")]);
    let results = run_search(&idx, "x", 10);
    assert_eq!(results.len(), 2);
    let s0 = results.iter().find(|r| r.0 == 0).unwrap().1;
    let s1 = results.iter().find(|r| r.0 == 1).unwrap().1;
    assert!(s0 >= s1);
    assert_eq!(results[0].0, 0);
}

#[test]
fn ranking_sorts_by_score_then_document() {
    let ranked = rank_top_k(vec![(0, 10), (1, 50), (2, 50), (3, 5)], 3);
    assert_eq!(ranked, vec![(1, 50), (2, 50), (0, 10)]);
}

#[test]
fn ranking_truncates_to_top_k() {
    let ranked = rank_top_k(vec![(7, 1), (8, 2)], 0);
    assert!(ranked.is_empty());
    let all = rank_top_k(vec![(7, 1), (8, 2)], 10);
    assert_eq!(all, vec![(8, 2), (7, 1)]);
}

#[test]
fn proximity_bands_have_the_documented_edges() {
    assert_eq!(proximity_band(1, 2), 3);
    assert_eq!(proximity_band(2, 2), 2);
    assert_eq!(proximity_band(5, 2), 1);
    assert_eq!(proximity_band(6, 2), 0);
    assert_eq!(proximity_band(3, 4), 3);
}

#[test]
fn edit_distance_counts_transpositions() {
    assert_eq!(damerau_levenshtein("کتبا", "کتاب"), 1);
    assert_eq!(damerau_levenshtein("کتاب", "کتبا"), 1);
    assert_eq!(damerau_levenshtein("ab", "ba"), 1);
    assert_eq!(damerau_levenshtein("abc", "abc"), 0);
    assert_eq!(damerau_levenshtein("", "abc"), 3);
    assert_eq!(damerau_levenshtein("kitten", "sitting"), 3);
}

#[test]
fn store_round_trips_through_the_codec() {
    let idx = indexed_corpus();
    let bytes = encode_store(&idx);
    let back = decode_store(&bytes).expect("a saved store loads");
    assert_eq!(back.doc_count, idx.doc_count);
    assert_eq!(back.docs.len(), idx.docs.len());
    for (a, b) in back.docs.iter().zip(idx.docs.iter()) {
        assert_eq!(a.url, b.url);
        assert_eq!(a.title, b.title);
        assert_eq!(a.body, b.body);
        assert_eq!(a.length, b.length);
    }
    assert_eq!(back.dict.len(), idx.dict.len());
    for (a, b) in back.dict.iter().zip(idx.dict.iter()) {
        assert_eq!(a.term, b.term);
        assert_eq!(a.postings.len(), b.postings.len());
        for (pa, pb) in a.postings.iter().zip(b.postings.iter()) {
            assert_eq!(pa.doc_id, pb.doc_id);
            assert_eq!(pa.tf, pb.tf);
            assert_eq!(pa.positions, pb.positions);
        }
    }
}

#[test]
fn decoder_rejects_garbage() {
    assert!(decode_store(&vec![1, 2, 3]).is_none());
    let idx = indexed_corpus();
    let mut bytes = encode_store(&idx);
    bytes.pop();
    assert!(decode_store(&bytes).is_none());
}

#[test]
fn snippet_keeps_only_the_first_five_hundred_characters() {
    let long_body = "y ".repeat(400);
    let idx = build(&[("t", &long_body)]);
    assert_eq!(idx.docs[0].body.chars().count(), 500);
}
