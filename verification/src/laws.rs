//! Store-level laws of a built index: the posting invariants, the
//! agreement of posting term frequencies with token occurrences, and the
//! decomposition of a document's length into its per-term frequencies.

use vstd::prelude::*;

use crate::indexer::IndexStore;
use crate::indexer::Page;
use crate::indexer::Posting;
use crate::indexer::built_from;
use crate::indexer::occ_positions;
use crate::indexer::pages_tokens;
use crate::indexer::posting_wf;
use crate::indexer::postings_wf;
use crate::search::doc_has_term;
use crate::search::doc_tf;
use crate::search::posting_index;

verus! {

/// Every posting of a built store is sound: its term frequency counts its
/// positions, its positions are strictly increasing and lie below its
/// document's length, its posting list is sorted strictly by document, and
/// every document identifier lies below the document count.
pub proof fn lemma_built_store_invariants(s: IndexStore, pages: Seq<Page>, t: Seq<char>)
    requires
        built_from(s, pages),
        s.has_term(t),
    ensures
        forall|k: int|
            0 <= k < s.postings_for(t).len() ==> {
                let p = #[trigger] s.postings_for(t)[k];
                &&& p.tf == p.positions@.len()
                &&& p.positions@.len() >= 1
                &&& (p.doc_id as int) < s.doc_count
                &&& forall|x: int, y: int|
                    0 <= x < y < p.positions@.len() ==> p.positions@[x] < p.positions@[y]
                &&& forall|m: int|
                    0 <= m < p.positions@.len() ==> p.positions@[m] < s.docs@[p.doc_id as int].length
            },
        forall|x: int, y: int|
            0 <= x < y < s.postings_for(t).len() ==> s.postings_for(t)[x].doc_id
                < s.postings_for(t)[y].doc_id,
{
    let i = s.term_index(t);
    assert(0 <= i < s.dict@.len() && s.dict@[i].term@ == t);
    assert(postings_wf(s.dict@[i].postings@, s.docs@));
    assert forall|k: int| 0 <= k < s.postings_for(t).len() implies {
        let p = #[trigger] s.postings_for(t)[k];
        &&& p.tf == p.positions@.len()
        &&& p.positions@.len() >= 1
        &&& (p.doc_id as int) < s.doc_count
        &&& forall|x: int, y: int|
            0 <= x < y < p.positions@.len() ==> p.positions@[x] < p.positions@[y]
        &&& forall|m: int|
            0 <= m < p.positions@.len() ==> p.positions@[m] < s.docs@[p.doc_id as int].length
    } by {
        assert(posting_wf(s.postings_for(t)[k], s.docs@));
    }
}

/// The term frequencies of a posting list, added up.
pub open spec fn sum_tf(ps: Seq<Posting>) -> int
    decreases ps.len(),
{
    if ps.len() == 0 {
        0
    } else {
        sum_tf(ps.drop_last()) + ps.last().tf
    }
}

/// The term frequencies of the postings for documents below `d`.
pub open spec fn sum_tf_below(ps: Seq<Posting>, d: int) -> int
    decreases ps.len(),
{
    if ps.len() == 0 {
        0
    } else {
        sum_tf_below(ps.drop_last(), d) + if (ps.last().doc_id as int) < d {
            ps.last().tf as int
        } else {
            0
        }
    }
}

/// The occurrences of term `t` across the token streams of the first `d`
/// pages, added up.
pub open spec fn total_occurrences(pages: Seq<Page>, t: Seq<char>, d: int) -> int
    decreases d,
{
    if d <= 0 {
        0
    } else {
        total_occurrences(pages, t, d - 1) + occ_positions(pages_tokens(pages, d - 1), t).len()
    }
}

/// Raising the document bound by one adds exactly the term frequency of
/// that document's posting, when there is one.
proof fn lemma_sum_tf_below_step(ps: Seq<Posting>, d: int)
    requires
        forall|x: int, y: int| 0 <= x < y < ps.len() ==> ps[x].doc_id < ps[y].doc_id,
    ensures
        sum_tf_below(ps, d + 1) == sum_tf_below(ps, d) + if exists|k: int|
            0 <= k < ps.len() && (#[trigger] ps[k]).doc_id == d {
            ps[choose|k: int| 0 <= k < ps.len() && (#[trigger] ps[k]).doc_id == d].tf as int
        } else {
            0
        },
    decreases ps.len(),
{
    if ps.len() == 0 {
    } else {
        let pre = ps.drop_last();
        let p = ps.last();
        assert(forall|x: int| 0 <= x < pre.len() ==> pre[x] == ps[x]);
        lemma_sum_tf_below_step(pre, d);
        if p.doc_id == d {
            // the last posting is the unique one for document d
            assert(!exists|k: int| 0 <= k < pre.len() && (#[trigger] pre[k]).doc_id == d) by {
                if exists|k: int| 0 <= k < pre.len() && (#[trigger] pre[k]).doc_id == d {
                    let k = choose|k: int| 0 <= k < pre.len() && (#[trigger] pre[k]).doc_id == d;
                    assert(ps[k].doc_id < ps[ps.len() - 1].doc_id);
                }
            }
            assert(exists|k: int| 0 <= k < ps.len() && (#[trigger] ps[k]).doc_id == d) by {
                assert(ps[ps.len() - 1].doc_id == d);
            }
            let w = choose|k: int| 0 <= k < ps.len() && (#[trigger] ps[k]).doc_id == d;
            assert(w == ps.len() - 1) by {
                if w < ps.len() - 1 {
                    assert(pre[w].doc_id == d);
                }
            }
        } else {
            // the last posting contributes equally on both sides
            if exists|k: int| 0 <= k < ps.len() && (#[trigger] ps[k]).doc_id == d {
                let w = choose|k: int| 0 <= k < ps.len() && (#[trigger] ps[k]).doc_id == d;
                assert(w < ps.len() - 1);
                assert(pre[w].doc_id == d);
                let wp = choose|k: int| 0 <= k < pre.len() && (#[trigger] pre[k]).doc_id == d;
                assert(wp == w) by {
                    if wp < w {
                        assert(ps[wp].doc_id < ps[w].doc_id);
                    } else if wp > w {
                        assert(ps[w].doc_id < ps[wp].doc_id);
                    }
                }
                assert(ps[w] == pre[wp]);
            } else {
                assert(!exists|k: int| 0 <= k < pre.len() && (#[trigger] pre[k]).doc_id == d) by {
                    if exists|k: int| 0 <= k < pre.len() && (#[trigger] pre[k]).doc_id == d {
                        let k = choose|k: int|
                            0 <= k < pre.len() && (#[trigger] pre[k]).doc_id == d;
                        assert(ps[k].doc_id == d);
                    }
                }
            }
        }
    }
}

/// The full sum of term frequencies equals the sum below any bound that
/// exceeds every document identifier in the list.
proof fn lemma_sum_tf_all_below(ps: Seq<Posting>, d: int)
    requires
        forall|k: int| 0 <= k < ps.len() ==> (#[trigger] ps[k]).doc_id < d,
    ensures
        sum_tf(ps) == sum_tf_below(ps, d),
    decreases ps.len(),
{
    if ps.len() > 0 {
        assert(forall|x: int| 0 <= x < ps.drop_last().len() ==> ps.drop_last()[x] == ps[x]);
        lemma_sum_tf_all_below(ps.drop_last(), d);
        assert(ps[ps.len() - 1].doc_id < d);
    }
}

/// The sum of a term's posting frequencies over a built store equals the
/// number of occurrences of that term across all documents' token
/// streams.
pub proof fn lemma_term_tf_total(s: IndexStore, pages: Seq<Page>, t: Seq<char>)
    requires
        built_from(s, pages),
        s.has_term(t),
    ensures
        sum_tf(s.postings_for(t)) == total_occurrences(pages, t, pages.len() as int),
{
    let ps = s.postings_for(t);
    let i = s.term_index(t);
    assert(0 <= i < s.dict@.len() && s.dict@[i].term@ == t);
    assert(postings_wf(s.dict@[i].postings@, s.docs@));
    assert forall|d: int| 0 <= d <= pages.len() implies sum_tf_below(ps, d) == total_occurrences(
        pages,
        t,
        d,
    ) by {
        lemma_tf_below_matches(s, pages, t, d);
    }
    lemma_sum_tf_all_below(ps, pages.len() as int);
}

/// For every bound `d`, the posting frequencies below `d` add up to the
/// occurrences across the first `d` documents.
proof fn lemma_tf_below_matches(s: IndexStore, pages: Seq<Page>, t: Seq<char>, d: int)
    requires
        built_from(s, pages),
        s.has_term(t),
        0 <= d <= pages.len(),
    ensures
        sum_tf_below(s.postings_for(t), d) == total_occurrences(pages, t, d),
    decreases d,
{
    let ps = s.postings_for(t);
    let i = s.term_index(t);
    assert(0 <= i < s.dict@.len() && s.dict@[i].term@ == t);
    assert(postings_wf(s.dict@[i].postings@, s.docs@));
    if d == 0 {
        lemma_sum_tf_below_zero(ps, 0);
    } else {
        lemma_tf_below_matches(s, pages, t, d - 1);
        lemma_sum_tf_below_step(ps, d - 1);
        let occ = occ_positions(pages_tokens(pages, d - 1), t);
        if occ.len() > 0 {
            assert(exists|k: int| 0 <= k < ps.len() && (#[trigger] ps[k]).doc_id == d - 1);
            let w = choose|k: int| 0 <= k < ps.len() && (#[trigger] ps[k]).doc_id == d - 1;
            assert(crate::indexer::seq_matches_positions(
                ps[w].positions@,
                occ_positions(pages_tokens(pages, ps[w].doc_id as int), t),
            ));
            assert(ps[w].tf == occ.len());
        } else {
            if exists|k: int| 0 <= k < ps.len() && (#[trigger] ps[k]).doc_id == d - 1 {
                let w = choose|k: int| 0 <= k < ps.len() && (#[trigger] ps[k]).doc_id == d - 1;
                assert(crate::indexer::seq_matches_positions(
                    ps[w].positions@,
                    occ_positions(pages_tokens(pages, ps[w].doc_id as int), t),
                ));
                assert(posting_wf(ps[w], s.docs@));
                assert(false);
            }
        }
    }
}

/// Below the bound zero nothing contributes.
proof fn lemma_sum_tf_below_zero(ps: Seq<Posting>, d: int)
    requires
        d <= 0,
    ensures
        sum_tf_below(ps, d) == 0,
    decreases ps.len(),
{
    if ps.len() > 0 {
        lemma_sum_tf_below_zero(ps.drop_last(), d);
    }
}

/// The occurrence counts of a list of terms within one token stream,
/// added up.
pub open spec fn sum_occ_over_terms(toks: Seq<Seq<char>>, terms: Seq<Seq<char>>) -> int
    decreases terms.len(),
{
    if terms.len() == 0 {
        0
    } else {
        sum_occ_over_terms(toks, terms.drop_last()) + occ_positions(toks, terms.last()).len()
    }
}

/// Over an empty token stream every occurrence count is zero.
proof fn lemma_sum_occ_empty(toks: Seq<Seq<char>>, terms: Seq<Seq<char>>)
    requires
        toks.len() == 0,
    ensures
        sum_occ_over_terms(toks, terms) == 0,
    decreases terms.len(),
{
    if terms.len() > 0 {
        lemma_sum_occ_empty(toks, terms.drop_last());
    }
}

/// Removing the last token lowers the summed occurrence counts by one,
/// provided the terms are distinct and one of them is that token.
proof fn lemma_sum_occ_step(toks: Seq<Seq<char>>, terms: Seq<Seq<char>>)
    requires
        toks.len() > 0,
        forall|x: int, y: int| 0 <= x < y < terms.len() ==> terms[x] != terms[y],
    ensures
        sum_occ_over_terms(toks, terms) == sum_occ_over_terms(toks.drop_last(), terms) + if
            terms.contains(toks.last()) {
            1int
        } else {
            0int
        },
    decreases terms.len(),
{
    if terms.len() > 0 {
        let pre = terms.drop_last();
        let tl = terms.last();
        assert(forall|x: int| 0 <= x < pre.len() ==> pre[x] == terms[x]);
        lemma_sum_occ_step(toks, pre);
        // unfold one step of the occurrence list for the last term
        assert(occ_positions(toks, tl) == if toks.last() == tl {
            occ_positions(toks.drop_last(), tl).push(toks.len() - 1)
        } else {
            occ_positions(toks.drop_last(), tl)
        });
        if tl == toks.last() {
            assert(!pre.contains(toks.last())) by {
                if pre.contains(toks.last()) {
                    let x = choose|x: int| 0 <= x < pre.len() && pre[x] == toks.last();
                    assert(terms[x] == terms[terms.len() - 1]);
                }
            }
            assert(terms.contains(toks.last())) by {
                assert(terms[terms.len() - 1] == toks.last());
            }
        } else {
            if terms.contains(toks.last()) {
                let x = choose|x: int| 0 <= x < terms.len() && terms[x] == toks.last();
                assert(x < terms.len() - 1);
                assert(pre[x] == toks.last());
                assert(pre.contains(toks.last()));
            } else {
                assert(!pre.contains(toks.last())) by {
                    if pre.contains(toks.last()) {
                        let x = choose|x: int| 0 <= x < pre.len() && pre[x] == toks.last();
                        assert(terms[x] == toks.last());
                        assert(terms.contains(toks.last()));
                    }
                }
            }
        }
    }
}

/// For distinct terms that cover every token of the stream, the occurrence
/// counts add up to the stream's length.
proof fn lemma_occ_counts_partition(toks: Seq<Seq<char>>, terms: Seq<Seq<char>>)
    requires
        forall|x: int, y: int| 0 <= x < y < terms.len() ==> terms[x] != terms[y],
        forall|p: int| 0 <= p < toks.len() ==> terms.contains(#[trigger] toks[p]),
    ensures
        sum_occ_over_terms(toks, terms) == toks.len(),
    decreases toks.len(),
{
    if toks.len() == 0 {
        lemma_sum_occ_empty(toks, terms);
    } else {
        let pre = toks.drop_last();
        assert(forall|p: int| 0 <= p < pre.len() ==> pre[p] == toks[p]);
        lemma_occ_counts_partition(pre, terms);
        lemma_sum_occ_step(toks, terms);
        assert(terms.contains(toks[toks.len() - 1]));
    }
}

/// The per-document term frequencies over the first `i` dictionary
/// entries, added up.
pub open spec fn sum_tf_for_doc(s: IndexStore, i: int, doc: usize) -> int
    decreases i,
{
    if i <= 0 {
        0
    } else {
        sum_tf_for_doc(s, i - 1, doc) + doc_tf(s, s.dict@[i - 1].term@, doc)
    }
}

/// In a built store, the term frequency of any dictionary term within one
/// document equals that term's occurrence count in the document's stream.
proof fn lemma_doc_tf_is_occ(s: IndexStore, pages: Seq<Page>, t: Seq<char>, doc: usize)
    requires
        built_from(s, pages),
        s.has_term(t),
        (doc as int) < pages.len(),
    ensures
        doc_tf(s, t, doc) == occ_positions(pages_tokens(pages, doc as int), t).len(),
{
    let ps = s.postings_for(t);
    let occ = occ_positions(pages_tokens(pages, doc as int), t);
    if doc_has_term(s, t, doc) {
        let k = posting_index(s, t, doc);
        assert(0 <= k < ps.len() && ps[k].doc_id == doc);
        assert(crate::indexer::seq_matches_positions(
            ps[k].positions@,
            occ_positions(pages_tokens(pages, ps[k].doc_id as int), t),
        ));
    } else {
        if occ.len() > 0 {
            assert(exists|k: int| 0 <= k < ps.len() && (#[trigger] ps[k]).doc_id == doc);
        }
    }
}

/// A document's recorded length equals the sum, over all dictionary
/// terms, of the term's frequency within that document.
pub proof fn lemma_doc_length_decomposition(s: IndexStore, pages: Seq<Page>, doc: usize)
    requires
        built_from(s, pages),
        (doc as int) < pages.len(),
    ensures
        s.docs@[doc as int].length == sum_tf_for_doc(s, s.dict@.len() as int, doc),
{
    let toks = pages_tokens(pages, doc as int);
    let n = s.dict@.len() as int;
    let terms = Seq::new(s.dict@.len(), |i: int| s.dict@[i].term@);
    assert forall|p: int| 0 <= p < toks.len() implies terms.contains(#[trigger] toks[p]) by {
        crate::indexer::lemma_occ_positions_props(toks, toks[p]);
        assert(occ_positions(toks, toks[p]).len() > 0);
        assert(exists|d: int|
            0 <= d < pages.len() && occ_positions(#[trigger] pages_tokens(pages, d), toks[p]).len()
                > 0) by {
            assert(occ_positions(pages_tokens(pages, doc as int), toks[p]).len() > 0);
        }
        assert(s.has_term(toks[p]));
        let i = choose|i: int| 0 <= i < s.dict@.len() && (#[trigger] s.dict@[i]).term@ == toks[p];
        assert(terms[i] == toks[p]);
    }
    lemma_occ_counts_partition(toks, terms);
    assert forall|i: int| 0 <= i <= n implies sum_tf_for_doc(s, i, doc) == sum_occ_over_terms(
        toks,
        terms.take(i),
    ) by {
        lemma_sums_align(s, pages, doc, terms, i);
    }
    assert(terms.take(n) =~= terms);
}

/// The dictionary-indexed frequency sum and the term-indexed occurrence
/// sum advance in step.
proof fn lemma_sums_align(
    s: IndexStore,
    pages: Seq<Page>,
    doc: usize,
    terms: Seq<Seq<char>>,
    i: int,
)
    requires
        built_from(s, pages),
        (doc as int) < pages.len(),
        terms == Seq::new(s.dict@.len(), |x: int| s.dict@[x].term@),
        0 <= i <= s.dict@.len(),
    ensures
        sum_tf_for_doc(s, i, doc) == sum_occ_over_terms(pages_tokens(pages, doc as int), terms.take(i)),
    decreases i,
{
    let toks = pages_tokens(pages, doc as int);
    if i > 0 {
        lemma_sums_align(s, pages, doc, terms, i - 1);
        assert(terms.take(i).drop_last() =~= terms.take(i - 1));
        assert(terms.take(i).last() == s.dict@[i - 1].term@);
        assert(s.has_term(s.dict@[i - 1].term@)) by {
            assert(0 <= i - 1 < s.dict@.len() && (#[trigger] s.dict@[i - 1]).term@ == s.dict@[i
                - 1].term@);
        }
        lemma_doc_tf_is_occ(s, pages, s.dict@[i - 1].term@, doc);
    }
}

} // verus!
