//! The query side: AND-gated candidate retrieval with per-document
//! scoring features, deterministic ranking of scored documents, and
//! Damerau-Levenshtein spelling-suggestion candidates.

use vstd::prelude::*;

use crate::indexer::DocMeta;
use crate::indexer::IndexStore;
use crate::indexer::Posting;
use crate::normalize::tokenize_spec;

verus! {

/// Whether document `doc` contains term `t`.
pub open spec fn doc_has_term(s: IndexStore, t: Seq<char>, doc: usize) -> bool {
    s.has_term(t) && exists|k: int|
        0 <= k < s.postings_for(t).len() && (#[trigger] s.postings_for(t)[k]).doc_id == doc
}

/// The index of document `doc`'s posting in term `t`'s list; meaningful
/// only when `doc_has_term` holds.
pub open spec fn posting_index(s: IndexStore, t: Seq<char>, doc: usize) -> int {
    choose|k: int|
        0 <= k < s.postings_for(t).len() && (#[trigger] s.postings_for(t)[k]).doc_id == doc
}

/// The positions of term `t` within document `doc`; meaningful only when
/// `doc_has_term` holds.
pub open spec fn doc_positions(s: IndexStore, t: Seq<char>, doc: usize) -> Seq<usize> {
    s.postings_for(t)[posting_index(s, t, doc)].positions@
}

/// The term frequency of `t` in document `doc`, zero when absent.
pub open spec fn doc_tf(s: IndexStore, t: Seq<char>, doc: usize) -> int {
    if doc_has_term(s, t, doc) {
        s.postings_for(t)[posting_index(s, t, doc)].tf as int
    } else {
        0
    }
}

/// The document frequency of term `t`: how many documents contain it.
pub open spec fn df_spec(s: IndexStore, t: Seq<char>) -> int {
    if s.has_term(t) {
        s.postings_for(t).len() as int
    } else {
        0
    }
}

/// A candidate document for a query: it contains every query term.
pub open spec fn is_candidate(s: IndexStore, qts: Seq<Seq<char>>, doc: usize) -> bool {
    forall|j: int| 0 <= j < qts.len() ==> doc_has_term(s, #[trigger] qts[j], doc)
}

/// Whether a document identifier appears in a list.
pub open spec fn seq_contains_doc(v: Seq<usize>, doc: usize) -> bool {
    exists|x: int| 0 <= x < v.len() && v[x] == doc
}

/// In a well-formed store the dictionary entry found for a term is the
/// term's unique entry.
pub proof fn lemma_term_index_is(s: IndexStore, t: Seq<char>, i: int)
    requires
        s.wf(),
        0 <= i < s.dict@.len(),
        s.dict@[i].term@ == t,
    ensures
        s.has_term(t),
        s.term_index(t) == i,
        s.postings_for(t) == s.dict@[i].postings@,
{
    assert(0 <= i < s.dict@.len() && (#[trigger] s.dict@[i]).term@ == t);
    let w = s.term_index(t);
    if w != i {
        if w < i {
            assert(s.dict@[w].term@ != s.dict@[i].term@);
        } else {
            assert(s.dict@[i].term@ != s.dict@[w].term@);
        }
    }
}

/// In a well-formed store the posting found for a document is the
/// document's unique posting in that term's list.
pub proof fn lemma_posting_index_is(s: IndexStore, t: Seq<char>, doc: usize, k: int)
    requires
        s.wf(),
        s.has_term(t),
        0 <= k < s.postings_for(t).len(),
        s.postings_for(t)[k].doc_id == doc,
    ensures
        doc_has_term(s, t, doc),
        posting_index(s, t, doc) == k,
{
    assert(0 <= k < s.postings_for(t).len() && (#[trigger] s.postings_for(t)[k]).doc_id == doc);
    let i = s.term_index(t);
    assert(crate::indexer::postings_wf(s.dict@[i].postings@, s.docs@));
    let w = posting_index(s, t, doc);
    if w != k {
        if w < k {
            assert(s.postings_for(t)[w].doc_id < s.postings_for(t)[k].doc_id);
        } else {
            assert(s.postings_for(t)[k].doc_id < s.postings_for(t)[w].doc_id);
        }
    }
}

/// Looks a document up in a posting list.
#[verifier::loop_isolation(false)]
fn posting_for_doc(ps: &Vec<Posting>, doc: usize) -> (r: Option<usize>)
    ensures
        match r {
            Some(k) => k < ps@.len() && ps@[k as int].doc_id == doc,
            None => forall|k: int| 0 <= k < ps@.len() ==> (#[trigger] ps@[k]).doc_id != doc,
        },
{
    let mut k: usize = 0;
    while k < ps.len()
        invariant
            k <= ps@.len(),
            forall|x: int| 0 <= x < k ==> (#[trigger] ps@[x]).doc_id != doc,
        decreases ps@.len() - k,
    {
        if ps[k].doc_id == doc {
            return Some(k);
        }
        k = k + 1;
    }
    None
}

/// The AND-gated candidate documents of a query, in ascending order: the
/// documents that contain every one of `qterms`. When any query term is
/// absent from the dictionary — or the query is empty — the result is
/// empty.
#[verifier::loop_isolation(false)]
pub fn candidate_docs(s: &IndexStore, qterms: &Vec<String>) -> (r: Vec<usize>)
    requires
        s.wf(),
    ensures
        forall|x: int, y: int| 0 <= x < y < r@.len() ==> r@[x] < r@[y],
        forall|doc: usize|
            #[trigger] seq_contains_doc(r@, doc) <==> (qterms@.len() > 0 && is_candidate(
                *s,
                qterms.deep_view(),
                doc,
            ) && doc < s.docs@.len()),
        (exists|j: int|
            0 <= j < qterms@.len() && !s.has_term(#[trigger] qterms.deep_view()[j])) ==> r@.len()
            == 0,
{
    let ghost qts = qterms.deep_view();
    if qterms.len() == 0 {
        return Vec::new();
    }
    let i0 = match s.find_term(&qterms[0]) {
        None => {
            proof {
                assert(qts[0] == qterms@[0]@);
                assert(forall|doc: usize| !doc_has_term(*s, qts[0], doc));
            }
            return Vec::new();
        },
        Some(i0) => i0,
    };
    proof {
        lemma_term_index_is(*s, qts[0], i0 as int);
        assert(crate::indexer::postings_wf(s.dict@[i0 as int].postings@, s.docs@));
    }
    let first = &s.dict[i0].postings;
    let mut cands: Vec<usize> = Vec::new();
    let mut k: usize = 0;
    while k < first.len()
        invariant
            k <= first@.len(),
            first@ == s.postings_for(qts[0]),
            cands@.len() == k,
            forall|x: int| 0 <= x < k ==> cands@[x] == (#[trigger] first@[x]).doc_id,
        decreases first@.len() - k,
    {
        cands.push(first[k].doc_id);
        k = k + 1;
    }
    proof {
        assert forall|doc: usize| #[trigger] seq_contains_doc(cands@, doc) <==> doc_has_term(
            *s,
            qts[0],
            doc,
        ) by {
            if seq_contains_doc(cands@, doc) {
                let c = choose|c: int| 0 <= c < cands@.len() && cands@[c] == doc;
                lemma_posting_index_is(*s, qts[0], doc, c);
            }
            if doc_has_term(*s, qts[0], doc) {
                let p = posting_index(*s, qts[0], doc);
                assert(cands@[p] == doc);
            }
        }
        assert forall|x: int, y: int| 0 <= x < y < cands@.len() implies cands@[x] < cands@[y] by {
            assert(first@[x].doc_id < first@[y].doc_id);
        }
    }
    let mut j: usize = 1;
    while j < qterms.len()
        invariant
            1 <= j <= qterms@.len(),
            forall|jj: int| 0 <= jj < j ==> s.has_term(#[trigger] qts[jj]),
            forall|x: int, y: int| 0 <= x < y < cands@.len() ==> cands@[x] < cands@[y],
            forall|doc: usize|
                #[trigger] seq_contains_doc(cands@, doc) <==> forall|jj: int|
                    0 <= jj < j ==> doc_has_term(*s, #[trigger] qts[jj], doc),
        decreases qterms@.len() - j,
    {
        let ghost cands0 = cands@;
        let i = match s.find_term(&qterms[j]) {
            None => {
                proof {
                    assert(qts[j as int] == qterms@[j as int]@);
                    assert(forall|doc: usize| !doc_has_term(*s, qts[j as int], doc));
                }
                return Vec::new();
            },
            Some(i) => i,
        };
        proof {
            lemma_term_index_is(*s, qts[j as int], i as int);
        }
        let ps = &s.dict[i].postings;
        let mut next: Vec<usize> = Vec::new();
        let mut c: usize = 0;
        while c < cands.len()
            invariant
                c <= cands@.len(),
                cands@ == cands0,
                ps@ == s.postings_for(qts[j as int]),
                forall|x: int, y: int| 0 <= x < y < cands@.len() ==> cands@[x] < cands@[y],
                forall|doc: usize|
                    #[trigger] seq_contains_doc(next@, doc) <==> (seq_contains_doc(
                        cands@.take(c as int),
                        doc,
                    ) && doc_has_term(*s, qts[j as int], doc)),
                forall|x: int, y: int| 0 <= x < y < next@.len() ==> next@[x] < next@[y],
                forall|x: int|
                    0 <= x < next@.len() ==> exists|y: int|
                        0 <= y < c && cands@[y] == #[trigger] next@[x],
            decreases cands@.len() - c,
        {
            let doc = cands[c];
            let ghost next0 = next@;
            let kept = match posting_for_doc(ps, doc) {
                Some(k) => {
                    proof {
                        lemma_posting_index_is(*s, qts[j as int], doc, k as int);
                        // the new document is larger than everything already kept
                        assert forall|x: int| 0 <= x < next0.len() implies next0[x] < doc by {
                            assert(seq_contains_doc(next0, next0[x]));
                            let y = choose|y: int|
                                0 <= y < cands@.take(c as int).len() && cands@.take(c as int)[y]
                                    == next0[x];
                            assert(cands@[y] < cands@[c as int]);
                        }
                    }
                    next.push(doc);
                    true
                },
                None => {
                    proof {
                        assert(!doc_has_term(*s, qts[j as int], doc));
                    }
                    false
                },
            };
            proof {
                assert forall|d: usize| #[trigger] seq_contains_doc(next@, d) <==> (
                seq_contains_doc(cands@.take(c as int + 1), d) && doc_has_term(
                    *s,
                    qts[j as int],
                    d,
                )) by {
                    assert(cands@.take(c as int + 1) =~= cands@.take(c as int).push(doc));
                    if kept {
                        assert(next@ =~= next0.push(doc));
                    }
                    if seq_contains_doc(next@, d) {
                        let x = choose|x: int| 0 <= x < next@.len() && next@[x] == d;
                        if x < next0.len() {
                            assert(seq_contains_doc(next0, d));
                            let y = choose|y: int|
                                0 <= y < cands@.take(c as int).len() && cands@.take(c as int)[y]
                                    == d;
                            assert(cands@.take(c as int + 1)[y] == d);
                            assert(seq_contains_doc(cands@.take(c as int + 1), d));
                        } else {
                            assert(d == doc);
                            assert(cands@.take(c as int + 1)[c as int] == d);
                            assert(seq_contains_doc(cands@.take(c as int + 1), d));
                        }
                    }
                    if seq_contains_doc(cands@.take(c as int + 1), d) && doc_has_term(
                        *s,
                        qts[j as int],
                        d,
                    ) {
                        let y = choose|y: int|
                            0 <= y < cands@.take(c as int + 1).len() && #[trigger] cands@.take(
                                c as int + 1,
                            )[y] == d;
                        if y < c {
                            assert(cands@.take(c as int)[y] == d);
                            assert(seq_contains_doc(cands@.take(c as int), d));
                            assert(seq_contains_doc(next0, d));
                            let x = choose|x: int| 0 <= x < next0.len() && next0[x] == d;
                            assert(next@[x] == d);
                            assert(seq_contains_doc(next@, d));
                        } else {
                            assert(d == doc);
                            assert(kept);
                            assert(next@[next@.len() - 1] == d);
                            assert(seq_contains_doc(next@, d));
                        }
                    }
                }
                assert forall|x: int| 0 <= x < next@.len() implies exists|y: int|
                    0 <= y < c + 1 && cands@[y] == #[trigger] next@[x] by {
                    if x < next0.len() {
                        let y = choose|y: int| 0 <= y < c && cands@[y] == next0[x];
                        assert(cands@[y] == next@[x]);
                    } else {
                        assert(cands@[c as int] == next@[x]);
                    }
                }
            }
            c = c + 1;
        }
        cands = next;
        proof {
            assert(cands0.take(cands0.len() as int) =~= cands0);
            assert forall|doc: usize| #[trigger] seq_contains_doc(cands@, doc) <==> forall|jj: int|
                0 <= jj < j + 1 ==> doc_has_term(*s, #[trigger] qts[jj], doc) by {
                if seq_contains_doc(cands@, doc) {
                    assert(seq_contains_doc(cands0, doc));
                    assert(forall|jj: int|
                        0 <= jj < j ==> doc_has_term(*s, #[trigger] qts[jj], doc));
                    assert forall|jj: int| 0 <= jj < j + 1 implies doc_has_term(
                        *s,
                        #[trigger] qts[jj],
                        doc,
                    ) by {
                        if jj == j {
                            assert(doc_has_term(*s, qts[j as int], doc));
                        }
                    }
                }
                if forall|jj: int| 0 <= jj < j + 1 ==> doc_has_term(*s, #[trigger] qts[jj], doc) {
                    assert(forall|jj: int|
                        0 <= jj < j ==> doc_has_term(*s, #[trigger] qts[jj], doc));
                    assert(seq_contains_doc(cands0, doc));
                    assert(doc_has_term(*s, qts[j as int], doc));
                }
            }
        }
        j = j + 1;
    }
    proof {
        assert forall|doc: usize| #[trigger] seq_contains_doc(cands@, doc) implies (is_candidate(
            *s,
            qts,
            doc,
        ) && doc < s.docs@.len()) by {
            assert(doc_has_term(*s, qts[0], doc));
            let p = posting_index(*s, qts[0], doc);
            let i = s.term_index(qts[0]);
            assert(crate::indexer::postings_wf(s.dict@[i].postings@, s.docs@));
            assert(crate::indexer::posting_wf(s.postings_for(qts[0])[p], s.docs@));
        }
        assert forall|doc: usize| (is_candidate(*s, qts, doc) && doc < s.docs@.len()) implies
            #[trigger] seq_contains_doc(cands@, doc) by {
            assert(forall|jj: int| 0 <= jj < qts.len() ==> doc_has_term(*s, #[trigger] qts[jj], doc));
        }
    }
    cands
}

/// A distance larger than any difference of two machine positions; it
/// stands in for the minimum over an empty set of position pairs.
pub open spec fn no_dist() -> int {
    0x1_0000_0000_0000_0000
}

/// The least |a - b| over b in `ps`, or `no_dist()` when `ps` is empty.
pub open spec fn min_dist_one(a: int, ps: Seq<usize>) -> int
    decreases ps.len(),
{
    if ps.len() == 0 {
        no_dist()
    } else {
        let rest = min_dist_one(a, ps.drop_last());
        let d = vstd::math::abs(a - ps.last()) as int;
        if d < rest {
            d
        } else {
            rest
        }
    }
}

/// The least |a - b| over a in `ps1` and b in `ps2`, or `no_dist()` when
/// either list is empty.
pub open spec fn min_pair_dist(ps1: Seq<usize>, ps2: Seq<usize>) -> int
    decreases ps1.len(),
{
    if ps1.len() == 0 {
        no_dist()
    } else {
        let rest = min_pair_dist(ps1.drop_last(), ps2);
        let d = min_dist_one(ps1.last() as int, ps2);
        if d < rest {
            d
        } else {
            rest
        }
    }
}

/// The minimum pair distance is non-negative, and below `no_dist()` as
/// soon as both lists are non-empty.
pub proof fn lemma_min_pair_dist_bounds(ps1: Seq<usize>, ps2: Seq<usize>)
    ensures
        0 <= min_pair_dist(ps1, ps2) <= no_dist(),
        ps1.len() >= 1 && ps2.len() >= 1 ==> min_pair_dist(ps1, ps2) < no_dist(),
    decreases ps1.len(),
{
    if ps1.len() > 0 {
        lemma_min_pair_dist_bounds(ps1.drop_last(), ps2);
        lemma_min_dist_one_bounds(ps1.last() as int, ps2);
    }
}

/// The one-sided minimum distance is non-negative, and below `no_dist()`
/// as soon as the list is non-empty and `a` is a machine position.
pub proof fn lemma_min_dist_one_bounds(a: int, ps: Seq<usize>)
    requires
        0 <= a <= usize::MAX,
    ensures
        0 <= min_dist_one(a, ps) <= no_dist(),
        ps.len() >= 1 ==> min_dist_one(a, ps) < no_dist(),
    decreases ps.len(),
{
    if ps.len() > 0 {
        lemma_min_dist_one_bounds(a, ps.drop_last());
    }
}

/// |a - b| as machine arithmetic.
fn dist_between(a: usize, b: usize) -> (d: usize)
    ensures
        d == vstd::math::abs(a - b),
{
    if a >= b {
        a - b
    } else {
        b - a
    }
}

/// The spec-level value of an optional distance.
pub open spec fn opt_dist(o: Option<usize>) -> int {
    match o {
        Option::None => no_dist(),
        Option::Some(d) => d as int,
    }
}

/// The least |a - b| over all pairs of positions of the two lists.
#[verifier::loop_isolation(false)]
fn min_pair_dist_exec(ps1: &Vec<usize>, ps2: &Vec<usize>) -> (r: usize)
    requires
        ps1@.len() >= 1,
        ps2@.len() >= 1,
    ensures
        r == min_pair_dist(ps1@, ps2@),
{
    let mut best: Option<usize> = None;
    let mut i: usize = 0;
    while i < ps1.len()
        invariant
            i <= ps1@.len(),
            opt_dist(best) == min_pair_dist(ps1@.take(i as int), ps2@),
        decreases ps1@.len() - i,
    {
        let a = ps1[i];
        let ghost entry = min_pair_dist(ps1@.take(i as int), ps2@);
        let mut j: usize = 0;
        while j < ps2.len()
            invariant
                j <= ps2@.len(),
                entry == min_pair_dist(ps1@.take(i as int), ps2@),
                opt_dist(best) == if entry <= min_dist_one(a as int, ps2@.take(j as int)) {
                    entry
                } else {
                    min_dist_one(a as int, ps2@.take(j as int))
                },
            decreases ps2@.len() - j,
        {
            let d = dist_between(a, ps2[j]);
            proof {
                assert(ps2@.take(j as int + 1).drop_last() =~= ps2@.take(j as int));
                assert(ps2@.take(j as int + 1).last() == ps2@[j as int]);
            }
            best = match best {
                Some(b) => if d < b {
                    Some(d)
                } else {
                    Some(b)
                },
                None => Some(d),
            };
            j = j + 1;
        }
        proof {
            assert(ps2@.take(ps2@.len() as int) =~= ps2@);
            assert(ps1@.take(i as int + 1).drop_last() =~= ps1@.take(i as int));
            assert(ps1@.take(i as int + 1).last() == ps1@[i as int]);
        }
        i = i + 1;
    }
    proof {
        assert(ps1@.take(ps1@.len() as int) =~= ps1@);
        lemma_min_pair_dist_bounds(ps1@, ps2@);
    }
    match best {
        Some(d) => d,
        None => {
            proof {
                assert(false);
            }
            0
        },
    }
}

/// The minimum distance between the positions of two terms within one
/// document, when the document contains both.
pub open spec fn pair_min_dist(s: IndexStore, t1: Seq<char>, t2: Seq<char>, doc: usize) -> Option<
    int,
> {
    if doc_has_term(s, t1, doc) && doc_has_term(s, t2, doc) {
        Option::Some(min_pair_dist(doc_positions(s, t1, doc), doc_positions(s, t2, doc)))
    } else {
        Option::None
    }
}

/// The accumulated minimum-distance total over the first `p` adjacent
/// query-term pairs within document `doc`; `None` while no pair has had
/// both of its terms in the document.
pub open spec fn prox_prefix(s: IndexStore, qts: Seq<Seq<char>>, doc: usize, p: int) -> Option<int>
    decreases p,
{
    if p <= 0 {
        Option::None
    } else {
        let prev = prox_prefix(s, qts, doc, p - 1);
        let cur = pair_min_dist(s, qts[p - 1], qts[p], doc);
        match (prev, cur) {
            (Option::None, Option::None) => Option::None,
            (Option::None, Option::Some(d)) => Option::Some(d),
            (Option::Some(acc), Option::None) => Option::Some(acc),
            (Option::Some(acc), Option::Some(d)) => Option::Some(acc + d),
        }
    }
}

/// The proximity measure of document `doc` for a query: the sum over
/// adjacent query-term pairs of the least distance between the two terms'
/// positions, ignoring pairs whose terms are absent; `None` for queries of
/// fewer than two terms.
pub open spec fn proximity_spec(s: IndexStore, qts: Seq<Seq<char>>, doc: usize) -> Option<int> {
    if qts.len() >= 2 {
        prox_prefix(s, qts, doc, qts.len() - 1)
    } else {
        Option::None
    }
}

/// In a well-formed store every pair distance is positive-bounded, so the
/// accumulated total stays below `p * no_dist()`.
pub proof fn lemma_prox_prefix_bounds(s: IndexStore, qts: Seq<Seq<char>>, doc: usize, p: int)
    requires
        s.wf(),
    ensures
        match prox_prefix(s, qts, doc, p) {
            Option::None => true,
            Option::Some(v) => 0 <= v <= p * (no_dist() - 1),
        },
    decreases p,
{
    if p > 0 {
        let cbound: int = 0xFFFF_FFFF_FFFF_FFFF;
        assert(no_dist() - 1 == cbound);
        lemma_prox_prefix_bounds(s, qts, doc, p - 1);
        match pair_min_dist(s, qts[p - 1], qts[p], doc) {
            Option::None => {},
            Option::Some(d) => {
                lemma_doc_positions_nonempty(s, qts[p - 1], doc);
                lemma_doc_positions_nonempty(s, qts[p], doc);
                lemma_min_pair_dist_bounds(
                    doc_positions(s, qts[p - 1], doc),
                    doc_positions(s, qts[p], doc),
                );
                assert((p - 1) * cbound + cbound == p * cbound);
            },
        }
        assert(p * (no_dist() - 1) == p * cbound);
    }
}

/// In a well-formed store a posting holds at least one position.
pub proof fn lemma_doc_positions_nonempty(s: IndexStore, t: Seq<char>, doc: usize)
    requires
        s.wf(),
        doc_has_term(s, t, doc),
    ensures
        doc_positions(s, t, doc).len() >= 1,
        s.postings_for(t)[posting_index(s, t, doc)].tf == doc_positions(s, t, doc).len(),
        0 <= posting_index(s, t, doc) < s.postings_for(t).len(),
        s.postings_for(t)[posting_index(s, t, doc)].doc_id == doc,
{
    let i = s.term_index(t);
    assert(0 <= i < s.dict@.len() && s.dict@[i].term@ == t);
    assert(crate::indexer::postings_wf(s.dict@[i].postings@, s.docs@));
    let k = posting_index(s, t, doc);
    assert(crate::indexer::posting_wf(s.postings_for(t)[k], s.docs@));
}

/// The spec-level value of an optional accumulated distance.
pub open spec fn opt_total(o: Option<u128>) -> Option<int> {
    match o {
        Option::None => Option::None,
        Option::Some(v) => Option::Some(v as int),
    }
}

/// The proximity measure of one document for a query, by scanning every
/// adjacent pair of query terms.
#[verifier::loop_isolation(false)]
pub fn doc_proximity(s: &IndexStore, qterms: &Vec<String>, doc: usize) -> (r: Option<u128>)
    requires
        s.wf(),
    ensures
        opt_total(r) == proximity_spec(*s, qterms.deep_view(), doc),
{
    let ghost qts = qterms.deep_view();
    if qterms.len() < 2 {
        return None;
    }
    let mut total: u128 = 0;
    let mut found = false;
    let mut p: usize = 1;
    while p < qterms.len()
        invariant
            s.wf(),
            1 <= p <= qts.len(),
            qts.len() == qterms@.len(),
            2 <= qts.len(),
            opt_total(if found {
                Some(total)
            } else {
                None
            }) == prox_prefix(*s, qts, doc, p as int - 1),
            !found ==> total == 0,
        decreases qterms@.len() - p,
    {
        proof {
            lemma_prox_prefix_bounds(*s, qts, doc, p as int - 1);
            assert(qterms@[p as int - 1]@ == qts[p as int - 1]);
            assert(qterms@[p as int]@ == qts[p as int]);
        }
        let r1 = match s.find_term(&qterms[p - 1]) {
            Some(i1) => {
                proof {
                    lemma_term_index_is(*s, qts[p as int - 1], i1 as int);
                }
                match posting_for_doc(&s.dict[i1].postings, doc) {
                    Some(k1) => {
                        proof {
                            lemma_posting_index_is(*s, qts[p as int - 1], doc, k1 as int);
                        }
                        Some((i1, k1))
                    },
                    None => None,
                }
            },
            None => None,
        };
        let r2 = match s.find_term(&qterms[p]) {
            Some(i2) => {
                proof {
                    lemma_term_index_is(*s, qts[p as int], i2 as int);
                }
                match posting_for_doc(&s.dict[i2].postings, doc) {
                    Some(k2) => {
                        proof {
                            lemma_posting_index_is(*s, qts[p as int], doc, k2 as int);
                        }
                        Some((i2, k2))
                    },
                    None => None,
                }
            },
            None => None,
        };
        let ghost prev = prox_prefix(*s, qts, doc, p as int - 1);
        let ghost curp = pair_min_dist(*s, qts[p as int - 1], qts[p as int], doc);
        if let (Some((i1, k1)), Some((i2, k2))) = (r1, r2) {
            proof {
                lemma_doc_positions_nonempty(*s, qts[p as int - 1], doc);
                lemma_doc_positions_nonempty(*s, qts[p as int], doc);
                assert(doc_positions(*s, qts[p as int - 1], doc) == s.dict@[i1 as int].postings@[k1 as int].positions@);
                assert(doc_positions(*s, qts[p as int], doc) == s.dict@[i2 as int].postings@[k2 as int].positions@);
                lemma_min_pair_dist_bounds(
                    doc_positions(*s, qts[p as int - 1], doc),
                    doc_positions(*s, qts[p as int], doc),
                );
            }
            let d = min_pair_dist_exec(
                &s.dict[i1].postings[k1].positions,
                &s.dict[i2].postings[k2].positions,
            );
            proof {
                assert(curp == Option::Some(d as int));
                assert(d < no_dist());
                if found {
                    assert(prev == Option::Some(total as int));
                    assert(total <= (p - 1) as int * 0xFFFF_FFFF_FFFF_FFFF);
                    assert((p - 1) as int * 0xFFFF_FFFF_FFFF_FFFF + 0xFFFF_FFFF_FFFF_FFFF
                        == p as int * 0xFFFF_FFFF_FFFF_FFFF);
                    assert(p as int * 0xFFFF_FFFF_FFFF_FFFF <= 0xFFFF_FFFF_FFFF_FFFF
                        * 0xFFFF_FFFF_FFFF_FFFF);
                    assert(total + d <= 0xFFFF_FFFF_FFFF_FFFF * 0xFFFF_FFFF_FFFF_FFFF);
                } else {
                    assert(prev is None);
                    assert(total == 0);
                }
            }
            total = total + (d as u128);
            found = true;
        } else {
            proof {
                if doc_has_term(*s, qts[p as int - 1], doc) && doc_has_term(
                    *s,
                    qts[p as int],
                    doc,
                ) {
                    lemma_doc_positions_nonempty(*s, qts[p as int - 1], doc);
                    lemma_doc_positions_nonempty(*s, qts[p as int], doc);
                    assert(false);
                }
                assert(curp is None);
            }
        }
        proof {
            assert(prox_prefix(*s, qts, doc, p as int) == match (prev, curp) {
                (Option::None, Option::None) => Option::<int>::None,
                (Option::None, Option::Some(dd)) => Option::Some(dd),
                (Option::Some(acc), Option::None) => Option::Some(acc),
                (Option::Some(acc), Option::Some(dd)) => Option::Some(acc + dd),
            });
        }
        p = p + 1;
    }
    if found {
        Some(total)
    } else {
        None
    }
}

/// How many of the query's terms, counted with multiplicity, appear among
/// the title's tokens.
pub open spec fn count_hits(qts: Seq<Seq<char>>, title_toks: Seq<Seq<char>>) -> int
    decreases qts.len(),
{
    if qts.len() == 0 {
        0
    } else {
        count_hits(qts.drop_last(), title_toks) + if title_toks.contains(qts.last()) {
            1int
        } else {
            0int
        }
    }
}

/// Whether a term occurs in a token list.
#[verifier::loop_isolation(false)]
fn term_in(v: &Vec<String>, t: &String) -> (b: bool)
    ensures
        b == v.deep_view().contains(t@),
{
    let mut k: usize = 0;
    while k < v.len()
        invariant
            k <= v@.len(),
            forall|x: int| 0 <= x < k ==> v.deep_view()[x] != t@,
        decreases v@.len() - k,
    {
        if v[k] == *t {
            assert(v.deep_view()[k as int] == t@);
            return true;
        }
        k = k + 1;
    }
    false
}

/// Counts the query terms that appear in the title of document `doc`,
/// with multiplicity over the query.
#[verifier::loop_isolation(false)]
pub fn count_title_hits(s: &IndexStore, qterms: &Vec<String>, doc: usize) -> (h: usize)
    requires
        doc < s.docs@.len(),
    ensures
        h == count_hits(qterms.deep_view(), tokenize_spec(s.docs@[doc as int].title@)),
{
    let ghost qts = qterms.deep_view();
    let title_tokens = crate::normalize::tokenize(s.docs[doc].title.as_str());
    let ghost tt = tokenize_spec(s.docs@[doc as int].title@);
    let mut h: usize = 0;
    let mut j: usize = 0;
    while j < qterms.len()
        invariant
            j <= qts.len(),
            qts.len() == qterms@.len(),
            title_tokens.deep_view() == tt,
            h == count_hits(qts.take(j as int), tt),
            h <= j,
        decreases qterms@.len() - j,
    {
        proof {
            assert(qts.take(j as int + 1).drop_last() =~= qts.take(j as int));
            assert(qts.take(j as int + 1).last() == qts[j as int]);
            assert(qterms@[j as int]@ == qts[j as int]);
        }
        if term_in(&title_tokens, &qterms[j]) {
            h = h + 1;
        }
        j = j + 1;
    }
    proof {
        assert(qts.take(qts.len() as int) =~= qts);
    }
    h
}

/// The integer scoring features of one candidate document for a query:
/// everything the ranking formula reads about the document.
pub struct DocFeatures {
    pub doc_id: usize,
    pub doc_len: usize,
    pub title_hits: usize,
    pub min_total_dist: Option<u128>,
    pub term_stats: Vec<(usize, usize)>,
}

/// The features of one candidate document are exactly the store's values:
/// its length, its title-hit count, its proximity measure, and one
/// `(tf, df)` pair per query term in query order.
pub open spec fn features_ok(s: IndexStore, qts: Seq<Seq<char>>, f: DocFeatures) -> bool {
    &&& is_candidate(s, qts, f.doc_id)
    &&& (f.doc_id as int) < s.docs@.len()
    &&& f.doc_len == s.docs@[f.doc_id as int].length
    &&& f.title_hits == count_hits(qts, tokenize_spec(s.docs@[f.doc_id as int].title@))
    &&& opt_total(f.min_total_dist) == proximity_spec(s, qts, f.doc_id)
    &&& f.term_stats@.len() == qts.len()
    &&& forall|j: int|
        0 <= j < qts.len() ==> (#[trigger] f.term_stats@[j]).0 == doc_tf(s, qts[j], f.doc_id)
            && f.term_stats@[j].1 == df_spec(s, qts[j])
}

/// The whole feature list for a query: one entry per candidate document,
/// in ascending document order, with exact features; a document appears
/// exactly when the query is non-empty and the document contains every
/// query term.
pub open spec fn search_features_ok(s: IndexStore, query: Seq<char>, r: Seq<DocFeatures>) -> bool {
    let qts = tokenize_spec(query);
    &&& forall|x: int, y: int| 0 <= x < y < r.len() ==> r[x].doc_id < r[y].doc_id
    &&& forall|c: int| 0 <= c < r.len() ==> features_ok(s, qts, #[trigger] r[c])
    &&& forall|doc: usize|
        (exists|c: int| 0 <= c < r.len() && (#[trigger] r[c]).doc_id == doc) <==> (qts.len() > 0
            && is_candidate(s, qts, doc) && (doc as int) < s.docs@.len())
}

/// Gathers, for every candidate document of the query, the integer
/// features that the ranking formula combines: AND-gated candidates with
/// their lengths, per-term frequencies and document frequencies, title
/// hits, and the proximity measure. Tokenization is the indexer's own, so
/// query terms meet the dictionary's terms exactly.
#[verifier::loop_isolation(false)]
pub fn search_features(s: &IndexStore, query: &str) -> (r: Vec<DocFeatures>)
    requires
        s.wf(),
    ensures
        search_features_ok(*s, query@, r@),
{
    let ghost qts = tokenize_spec(query@);
    let qterms = crate::normalize::tokenize(query);
    let cands = candidate_docs(s, &qterms);
    let mut out: Vec<DocFeatures> = Vec::new();
    let mut c: usize = 0;
    while c < cands.len()
        invariant
            s.wf(),
            c <= cands@.len(),
            qterms.deep_view() == qts,
            qterms@.len() == qts.len(),
            forall|x: int, y: int| 0 <= x < y < cands@.len() ==> cands@[x] < cands@[y],
            forall|doc: usize|
                #[trigger] seq_contains_doc(cands@, doc) <==> (qts.len() > 0 && is_candidate(
                    *s,
                    qts,
                    doc,
                ) && (doc as int) < s.docs@.len()),
            out@.len() == c,
            forall|x: int| 0 <= x < c ==> (#[trigger] out@[x]).doc_id == cands@[x],
            forall|x: int| 0 <= x < c ==> features_ok(*s, qts, #[trigger] out@[x]),
        decreases cands@.len() - c,
    {
        let doc = cands[c];
        proof {
            assert(seq_contains_doc(cands@, doc));
        }
        let doc_len = s.docs[doc].length;
        let title_hits = count_title_hits(s, &qterms, doc);
        let min_total_dist = doc_proximity(s, &qterms, doc);
        let mut term_stats: Vec<(usize, usize)> = Vec::new();
        let mut j: usize = 0;
        while j < qterms.len()
            invariant
                s.wf(),
                j <= qts.len(),
                qterms.deep_view() == qts,
                qterms@.len() == qts.len(),
                is_candidate(*s, qts, doc),
                term_stats@.len() == j,
                forall|x: int|
                    0 <= x < j ==> (#[trigger] term_stats@[x]).0 == doc_tf(*s, qts[x], doc)
                        && term_stats@[x].1 == df_spec(*s, qts[x]),
            decreases qterms@.len() - j,
        {
            proof {
                assert(qterms@[j as int]@ == qts[j as int]);
                assert(doc_has_term(*s, qts[j as int], doc));
            }
            let i = match s.find_term(&qterms[j]) {
                Some(i) => i,
                None => {
                    proof {
                        assert(false);
                    }
                    0
                },
            };
            proof {
                lemma_term_index_is(*s, qts[j as int], i as int);
            }
            let k = match posting_for_doc(&s.dict[i].postings, doc) {
                Some(k) => k,
                None => {
                    proof {
                        let w = posting_index(*s, qts[j as int], doc);
                        assert(s.postings_for(qts[j as int])[w].doc_id == doc);
                        assert(false);
                    }
                    0
                },
            };
            proof {
                lemma_posting_index_is(*s, qts[j as int], doc, k as int);
            }
            let tf = s.dict[i].postings[k].tf;
            let df = s.dict[i].postings.len();
            term_stats.push((tf, df));
            j = j + 1;
        }
        out.push(
            DocFeatures { doc_id: doc, doc_len, title_hits, min_total_dist, term_stats },
        );
        c = c + 1;
    }
    proof {
        assert forall|doc: usize|
            (exists|x: int| 0 <= x < out@.len() && (#[trigger] out@[x]).doc_id == doc) <==> (
        qts.len() > 0 && is_candidate(*s, qts, doc) && (doc as int) < s.docs@.len()) by {
            if exists|x: int| 0 <= x < out@.len() && (#[trigger] out@[x]).doc_id == doc {
                let x = choose|x: int| 0 <= x < out@.len() && (#[trigger] out@[x]).doc_id == doc;
                assert(cands@[x] == doc);
                assert(seq_contains_doc(cands@, doc));
            }
            if qts.len() > 0 && is_candidate(*s, qts, doc) && (doc as int) < s.docs@.len() {
                assert(seq_contains_doc(cands@, doc));
                let x = choose|x: int| 0 <= x < cands@.len() && cands@[x] == doc;
                assert(out@[x].doc_id == doc);
            }
        }
    }
    out
}

/// The total token count over all documents of the store.
pub open spec fn sum_doc_lengths(docs: Seq<DocMeta>) -> int
    decreases docs.len(),
{
    if docs.len() == 0 {
        0
    } else {
        sum_doc_lengths(docs.drop_last()) + docs.last().length
    }
}

/// Sums the lengths of all documents; together with `doc_count` this
/// yields the average document length the ranking formula divides by.
#[verifier::loop_isolation(false)]
pub fn total_doc_length(s: &IndexStore) -> (total: u128)
    ensures
        total == sum_doc_lengths(s.docs@),
{
    let mut total: u128 = 0;
    let mut d: usize = 0;
    while d < s.docs.len()
        invariant
            d <= s.docs@.len(),
            total == sum_doc_lengths(s.docs@.take(d as int)),
            total <= d as int * 0xFFFF_FFFF_FFFF_FFFF,
        decreases s.docs@.len() - d,
    {
        proof {
            assert(s.docs@.take(d as int + 1).drop_last() =~= s.docs@.take(d as int));
            assert(s.docs@.take(d as int + 1).last() == s.docs@[d as int]);
            assert(d as int * 0xFFFF_FFFF_FFFF_FFFF + 0xFFFF_FFFF_FFFF_FFFF == (d + 1) as int
                * 0xFFFF_FFFF_FFFF_FFFF);
            assert((d + 1) as int * 0xFFFF_FFFF_FFFF_FFFF <= 0xFFFF_FFFF_FFFF_FFFF
                * 0xFFFF_FFFF_FFFF_FFFF);
        }
        total = total + (s.docs[d].length as u128);
        d = d + 1;
    }
    proof {
        assert(s.docs@.take(s.docs@.len() as int) =~= s.docs@);
    }
    total
}

/// The proximity band of a candidate document: for a query of `n_terms`
/// terms and an accumulated distance `d`, band 3 holds when `d <= n - 1`,
/// band 2 when `d <= 2 * (n - 1)`, band 1 when `d <= 5 * (n - 1)`, and
/// band 0 otherwise; the first matching band applies. The three positive
/// bands carry the large, middle and small score boosts.
pub fn proximity_band(min_total_dist: u128, n_terms: usize) -> (band: u8)
    requires
        n_terms >= 2,
    ensures
        (band == 3) <==> min_total_dist <= n_terms - 1,
        (band == 2) <==> (n_terms - 1 < min_total_dist <= 2 * ((n_terms - 1) as int)),
        (band == 1) <==> (2 * ((n_terms - 1) as int) < min_total_dist <= 5 * ((n_terms - 1) as int)),
        (band == 0) <==> min_total_dist > 5 * ((n_terms - 1) as int),
{
    let n1 = (n_terms - 1) as u128;
    if min_total_dist <= n1 {
        3
    } else if min_total_dist <= 2 * n1 {
        2
    } else if min_total_dist <= 5 * n1 {
        1
    } else {
        0
    }
}

/// The ranking order on scored documents: higher score first, ties broken
/// by lower document identifier.
pub open spec fn ranked_before(a: (usize, u64), b: (usize, u64)) -> bool {
    a.1 > b.1 || (a.1 == b.1 && a.0 <= b.0)
}

/// A list sorted by descending score, ties by ascending document.
pub open spec fn ranked(s: Seq<(usize, u64)>) -> bool {
    forall|x: int, y: int| 0 <= x < y < s.len() ==> ranked_before(#[trigger] s[x], #[trigger] s[y])
}

/// Sorts scored documents by descending score, breaking ties by ascending
/// document identifier, and keeps the first `top_k`. The result is a
/// prefix of a ranking-sorted permutation of the input.
#[verifier::loop_isolation(false)]
pub fn rank_top_k(scored: Vec<(usize, u64)>, top_k: usize) -> (r: Vec<(usize, u64)>)
    ensures
        r@.len() == if top_k <= scored@.len() {
            top_k as int
        } else {
            scored@.len() as int
        },
        ranked(r@),
        exists|full: Seq<(usize, u64)>|
            (#[trigger] full.to_multiset()) == scored@.to_multiset() && ranked(full) && r@
                == full.take(r@.len() as int),
{
    broadcast use vstd::seq_lib::group_to_multiset_ensures;

    let ghost orig = scored@;
    let mut work = scored;
    let mut out: Vec<(usize, u64)> = Vec::new();
    while work.len() > 0
        invariant
            out@.len() + work@.len() == orig.len(),
            out@.to_multiset().add(work@.to_multiset()) =~= orig.to_multiset(),
            ranked(out@),
            forall|x: int, y: int|
                0 <= x < out@.len() && 0 <= y < work@.len() ==> ranked_before(
                    #[trigger] out@[x],
                    #[trigger] work@[y],
                ),
        decreases work@.len(),
    {
        let mut m: usize = 0;
        let mut k: usize = 1;
        while k < work.len()
            invariant
                m < k <= work@.len(),
                work@.len() >= 1,
                forall|y: int| 0 <= y < k ==> ranked_before(work@[m as int], #[trigger] work@[y]),
            decreases work@.len() - k,
        {
            let better = if work[k].1 > work[m].1 {
                true
            } else {
                work[k].1 == work[m].1 && work[k].0 < work[m].0
            };
            if better {
                m = k;
            }
            k = k + 1;
        }
        let ghost out0 = out@;
        let ghost work0 = work@;
        let item = work.remove(m);
        out.push(item);
        proof {
            assert(out@ =~= out0.push(item));
            assert(out@.to_multiset() =~= out0.to_multiset().insert(item));
            assert(work0.to_multiset().count(item) >= 1) by {
                assert(work0[m as int] == item);
                assert(work0.contains(item));
            }
            assert(work@.to_multiset() =~= work0.to_multiset().remove(item));
            assert(out@.to_multiset().add(work@.to_multiset()) =~= orig.to_multiset());
            assert forall|x: int, y: int|
                0 <= x < out@.len() && 0 <= y < work@.len() implies ranked_before(
                #[trigger] out@[x],
                #[trigger] work@[y],
            ) by {
                let yy = if y < m {
                    y
                } else {
                    y + 1
                };
                assert(work@[y] == work0[yy]);
                if x < out0.len() {
                    assert(ranked_before(out@[x], work0[yy]));
                } else {
                    assert(out@[x] == item);
                    assert(ranked_before(work0[m as int], work0[yy]));
                }
            }
        }
    }
    proof {
        assert(work@.to_multiset() =~= Seq::<(usize, u64)>::empty().to_multiset());
        assert(out@.to_multiset() =~= orig.to_multiset());
    }
    let ghost full = out@;
    let mut out = out;
    if top_k < out.len() {
        out.truncate(top_k);
    }
    proof {
        assert(out@ == full.take(out@.len() as int));
    }
    out
}

/// The AND gate: when any query term is absent from the dictionary, the
/// feature list — and with it the search result — is empty.
pub proof fn lemma_and_gate(s: IndexStore, query: Seq<char>, r: Seq<DocFeatures>)
    requires
        search_features_ok(s, query, r),
        exists|j: int|
            0 <= j < tokenize_spec(query).len() && !s.has_term(#[trigger] tokenize_spec(query)[j]),
    ensures
        r.len() == 0,
{
    let qts = tokenize_spec(query);
    let j = choose|j: int| 0 <= j < qts.len() && !s.has_term(#[trigger] qts[j]);
    if r.len() > 0 {
        let doc = r[0].doc_id;
        assert(exists|c: int| 0 <= c < r.len() && (#[trigger] r[c]).doc_id == doc);
        assert(is_candidate(s, qts, doc));
        assert(doc_has_term(s, qts[j], doc));
    }
}

/// Monotonicity of the BM25 term score in the term frequency: at equal
/// document length, a document with the higher term frequency scores no
/// lower on that term. The term score is idf * tf * (k1 + 1) / (tf + c)
/// with the same non-negative idf and the same positive c = cnum / cden on
/// both sides, so the comparison reduces, after clearing denominators, to
/// the product inequality stated here.
pub proof fn lemma_bm25_tf_monotone(tf1: int, tf2: int, cnum: int, cden: int)
    requires
        0 <= tf2 <= tf1,
        0 <= cnum,
        0 < cden,
    ensures
        tf1 * (tf2 * cden + cnum) >= tf2 * (tf1 * cden + cnum),
{
    assert(tf1 * (tf2 * cden + cnum) >= tf2 * (tf1 * cden + cnum)) by (nonlinear_arith)
        requires
            0 <= tf2 <= tf1,
            0 <= cnum,
            0 < cden,
    ;
}

/// Two strictly increasing lists over the same membership are equal.
pub proof fn lemma_sorted_same_set_equal(a: Seq<usize>, b: Seq<usize>)
    requires
        forall|x: int, y: int| 0 <= x < y < a.len() ==> a[x] < a[y],
        forall|x: int, y: int| 0 <= x < y < b.len() ==> b[x] < b[y],
        forall|d: usize| #[trigger] seq_contains_doc(a, d) <==> seq_contains_doc(b, d),
    ensures
        a == b,
    decreases a.len(),
{
    if a.len() == 0 {
        if b.len() > 0 {
            assert(seq_contains_doc(b, b[0]));
            assert(seq_contains_doc(a, b[0]));
            assert(false);
        }
        assert(a =~= b);
    } else {
        assert(seq_contains_doc(a, a.last()));
        assert(seq_contains_doc(b, a.last()));
        assert(b.len() > 0);
        assert(seq_contains_doc(a, b.last()));
        // the last element of each list is its maximum, so the two agree
        let xa = choose|x: int| 0 <= x < b.len() && b[x] == a.last();
        assert(b[xa] <= b.last());
        let xb = choose|x: int| 0 <= x < a.len() && a[x] == b.last();
        assert(a[xb] <= a.last());
        assert(a.last() == b.last());
        assert forall|d: usize| #[trigger] seq_contains_doc(a.drop_last(), d) <==> seq_contains_doc(
            b.drop_last(),
            d,
        ) by {
            lemma_drop_last_membership(a, d);
            lemma_drop_last_membership(b, d);
        }
        lemma_sorted_same_set_equal(a.drop_last(), b.drop_last());
        assert(a.drop_last().len() == b.drop_last().len());
        assert(a.len() == b.len());
        assert forall|i: int| 0 <= i < a.len() implies a[i] == b[i] by {
            if i < a.len() - 1 {
                assert(a.drop_last()[i] == b.drop_last()[i]);
            }
        }
        assert(a =~= b);
    }
}

/// Dropping the last element of a strictly increasing list removes
/// exactly that element from its membership.
pub proof fn lemma_drop_last_membership(s: Seq<usize>, d: usize)
    requires
        forall|x: int, y: int| 0 <= x < y < s.len() ==> s[x] < s[y],
        s.len() > 0,
    ensures
        seq_contains_doc(s.drop_last(), d) <==> (seq_contains_doc(s, d) && d != s.last()),
{
    if seq_contains_doc(s.drop_last(), d) {
        let x = choose|x: int| 0 <= x < s.drop_last().len() && s.drop_last()[x] == d;
        assert(s[x] == d);
        assert(s[x] < s[s.len() - 1]);
        assert(seq_contains_doc(s, d));
    }
    if seq_contains_doc(s, d) && d != s.last() {
        let x = choose|x: int| 0 <= x < s.len() && s[x] == d;
        if x == s.len() - 1 {
            assert(d == s.last());
            assert(false);
        }
        assert(s.drop_last()[x] == d);
        assert(seq_contains_doc(s.drop_last(), d));
    }
}

/// Whether two feature lists carry the same information, field by field.
pub open spec fn features_list_eq(a: Seq<DocFeatures>, b: Seq<DocFeatures>) -> bool {
    &&& a.len() == b.len()
    &&& forall|i: int|
        0 <= i < a.len() ==> {
            &&& (#[trigger] a[i]).doc_id == b[i].doc_id
            &&& a[i].doc_len == b[i].doc_len
            &&& a[i].title_hits == b[i].title_hits
            &&& a[i].min_total_dist == b[i].min_total_dist
            &&& a[i].term_stats@ == b[i].term_stats@
        }
}

/// Idempotence of the query side: the feature list of a query over a
/// frozen store is uniquely determined, so two evaluations of the same
/// query return the same result — there is no hidden state.
pub proof fn lemma_search_deterministic(
    s: IndexStore,
    query: Seq<char>,
    r1: Seq<DocFeatures>,
    r2: Seq<DocFeatures>,
)
    requires
        search_features_ok(s, query, r1),
        search_features_ok(s, query, r2),
    ensures
        features_list_eq(r1, r2),
{
    let qts = tokenize_spec(query);
    let ids1 = Seq::new(r1.len(), |i: int| r1[i].doc_id);
    let ids2 = Seq::new(r2.len(), |i: int| r2[i].doc_id);
    assert forall|d: usize| #[trigger] seq_contains_doc(ids1, d) <==> seq_contains_doc(ids2, d) by {
        assert(seq_contains_doc(ids1, d) <==> exists|c: int|
            0 <= c < r1.len() && (#[trigger] r1[c]).doc_id == d) by {
            if seq_contains_doc(ids1, d) {
                let x = choose|x: int| 0 <= x < ids1.len() && ids1[x] == d;
                assert(r1[x].doc_id == d);
            }
            if exists|c: int| 0 <= c < r1.len() && (#[trigger] r1[c]).doc_id == d {
                let c = choose|c: int| 0 <= c < r1.len() && (#[trigger] r1[c]).doc_id == d;
                assert(ids1[c] == d);
            }
        }
        assert(seq_contains_doc(ids2, d) <==> exists|c: int|
            0 <= c < r2.len() && (#[trigger] r2[c]).doc_id == d) by {
            if seq_contains_doc(ids2, d) {
                let x = choose|x: int| 0 <= x < ids2.len() && ids2[x] == d;
                assert(r2[x].doc_id == d);
            }
            if exists|c: int| 0 <= c < r2.len() && (#[trigger] r2[c]).doc_id == d {
                let c = choose|c: int| 0 <= c < r2.len() && (#[trigger] r2[c]).doc_id == d;
                assert(ids2[c] == d);
            }
        }
    }
    lemma_sorted_same_set_equal(ids1, ids2);
    assert forall|i: int| 0 <= i < r1.len() implies {
        &&& (#[trigger] r1[i]).doc_id == r2[i].doc_id
        &&& r1[i].doc_len == r2[i].doc_len
        &&& r1[i].title_hits == r2[i].title_hits
        &&& r1[i].min_total_dist == r2[i].min_total_dist
        &&& r1[i].term_stats@ == r2[i].term_stats@
    } by {
        assert(ids1[i] == ids2[i]);
        assert(features_ok(s, qts, r1[i]));
        assert(features_ok(s, qts, r2[i]));
        let doc = r1[i].doc_id;
        assert(opt_total(r1[i].min_total_dist) == opt_total(r2[i].min_total_dist));
        match (r1[i].min_total_dist, r2[i].min_total_dist) {
            (Option::Some(v1), Option::Some(v2)) => {
                assert(v1 as int == v2 as int);
            },
            _ => {},
        }
        assert forall|j: int| 0 <= j < qts.len() implies (#[trigger] r1[i].term_stats@[j])
            == r2[i].term_stats@[j] by {
            assert(r1[i].term_stats@[j].0 == doc_tf(s, qts[j], doc));
            assert(r2[i].term_stats@[j].0 == doc_tf(s, qts[j], doc));
            assert(r1[i].term_stats@[j].1 == df_spec(s, qts[j]));
        }
        assert(r1[i].term_stats@ =~= r2[i].term_stats@);
    }
}

/// The spelling-suggestion candidates: every dictionary term whose
/// Damerau-Levenshtein distance to the probe token is within `max_dist`,
/// in dictionary order, with its distance and its document frequency.
pub open spec fn suggest_spec(
    dict: Seq<crate::indexer::TermPostings>,
    token: Seq<char>,
    max_dist: int,
) -> Seq<(Seq<char>, int, int)>
    decreases dict.len(),
{
    if dict.len() == 0 {
        Seq::<(Seq<char>, int, int)>::empty()
    } else {
        let pre = suggest_spec(dict.drop_last(), token, max_dist);
        let e = dict.last();
        let d = dl_dist(e.term@, token, e.term@.len() as int, token.len() as int);
        if d <= max_dist {
            pre.push((e.term@, d, e.postings@.len() as int))
        } else {
            pre
        }
    }
}

/// Scans the whole dictionary and keeps every term within `max_dist` of
/// the probe token, with its distance and document frequency — the
/// candidates that suggestion scoring ranks.
#[verifier::loop_isolation(false)]
pub fn suggest_candidates(s: &IndexStore, token: &str, max_dist: usize) -> (r: Vec<
    (String, usize, usize),
>)
    ensures
        r@.len() == suggest_spec(s.dict@, token@, max_dist as int).len(),
        forall|i: int|
            0 <= i < r@.len() ==> {
                let ss = suggest_spec(s.dict@, token@, max_dist as int);
                &&& (#[trigger] r@[i]).0@ == ss[i].0
                &&& r@[i].1 == ss[i].1
                &&& r@[i].2 == ss[i].2
            },
{
    let mut out: Vec<(String, usize, usize)> = Vec::new();
    let mut i: usize = 0;
    while i < s.dict.len()
        invariant
            i <= s.dict@.len(),
            out@.len() == suggest_spec(s.dict@.take(i as int), token@, max_dist as int).len(),
            forall|x: int|
                0 <= x < out@.len() ==> {
                    let ss = suggest_spec(s.dict@.take(i as int), token@, max_dist as int);
                    &&& (#[trigger] out@[x]).0@ == ss[x].0
                    &&& out@[x].1 == ss[x].1
                    &&& out@[x].2 == ss[x].2
                },
        decreases s.dict@.len() - i,
    {
        proof {
            assert(s.dict@.take(i as int + 1).drop_last() =~= s.dict@.take(i as int));
            assert(s.dict@.take(i as int + 1).last() == s.dict@[i as int]);
        }
        let entry = &s.dict[i];
        let d = damerau_levenshtein(entry.term.as_str(), token);
        if d <= max_dist {
            out.push((entry.term.clone(), d, entry.postings.len()));
        }
        i = i + 1;
    }
    proof {
        assert(s.dict@.take(s.dict@.len() as int) =~= s.dict@);
    }
    out
}

/// The Damerau-Levenshtein distance between the first `i` characters of
/// `a` and the first `j` characters of `b`: insertion, deletion and
/// substitution cost one each, and swapping two adjacent characters costs
/// one.
pub open spec fn dl_dist(a: Seq<char>, b: Seq<char>, i: int, j: int) -> int
    decreases i + j,
{
    if i <= 0 {
        if j >= 0 {
            j
        } else {
            0
        }
    } else if j <= 0 {
        i
    } else {
        let cost: int = if a[i - 1] == b[j - 1] {
            0
        } else {
            1
        };
        let del = dl_dist(a, b, i - 1, j) + 1;
        let ins = dl_dist(a, b, i, j - 1) + 1;
        let sub = dl_dist(a, b, i - 1, j - 1) + cost;
        let base = if del <= ins && del <= sub {
            del
        } else if ins <= sub {
            ins
        } else {
            sub
        };
        if i > 1 && j > 1 && a[i - 1] == b[j - 2] && a[i - 2] == b[j - 1] {
            let swap = dl_dist(a, b, i - 2, j - 2) + 1;
            if swap <= base {
                swap
            } else {
                base
            }
        } else {
            base
        }
    }
}

/// The distance is non-negative and at most the longer of the two prefix
/// lengths.
pub proof fn lemma_dl_dist_bounds(a: Seq<char>, b: Seq<char>, i: int, j: int)
    requires
        0 <= i,
        0 <= j,
    ensures
        0 <= dl_dist(a, b, i, j),
        dl_dist(a, b, i, j) <= if i >= j {
            i
        } else {
            j
        },
    decreases i + j,
{
    if i <= 0 || j <= 0 {
    } else {
        lemma_dl_dist_bounds(a, b, i - 1, j);
        lemma_dl_dist_bounds(a, b, i, j - 1);
        lemma_dl_dist_bounds(a, b, i - 1, j - 1);
        if i > 1 && j > 1 {
            lemma_dl_dist_bounds(a, b, i - 2, j - 2);
        }
    }
}

/// The Damerau-Levenshtein distance between `a` and `b` over Unicode
/// characters, by dynamic programming over all prefix pairs.
#[verifier::loop_isolation(false)]
pub fn damerau_levenshtein(a: &str, b: &str) -> (d: usize)
    ensures
        d == dl_dist(a@, b@, a@.len() as int, b@.len() as int),
{
    let a_chars = crate::unicode::chars_of(a);
    let b_chars = crate::unicode::chars_of(b);
    let n = a_chars.len();
    let m = b_chars.len();
    let mut dp: Vec<Vec<usize>> = Vec::new();

    let mut row0: Vec<usize> = Vec::new();
    let mut j: usize = 0;
    while j < m
        invariant
            j <= m,
            row0@.len() == j,
            forall|c: int| 0 <= c < j ==> row0@[c] == dl_dist(a@, b@, 0, c),
        decreases m - j,
    {
        row0.push(j);
        j = j + 1;
    }
    row0.push(m);
    dp.push(row0);

    let mut i: usize = 0;
    while i < n
        invariant
            i <= n,
            dp@.len() == i + 1,
            forall|r: int| 0 <= r <= i ==> (#[trigger] dp@[r])@.len() == m + 1,
            forall|r: int, c: int|
                0 <= r <= i && 0 <= c <= m ==> #[trigger] (dp@[r])@[c] == dl_dist(a@, b@, r, c),
        decreases n - i,
    {
        let ri = i + 1;
        let mut cur: Vec<usize> = Vec::new();
        cur.push(ri);
        let mut j: usize = 0;
        while j < m
            invariant
                j <= m,
                cur@.len() == j + 1,
                forall|c: int| 0 <= c <= j ==> cur@[c] == dl_dist(a@, b@, ri as int, c),
            decreases m - j,
        {
            let cj = j + 1;
            proof {
                lemma_dl_dist_bounds(a@, b@, ri - 1, cj - 1);
                lemma_dl_dist_bounds(a@, b@, ri - 1, cj as int);
                lemma_dl_dist_bounds(a@, b@, ri as int, cj - 1);
                if ri > 1 && cj > 1 {
                    lemma_dl_dist_bounds(a@, b@, ri - 2, cj - 2);
                }
            }
            let cost: usize = if a_chars[ri - 1] == b_chars[cj - 1] {
                0
            } else {
                1
            };
            let mut best = dp[ri - 1][cj - 1] + cost;
            let del = dp[ri - 1][cj];
            if del < best {
                best = del + 1;
            }
            let ins = cur[cj - 1];
            if ins < best {
                best = ins + 1;
            }
            if ri > 1 && cj > 1 && a_chars[ri - 1] == b_chars[cj - 2] && a_chars[ri - 2]
                == b_chars[cj - 1] {
                let swap = dp[ri - 2][cj - 2];
                if swap < best {
                    best = swap + 1;
                }
            }
            assert(best == dl_dist(a@, b@, ri as int, cj as int));
            cur.push(best);
            j = j + 1;
        }
        dp.push(cur);
        i = i + 1;
    }
    dp[n][m]
}

} // verus!
