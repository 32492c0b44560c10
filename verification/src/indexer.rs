//! The in-memory data model of the positional inverted index, and the
//! builder that turns a sequence of pages into a frozen `IndexStore`.

use vstd::prelude::*;

use crate::normalize::tokenize_spec;

verus! {

/// One source document handed to the index builder: a stable identifier,
/// a plain-text title and a plain-text body.
pub struct Page {
    pub url: String,
    pub title: String,
    pub body: String,
}

/// The occurrences of one term in one document: the document's identifier,
/// the term frequency and the 0-based token positions, strictly
/// increasing.
#[derive(Clone)]
pub struct Posting {
    pub doc_id: usize,
    pub tf: usize,
    pub positions: Vec<usize>,
}

/// Metadata kept for one indexed document. `body` holds only a snippet of
/// the source body; `length` is the total number of tokens the document
/// contributed at indexing time.
pub struct DocMeta {
    pub url: String,
    pub title: String,
    pub body: String,
    pub length: usize,
}

/// One dictionary entry: a term together with its postings, sorted by
/// document identifier.
pub struct TermPostings {
    pub term: String,
    pub postings: Vec<Posting>,
}

/// The frozen index: a dictionary with one entry per term, the document
/// table, and the document count.
pub struct IndexStore {
    pub dict: Vec<TermPostings>,
    pub docs: Vec<DocMeta>,
    pub doc_count: usize,
}

/// A single posting is well formed against the document table: its
/// document exists, its term frequency counts its positions, it has at
/// least one position, and the positions are strictly increasing and lie
/// below the document's token count.
pub open spec fn posting_wf(p: Posting, docs: Seq<DocMeta>) -> bool {
    &&& p.doc_id < docs.len()
    &&& p.tf == p.positions@.len()
    &&& p.positions@.len() >= 1
    &&& forall|x: int, y: int|
        0 <= x < y < p.positions@.len() ==> p.positions@[x] < p.positions@[y]
    &&& forall|k: int| 0 <= k < p.positions@.len() ==> p.positions@[k] < docs[p.doc_id as int].length
}

/// A posting list is well formed: every posting is, and the postings are
/// strictly sorted by document identifier, so a term has at most one
/// posting per document.
pub open spec fn postings_wf(ps: Seq<Posting>, docs: Seq<DocMeta>) -> bool {
    &&& forall|k: int| 0 <= k < ps.len() ==> posting_wf(#[trigger] ps[k], docs)
    &&& forall|x: int, y: int| 0 <= x < y < ps.len() ==> ps[x].doc_id < ps[y].doc_id
}

impl IndexStore {
    /// The store's invariant: the document count equals the table's
    /// length, dictionary terms are distinct, and every posting list is
    /// well formed.
    pub open spec fn wf(self) -> bool {
        &&& self.doc_count == self.docs@.len()
        &&& forall|i: int, j: int|
            0 <= i < j < self.dict@.len() ==> self.dict@[i].term@ != self.dict@[j].term@
        &&& forall|i: int|
            0 <= i < self.dict@.len() ==> postings_wf(
                (#[trigger] self.dict@[i]).postings@,
                self.docs@,
            )
    }

    /// Whether the dictionary has an entry for term `t`.
    pub open spec fn has_term(self, t: Seq<char>) -> bool {
        exists|i: int| 0 <= i < self.dict@.len() && (#[trigger] self.dict@[i]).term@ == t
    }

    /// The dictionary index of term `t`; meaningful only when
    /// `has_term(t)` holds.
    pub open spec fn term_index(self, t: Seq<char>) -> int {
        choose|i: int| 0 <= i < self.dict@.len() && (#[trigger] self.dict@[i]).term@ == t
    }

    /// The posting list of term `t`; meaningful only when `has_term(t)`
    /// holds.
    pub open spec fn postings_for(self, t: Seq<char>) -> Seq<Posting> {
        self.dict@[self.term_index(t)].postings@
    }

    /// An empty, well-formed store.
    pub fn new() -> (s: Self)
        ensures
            s.wf(),
            s.dict@.len() == 0,
            s.docs@.len() == 0,
            s.doc_count == 0,
    {
        IndexStore { dict: Vec::new(), docs: Vec::new(), doc_count: 0 }
    }

    /// Looks the term up in the dictionary by its characters, returning
    /// the index of its entry.
    #[verifier::loop_isolation(false)]
    pub fn find_term(&self, t: &String) -> (r: Option<usize>)
        ensures
            match r {
                Some(i) => i < self.dict@.len() && self.dict@[i as int].term@ == t@,
                None => !self.has_term(t@),
            },
            r is Some <==> self.has_term(t@),
    {
        let mut i: usize = 0;
        while i < self.dict.len()
            invariant
                i <= self.dict@.len(),
                forall|j: int| 0 <= j < i ==> (#[trigger] self.dict@[j]).term@ != t@,
            decreases self.dict@.len() - i,
        {
            if self.dict[i].term == *t {
                return Some(i);
            }
            i = i + 1;
        }
        None
    }
}

/// The 0-based positions at which term `t` occurs in the token stream
/// `toks`, in increasing order.
pub open spec fn occ_positions(toks: Seq<Seq<char>>, t: Seq<char>) -> Seq<int>
    decreases toks.len(),
{
    if toks.len() == 0 {
        Seq::<int>::empty()
    } else {
        let pre = occ_positions(toks.drop_last(), t);
        if toks.last() == t {
            pre.push(toks.len() - 1)
        } else {
            pre
        }
    }
}

/// Occurrence positions are strictly increasing and in range, and a term
/// has at least one occurrence position exactly when it occurs somewhere
/// in the stream.
pub proof fn lemma_occ_positions_props(toks: Seq<Seq<char>>, t: Seq<char>)
    ensures
        forall|x: int, y: int|
            0 <= x < y < occ_positions(toks, t).len() ==> occ_positions(toks, t)[x]
                < occ_positions(toks, t)[y],
        forall|k: int|
            0 <= k < occ_positions(toks, t).len() ==> 0 <= #[trigger] occ_positions(toks, t)[k]
                < toks.len(),
        occ_positions(toks, t).len() > 0 <==> exists|p: int|
            0 <= p < toks.len() && toks[p] == t,
    decreases toks.len(),
{
    if toks.len() == 0 {
    } else {
        let pre = toks.drop_last();
        lemma_occ_positions_props(pre, t);
        assert(forall|p: int| 0 <= p < pre.len() ==> pre[p] == toks[p]);
        if occ_positions(toks, t).len() > 0 {
            if toks.last() == t {
                assert(toks[toks.len() - 1] == t);
            } else {
                assert(occ_positions(pre, t).len() > 0);
                let p = choose|p: int| 0 <= p < pre.len() && pre[p] == t;
                assert(toks[p] == t);
            }
        }
        if exists|p: int| 0 <= p < toks.len() && toks[p] == t {
            let p = choose|p: int| 0 <= p < toks.len() && toks[p] == t;
            if toks.last() != t {
                assert(p < pre.len());
                assert(pre[p] == t);
            }
        }
    }
}

/// Extending the stream by one token appends its position to that token's
/// occurrence list and leaves every other term's list unchanged.
pub proof fn lemma_occ_take_step(toks: Seq<Seq<char>>, p: int)
    requires
        0 <= p < toks.len(),
    ensures
        forall|t: Seq<char>| #[trigger]
            occ_positions(toks.take(p + 1), t) == if toks[p] == t {
                occ_positions(toks.take(p), t).push(p)
            } else {
                occ_positions(toks.take(p), t)
            },
{
    assert forall|t: Seq<char>| #[trigger]
        occ_positions(toks.take(p + 1), t) == if toks[p] == t {
            occ_positions(toks.take(p), t).push(p)
        } else {
            occ_positions(toks.take(p), t)
        } by {
        assert(toks.take(p + 1).drop_last() =~= toks.take(p));
        assert(toks.take(p + 1).last() == toks[p]);
    }
}

/// The snippet kept in a document's metadata: the first 500 characters of
/// the body.
pub open spec fn snippet_spec(body: Seq<char>) -> Seq<char> {
    if body.len() <= 500 {
        body
    } else {
        body.take(500)
    }
}

/// The token stream one page contributes to the index: the title's terms
/// followed by the body's terms.
pub open spec fn page_tokens(title: Seq<char>, body: Seq<char>) -> Seq<Seq<char>> {
    tokenize_spec(title) + tokenize_spec(body)
}

/// A machine position list records exactly the mathematical occurrence
/// list.
pub open spec fn seq_matches_positions(ps: Seq<usize>, occ: Seq<int>) -> bool {
    ps.len() == occ.len() && forall|k: int| 0 <= k < ps.len() ==> ps[k] == occ[k]
}

/// A per-document position table is exact for the token stream `toks`:
/// terms are distinct, each entry lists exactly its term's occurrence
/// positions (at least one), and every term that occurs has an entry.
pub open spec fn positions_table_exact(
    pairs: Seq<(String, Vec<usize>)>,
    toks: Seq<Seq<char>>,
) -> bool {
    &&& forall|i: int, j: int| 0 <= i < j < pairs.len() ==> pairs[i].0@ != pairs[j].0@
    &&& forall|i: int|
        0 <= i < pairs.len() ==> seq_matches_positions(
            (#[trigger] pairs[i]).1@,
            occ_positions(toks, pairs[i].0@),
        )
    &&& forall|i: int| 0 <= i < pairs.len() ==> (#[trigger] pairs[i]).1@.len() >= 1
    &&& forall|t: Seq<char>|
        occ_positions(toks, t).len() > 0 ==> exists|i: int|
            0 <= i < pairs.len() && (#[trigger] pairs[i]).0@ == t
}

/// Looks a term up in a per-document position table.
#[verifier::loop_isolation(false)]
fn table_find(pairs: &Vec<(String, Vec<usize>)>, t: &String) -> (r: Option<usize>)
    ensures
        match r {
            Some(i) => i < pairs@.len() && pairs@[i as int].0@ == t@,
            None => forall|i: int| 0 <= i < pairs@.len() ==> (#[trigger] pairs@[i]).0@ != t@,
        },
{
    let mut i: usize = 0;
    while i < pairs.len()
        invariant
            i <= pairs@.len(),
            forall|j: int| 0 <= j < i ==> (#[trigger] pairs@[j]).0@ != t@,
        decreases pairs@.len() - i,
    {
        if pairs[i].0 == *t {
            return Some(i);
        }
        i = i + 1;
    }
    None
}

/// Tokenizes one page (title first, then body) and collects, for each
/// distinct term, the positions at which it occurs in that token stream;
/// also returns the document's metadata, whose body is a snippet of at
/// most 500 characters and whose length is the total token count. This is
/// the pure per-document step of the build, independent for every page.
#[verifier::loop_isolation(false)]
pub fn process_page(page: &Page) -> (r: (DocMeta, Vec<(String, Vec<usize>)>))
    ensures
        r.0.url@ == page.url@,
        r.0.title@ == page.title@,
        r.0.body@ == snippet_spec(page.body@),
        r.0.length == page_tokens(page.title@, page.body@).len(),
        positions_table_exact(r.1@, page_tokens(page.title@, page.body@)),
{
    let ghost toks = page_tokens(page.title@, page.body@);
    let mut all_tokens = crate::normalize::tokenize(page.title.as_str());
    let mut body_tokens = crate::normalize::tokenize(page.body.as_str());
    all_tokens.append(&mut body_tokens);
    proof {
        assert(all_tokens.deep_view() =~= toks);
    }
    let length = all_tokens.len();
    let mut pairs: Vec<(String, Vec<usize>)> = Vec::new();
    let mut pos: usize = 0;
    while pos < length
        invariant
            pos <= length,
            length == toks.len(),
            all_tokens.deep_view() == toks,
            all_tokens@.len() == toks.len(),
            positions_table_exact(pairs@, toks.take(pos as int)),
        decreases length - pos,
    {
        proof {
            lemma_occ_take_step(toks, pos as int);
            assert(all_tokens@[pos as int]@ == toks[pos as int]);
        }
        let term = all_tokens[pos].clone();
        let ghost pairs0 = pairs@;
        let ghost mut widx: int = 0;
        match table_find(&pairs, &term) {
            Some(k) => {
                pairs[k].1.push(pos);
                proof {
                    widx = k as int;
                    assert(pairs@[widx].1@ =~= pairs0[widx].1@.push(pos));
                    assert(forall|i: int|
                        0 <= i < pairs@.len() && i != widx ==> pairs@[i] == pairs0[i]);
                }
            },
            None => {
                let mut first: Vec<usize> = Vec::new();
                first.push(pos);
                pairs.push((term, first));
                proof {
                    widx = pairs@.len() - 1;
                    assert(occ_positions(toks.take(pos as int), term@) =~= Seq::<int>::empty());
                    assert(forall|i: int|
                        0 <= i < pairs@.len() && i != widx ==> pairs@[i] == pairs0[i]);
                }
            },
        }
        proof {
            let ts = toks.take(pos as int + 1);
            let cur = toks[pos as int];
            assert(pairs@[widx].0@ == cur);
            assert(seq_matches_positions(pairs@[widx].1@, occ_positions(ts, cur)));
            assert forall|i: int| 0 <= i < pairs@.len() implies seq_matches_positions(
                (#[trigger] pairs@[i]).1@,
                occ_positions(ts, pairs@[i].0@),
            ) by {
                if i != widx {
                    assert(pairs@[i] == pairs0[i]);
                    assert(pairs@[i].0@ != cur);
                    assert(occ_positions(ts, pairs@[i].0@) == occ_positions(
                        toks.take(pos as int),
                        pairs@[i].0@,
                    ));
                }
            }
            assert forall|t: Seq<char>| occ_positions(ts, t).len() > 0 implies exists|i: int|
                0 <= i < pairs@.len() && (#[trigger] pairs@[i]).0@ == t by {
                if t == cur {
                    assert(pairs@[widx].0@ == t);
                } else {
                    assert(occ_positions(toks.take(pos as int), t).len() > 0);
                    let i = choose|i: int|
                        0 <= i < pairs0.len() && (#[trigger] pairs0[i]).0@ == t;
                    assert(pairs@[i].0@ == t);
                }
            }
        }
        pos = pos + 1;
    }
    proof {
        assert(toks.take(length as int) =~= toks);
    }
    let body_chars = crate::unicode::chars_of(page.body.as_str());
    let snippet: String = if body_chars.len() > 500 {
        let mut head: Vec<char> = Vec::new();
        let mut k: usize = 0;
        while k < 500
            invariant
                k <= 500,
                500 <= body_chars@.len(),
                head@ == body_chars@.take(k as int),
            decreases 500 - k,
        {
            head.push(body_chars[k]);
            assert(head@ =~= body_chars@.take(k as int + 1));
            k = k + 1;
        }
        crate::unicode::string_from_chars(&head)
    } else {
        page.body.clone()
    };
    let meta = DocMeta { url: page.url.clone(), title: page.title.clone(), body: snippet, length };
    (meta, pairs)
}

/// Whether the per-document table has an entry for term `t`.
pub open spec fn table_has(pairs: Seq<(String, Vec<usize>)>, t: Seq<char>) -> bool {
    exists|i: int| 0 <= i < pairs.len() && (#[trigger] pairs[i]).0@ == t
}

/// The position list of term `t` in the table; meaningful only when
/// `table_has` holds and the table's terms are distinct.
pub open spec fn table_positions(pairs: Seq<(String, Vec<usize>)>, t: Seq<char>) -> Vec<usize> {
    pairs[choose|i: int| 0 <= i < pairs.len() && (#[trigger] pairs[i]).0@ == t].1
}

/// A sequence of machine integers in strictly increasing order.
pub open spec fn strictly_increasing(s: Seq<usize>) -> bool {
    forall|x: int, y: int| 0 <= x < y < s.len() ==> s[x] < s[y]
}

/// Every element lies below `len`.
pub open spec fn all_below(s: Seq<usize>, len: int) -> bool {
    forall|k: int| 0 <= k < s.len() ==> s[k] < len
}

/// A per-document table fit for assembly against a document of `len`
/// tokens: distinct terms, each entry a non-empty, strictly increasing
/// position list below `len`.
pub open spec fn table_wf(pairs: Seq<(String, Vec<usize>)>, len: int) -> bool {
    &&& forall|i: int, j: int| 0 <= i < j < pairs.len() ==> pairs[i].0@ != pairs[j].0@
    &&& forall|i: int| 0 <= i < pairs.len() ==> (#[trigger] pairs[i]).1@.len() >= 1
    &&& forall|i: int| 0 <= i < pairs.len() ==> strictly_increasing((#[trigger] pairs[i]).1@)
    &&& forall|i: int| 0 <= i < pairs.len() ==> all_below((#[trigger] pairs[i]).1@, len)
}

/// An exact position table is fit for assembly.
pub proof fn lemma_exact_table_wf(pairs: Seq<(String, Vec<usize>)>, toks: Seq<Seq<char>>)
    requires
        positions_table_exact(pairs, toks),
    ensures
        table_wf(pairs, toks.len() as int),
{
    assert forall|i: int| 0 <= i < pairs.len() implies strictly_increasing(
        (#[trigger] pairs[i]).1@,
    ) && all_below(pairs[i].1@, toks.len() as int) by {
        lemma_occ_positions_props(toks, pairs[i].0@);
    }
}

/// Whether term `t` has been seen among the first `d` documents or among
/// the first `q` table entries of document `d`.
pub open spec fn covered(
    table: Seq<(DocMeta, Vec<(String, Vec<usize>)>)>,
    d: int,
    q: int,
    t: Seq<char>,
) -> bool {
    ||| exists|e: int| 0 <= e < d && table_has((#[trigger] table[e]).1@, t)
    ||| (d < table.len() && exists|j: int| 0 <= j < q && (#[trigger] table[d].1@[j]).0@ == t)
}

/// A single posting drawn from the processed documents: it records the
/// position list of term `t` in its document's table, and its document
/// lies among those already merged.
pub open spec fn posting_from(
    p: Posting,
    table: Seq<(DocMeta, Vec<(String, Vec<usize>)>)>,
    d: int,
    q: int,
    t: Seq<char>,
) -> bool {
    &&& p.doc_id <= d
    &&& (p.doc_id as int) < table.len()
    &&& (p.doc_id as int) < d ==> table_has(table[p.doc_id as int].1@, t)
    &&& p.doc_id == d ==> exists|j: int| 0 <= j < q && (#[trigger] table[d].1@[j]).0@ == t
    &&& p.positions == table_positions(table[p.doc_id as int].1@, t)
    &&& p.tf == p.positions@.len()
}

/// One dictionary entry mid-assembly: non-empty postings sorted strictly
/// by document, each drawn from a merged document, with one posting for
/// every merged document whose table has the term.
pub open spec fn entry_ok(
    entry: TermPostings,
    table: Seq<(DocMeta, Vec<(String, Vec<usize>)>)>,
    d: int,
    q: int,
) -> bool {
    let t = entry.term@;
    let ps = entry.postings@;
    &&& ps.len() >= 1
    &&& forall|x: int, y: int| 0 <= x < y < ps.len() ==> ps[x].doc_id < ps[y].doc_id
    &&& forall|k: int| 0 <= k < ps.len() ==> posting_from(#[trigger] ps[k], table, d, q, t)
    &&& forall|e: int|
        0 <= e < d && table_has((#[trigger] table[e]).1@, t) ==> exists|k: int|
            0 <= k < ps.len() && (#[trigger] ps[k]).doc_id == e
    &&& (d < table.len() && (exists|j: int| 0 <= j < q && (#[trigger] table[d].1@[j]).0@ == t))
        ==> exists|k: int| 0 <= k < ps.len() && (#[trigger] ps[k]).doc_id == d
}

/// The dictionary reflects exactly the first `d` documents plus the first
/// `q` table entries of document `d`: terms are distinct, every entry is
/// well drawn, and every covered term has an entry.
pub open spec fn dict_upto(
    dict: Seq<TermPostings>,
    table: Seq<(DocMeta, Vec<(String, Vec<usize>)>)>,
    d: int,
    q: int,
) -> bool {
    &&& forall|i: int, j: int| 0 <= i < j < dict.len() ==> dict[i].term@ != dict[j].term@
    &&& forall|i: int| 0 <= i < dict.len() ==> entry_ok(#[trigger] dict[i], table, d, q)
    &&& forall|t: Seq<char>|
        #[trigger] covered(table, d, q, t) ==> exists|i: int|
            0 <= i < dict.len() && (#[trigger] dict[i]).term@ == t
}

/// Finishing one document's table moves the dictionary's frontier to the
/// next document.
pub proof fn lemma_dict_next_doc(
    dict: Seq<TermPostings>,
    table: Seq<(DocMeta, Vec<(String, Vec<usize>)>)>,
    d: int,
)
    requires
        0 <= d < table.len(),
        dict_upto(dict, table, d, table[d].1@.len() as int),
    ensures
        dict_upto(dict, table, d + 1, 0),
{
    let full = table[d].1@.len() as int;
    assert forall|i: int| 0 <= i < dict.len() implies entry_ok(#[trigger] dict[i], table, d + 1, 0) by {
        let t = dict[i].term@;
        let ps = dict[i].postings@;
        assert(entry_ok(dict[i], table, d, full));
        assert forall|k: int| 0 <= k < ps.len() implies posting_from(
            #[trigger] ps[k],
            table,
            d + 1,
            0,
            t,
        ) by {
            assert(posting_from(ps[k], table, d, full, t));
            if ps[k].doc_id == d {
                assert(table_has(table[d].1@, t));
            }
        }
        assert forall|e: int| 0 <= e < d + 1 && table_has((#[trigger] table[e]).1@, t)
            implies exists|k: int| 0 <= k < ps.len() && (#[trigger] ps[k]).doc_id == e by {
            if e == d {
                let j = choose|j: int| 0 <= j < table[d].1@.len() && (#[trigger] table[d].1@[j]).0@ == t;
                assert(exists|j: int| 0 <= j < full && (#[trigger] table[d].1@[j]).0@ == t);
            }
        }
    }
    assert forall|t: Seq<char>| #[trigger] covered(table, d + 1, 0, t) implies exists|i: int|
        0 <= i < dict.len() && (#[trigger] dict[i]).term@ == t by {
        let e = choose|e: int| 0 <= e < d + 1 && table_has((#[trigger] table[e]).1@, t);
        if e == d {
            let j = choose|j: int| 0 <= j < table[d].1@.len() && (#[trigger] table[d].1@[j]).0@ == t;
            assert(exists|j: int| 0 <= j < full && (#[trigger] table[d].1@[j]).0@ == t);
            assert(covered(table, d, full, t));
        } else {
            assert(covered(table, d, full, t));
        }
    }
}

/// Looks a term up in the dictionary being assembled.
#[verifier::loop_isolation(false)]
fn dict_find(dict: &Vec<TermPostings>, t: &String) -> (r: Option<usize>)
    ensures
        match r {
            Some(i) => i < dict@.len() && dict@[i as int].term@ == t@,
            None => forall|i: int| 0 <= i < dict@.len() ==> (#[trigger] dict@[i]).term@ != t@,
        },
{
    let mut i: usize = 0;
    while i < dict.len()
        invariant
            i <= dict@.len(),
            forall|j: int| 0 <= j < i ==> (#[trigger] dict@[j]).term@ != t@,
        decreases dict@.len() - i,
    {
        if dict[i].term == *t {
            return Some(i);
        }
        i = i + 1;
    }
    None
}

/// Sequentially merges per-document results, in emission order, into a
/// frozen store: document identifiers are assigned 0, 1, 2, ... in input
/// order, the metadata is appended to the document table, and each table
/// entry of document `d` becomes the posting `(d, tf, positions)` of its
/// term, so posting lists come out sorted by document identifier.
#[verifier::loop_isolation(false)]
pub fn assemble(processed: Vec<(DocMeta, Vec<(String, Vec<usize>)>)>) -> (s: IndexStore)
    requires
        forall|d: int|
            0 <= d < processed@.len() ==> table_wf(
                (#[trigger] processed@[d]).1@,
                processed@[d].0.length as int,
            ),
    ensures
        s.wf(),
        s.doc_count == processed@.len(),
        s.docs@.len() == processed@.len(),
        forall|d: int| 0 <= d < processed@.len() ==> s.docs@[d] == (#[trigger] processed@[d]).0,
        dict_upto(s.dict@, processed@, processed@.len() as int, 0),
{
    let ghost table = processed@;
    let mut work = processed;
    let total = work.len();
    let mut dict: Vec<TermPostings> = Vec::new();
    let mut docs: Vec<DocMeta> = Vec::new();
    let mut d: usize = 0;
    while work.len() > 0
        invariant
            table.len() == total,
            d + work@.len() == table.len(),
            work@ == table.skip(d as int),
            docs@.len() == d,
            forall|e: int| 0 <= e < d ==> docs@[e] == (#[trigger] table[e]).0,
            dict_upto(dict@, table, d as int, 0),
        decreases work@.len(),
    {
        let (meta, mut pairs) = work.remove(0);
        proof {
            assert(table.skip(d as int)[0] == table[d as int]);
            assert(work@ =~= table.skip(d as int + 1));
        }
        docs.push(meta);
        let ghost pairs_full = table[d as int].1@;
        while pairs.len() > 0
            invariant
                d < table.len(),
                pairs@.len() <= pairs_full.len(),
                pairs@ == pairs_full.skip(pairs_full.len() - pairs@.len()),
                pairs_full == table[d as int].1@,
                dict_upto(dict@, table, d as int, pairs_full.len() - pairs@.len()),
            decreases pairs@.len(),
        {
            let ghost q = pairs_full.len() - pairs@.len();
            let (term, positions) = pairs.remove(0);
            proof {
                assert(pairs_full.skip(q)[0] == pairs_full[q]);
                assert((term, positions) == pairs_full[q]);
                assert(pairs@ =~= pairs_full.skip(q + 1));
                assert(table_wf(pairs_full, table[d as int].0.length as int));
            }
            let tf = positions.len();
            let posting = Posting { doc_id: d, tf, positions };
            proof {
                // the new posting is drawn from entry q of this document's table
                assert(pairs_full[q].0@ == term@);
                assert forall|j: int|
                    0 <= j < pairs_full.len() && (#[trigger] pairs_full[j]).0@ == term@
                    implies j == q by {
                    if j < q {
                        assert(pairs_full[j].0@ != pairs_full[q].0@);
                    } else if j > q {
                        assert(pairs_full[q].0@ != pairs_full[j].0@);
                    }
                }
                assert(table_has(pairs_full, term@));
                assert(table_positions(pairs_full, term@) == posting.positions);
            }
            let ghost dict0 = dict@;
            let ghost mut widx: int = 0;
            match dict_find(&dict, &term) {
                Some(i) => {
                    dict[i].postings.push(posting);
                    proof {
                        widx = i as int;
                        assert(dict@[widx].postings@ =~= dict0[widx].postings@.push(posting));
                        assert(forall|x: int|
                            0 <= x < dict@.len() && x != widx ==> dict@[x] == dict0[x]);
                        // every earlier posting of this entry is for an earlier document
                        assert(entry_ok(dict0[widx], table, d as int, q));
                        assert forall|k: int| 0 <= k < dict0[widx].postings@.len()
                            implies (#[trigger] dict0[widx].postings@[k]).doc_id < d by {
                            assert(posting_from(dict0[widx].postings@[k], table, d as int, q, term@));
                            if dict0[widx].postings@[k].doc_id == d {
                                let j = choose|j: int|
                                    0 <= j < q && (#[trigger] table[d as int].1@[j]).0@ == term@;
                                assert(j == q);
                            }
                        }
                    }
                },
                None => {
                    let mut ps: Vec<Posting> = Vec::new();
                    ps.push(posting);
                    dict.push(TermPostings { term, postings: ps });
                    proof {
                        widx = dict@.len() - 1;
                        assert(forall|x: int|
                            0 <= x < dict@.len() && x != widx ==> dict@[x] == dict0[x]);
                        // the term was not covered before, else the dictionary had it
                        assert(!covered(table, d as int, q, pairs_full[q].0@));
                    }
                },
            }
            proof {
                let t0 = pairs_full[q].0@;
                assert(dict@[widx].term@ == t0);
                assert forall|i: int| 0 <= i < dict@.len() implies entry_ok(
                    #[trigger] dict@[i],
                    table,
                    d as int,
                    q + 1,
                ) by {
                    let t = dict@[i].term@;
                    let ps = dict@[i].postings@;
                    if i == widx {
                        assert(posting_from(posting, table, d as int, q + 1, t0));
                        if 0 <= widx < dict0.len() {
                            assert(entry_ok(dict0[widx], table, d as int, q));
                            assert(forall|k: int|
                                0 <= k < ps.len() - 1 ==> ps[k] == dict0[widx].postings@[k]);
                        }
                        assert forall|e: int|
                            0 <= e < d && table_has((#[trigger] table[e]).1@, t) implies exists|k: int|
                            0 <= k < ps.len() && (#[trigger] ps[k]).doc_id == e by {
                            assert(0 <= widx < dict0.len() ==> {
                                let k = choose|k: int|
                                    0 <= k < dict0[widx].postings@.len() && (
                                    #[trigger] dict0[widx].postings@[k]).doc_id == e;
                                true
                            });
                            if 0 <= widx < dict0.len() {
                                let k = choose|k: int|
                                    0 <= k < dict0[widx].postings@.len() && (
                                    #[trigger] dict0[widx].postings@[k]).doc_id == e;
                                assert(ps[k].doc_id == e);
                            } else {
                                assert(covered(table, d as int, q, t));
                                assert(false);
                            }
                        }
                        assert(ps[ps.len() - 1].doc_id == d);
                    } else {
                        assert(dict@[i] == dict0[i]);
                        assert(entry_ok(dict0[i], table, d as int, q));
                        assert forall|k: int| 0 <= k < ps.len() implies posting_from(
                            #[trigger] ps[k],
                            table,
                            d as int,
                            q + 1,
                            t,
                        ) by {
                            assert(posting_from(ps[k], table, d as int, q, t));
                        }
                        if exists|j: int| 0 <= j < q + 1 && (#[trigger] table[d as int].1@[j]).0@ == t {
                            let j = choose|j: int|
                                0 <= j < q + 1 && (#[trigger] table[d as int].1@[j]).0@ == t;
                            if j == q {
                                assert(t == t0);
                                assert(dict@[i].term@ != dict@[widx].term@);
                                assert(false);
                            } else {
                                assert(exists|jj: int|
                                    0 <= jj < q && (#[trigger] table[d as int].1@[jj]).0@ == t);
                            }
                        }
                    }
                }
                assert forall|t: Seq<char>| #[trigger] covered(table, d as int, q + 1, t)
                    implies exists|i: int|
                    0 <= i < dict@.len() && (#[trigger] dict@[i]).term@ == t by {
                    if t == t0 {
                        assert(dict@[widx].term@ == t);
                    } else {
                        if exists|e: int| 0 <= e < d && table_has((#[trigger] table[e]).1@, t) {
                            assert(covered(table, d as int, q, t));
                        } else {
                            let j = choose|j: int|
                                0 <= j < q + 1 && (#[trigger] table[d as int].1@[j]).0@ == t;
                            assert(j != q);
                            assert(exists|jj: int|
                                0 <= jj < q && (#[trigger] table[d as int].1@[jj]).0@ == t);
                            assert(covered(table, d as int, q, t));
                        }
                        let i = choose|i: int|
                            0 <= i < dict0.len() && (#[trigger] dict0[i]).term@ == t;
                        assert(dict@[i].term@ == t);
                    }
                }
            }
        }
        proof {
            assert(pairs_full.len() - pairs@.len() == pairs_full.len());
            lemma_dict_next_doc(dict@, table, d as int);
        }
        d = d + 1;
    }
    let doc_count = docs.len();
    let s = IndexStore { dict, docs, doc_count };
    proof {
        assert(d == table.len());
        assert forall|i: int| 0 <= i < s.dict@.len() implies postings_wf(
            (#[trigger] s.dict@[i]).postings@,
            s.docs@,
        ) by {
            let t = s.dict@[i].term@;
            let ps = s.dict@[i].postings@;
            assert(entry_ok(s.dict@[i], table, table.len() as int, 0));
            assert forall|k: int| 0 <= k < ps.len() implies posting_wf(#[trigger] ps[k], s.docs@) by {
                assert(posting_from(ps[k], table, table.len() as int, 0, t));
                let e = ps[k].doc_id as int;
                assert(e < table.len());
                assert(table_has(table[e].1@, t));
                let j = choose|j: int|
                    0 <= j < table[e].1@.len() && (#[trigger] table[e].1@[j]).0@ == t;
                assert(table_wf(table[e].1@, table[e].0.length as int));
                assert(ps[k].positions == table[e].1@[j].1);
                assert(strictly_increasing(ps[k].positions@));
                assert(all_below(ps[k].positions@, table[e].0.length as int));
                assert(s.docs@[e] == table[e].0);
            }
        }
    }
    s
}

/// The token stream document `d` of `pages` contributes to the index.
pub open spec fn pages_tokens(pages: Seq<Page>, d: int) -> Seq<Seq<char>> {
    page_tokens(pages[d].title@, pages[d].body@)
}

/// The store is exactly the index of `pages`: document `d` records page
/// `d`'s url, title, body snippet and token count, a term is in the
/// dictionary exactly when it occurs in some page, and its posting list
/// carries, for each document that contains it, exactly its occurrence
/// positions there.
pub open spec fn built_from(s: IndexStore, pages: Seq<Page>) -> bool {
    &&& s.wf()
    &&& s.doc_count == pages.len()
    &&& s.docs@.len() == pages.len()
    &&& forall|d: int|
        0 <= d < pages.len() ==> {
            &&& (#[trigger] s.docs@[d]).url@ == pages[d].url@
            &&& s.docs@[d].title@ == pages[d].title@
            &&& s.docs@[d].body@ == snippet_spec(pages[d].body@)
            &&& s.docs@[d].length == pages_tokens(pages, d).len()
        }
    &&& forall|t: Seq<char>|
        #[trigger] s.has_term(t) <==> exists|d: int|
            0 <= d < pages.len() && occ_positions(#[trigger] pages_tokens(pages, d), t).len() > 0
    &&& forall|t: Seq<char>| #[trigger]
        s.has_term(t) ==> {
            let ps = s.postings_for(t);
            &&& forall|k: int|
                0 <= k < ps.len() ==> (#[trigger] ps[k]).doc_id < pages.len()
                    && seq_matches_positions(
                    ps[k].positions@,
                    occ_positions(pages_tokens(pages, ps[k].doc_id as int), t),
                ) && ps[k].tf == ps[k].positions@.len()
            &&& forall|d: int|
                0 <= d < pages.len() && occ_positions(#[trigger] pages_tokens(pages, d), t).len()
                    > 0 ==> exists|k: int| 0 <= k < ps.len() && (#[trigger] ps[k]).doc_id == d
        }
}

/// Builds the frozen index for a sequence of pages, in order: document
/// `d` holds page `d`'s url, title, body snippet and token count, and the
/// dictionary maps every term that occurs somewhere to one posting per
/// document that contains it, carrying exactly the term's occurrence
/// positions in that document's title-then-body token stream.
#[verifier::loop_isolation(false)]
pub fn build_from_pages(pages: &Vec<Page>) -> (s: IndexStore)
    ensures
        built_from(s, pages@),
{
    let mut processed: Vec<(DocMeta, Vec<(String, Vec<usize>)>)> = Vec::new();
    let mut d: usize = 0;
    while d < pages.len()
        invariant
            d <= pages@.len(),
            processed@.len() == d,
            forall|e: int|
                0 <= e < d ==> {
                    &&& (#[trigger] processed@[e]).0.url@ == pages@[e].url@
                    &&& processed@[e].0.title@ == pages@[e].title@
                    &&& processed@[e].0.body@ == snippet_spec(pages@[e].body@)
                    &&& processed@[e].0.length == pages_tokens(pages@, e).len()
                    &&& positions_table_exact(processed@[e].1@, pages_tokens(pages@, e))
                },
        decreases pages@.len() - d,
    {
        let r = process_page(&pages[d]);
        processed.push(r);
        d = d + 1;
    }
    proof {
        assert forall|e: int| 0 <= e < processed@.len() implies table_wf(
            (#[trigger] processed@[e]).1@,
            processed@[e].0.length as int,
        ) by {
            lemma_exact_table_wf(processed@[e].1@, pages_tokens(pages@, e));
        }
    }
    let ghost table = processed@;
    let s = assemble(processed);
    proof {
        let n = pages@.len() as int;
        assert forall|d: int| 0 <= d < n implies {
            &&& (#[trigger] s.docs@[d]).url@ == pages@[d].url@
            &&& s.docs@[d].title@ == pages@[d].title@
            &&& s.docs@[d].body@ == snippet_spec(pages@[d].body@)
            &&& s.docs@[d].length == pages_tokens(pages@, d).len()
        } by {
            assert(s.docs@[d] == (#[trigger] table[d]).0);
            assert(table[d].0.url@ == pages@[d].url@);
        }
        // a term is in the dictionary exactly when it occurs in some page
        assert forall|t: Seq<char>|
            #[trigger] s.has_term(t) <==> exists|d: int|
                0 <= d < n && occ_positions(#[trigger] pages_tokens(pages@, d), t).len() > 0 by {
            if s.has_term(t) {
                let i = choose|i: int|
                    0 <= i < s.dict@.len() && (#[trigger] s.dict@[i]).term@ == t;
                assert(entry_ok(s.dict@[i], table, n, 0));
                let ps = s.dict@[i].postings@;
                assert(posting_from(ps[0], table, n, 0, t));
                let e = ps[0].doc_id as int;
                assert(table_has(table[e].1@, t));
                let j = choose|j: int|
                    0 <= j < table[e].1@.len() && (#[trigger] table[e].1@[j]).0@ == t;
                assert(seq_matches_positions(
                    table[e].1@[j].1@,
                    occ_positions(pages_tokens(pages@, e), t),
                ));
                assert(table[e].1@[j].1@.len() >= 1);
                assert(occ_positions(pages_tokens(pages@, e), t).len() > 0);
            }
            if exists|d: int|
                0 <= d < n && occ_positions(#[trigger] pages_tokens(pages@, d), t).len() > 0 {
                let e = choose|d: int|
                    0 <= d < n && occ_positions(#[trigger] pages_tokens(pages@, d), t).len() > 0;
                assert(positions_table_exact(table[e].1@, pages_tokens(pages@, e)));
                assert(table_has(table[e].1@, t));
                assert(covered(table, n, 0, t));
                let i = choose|i: int|
                    0 <= i < s.dict@.len() && (#[trigger] s.dict@[i]).term@ == t;
                assert(s.has_term(t));
            }
        }
        assert forall|t: Seq<char>| #[trigger] s.has_term(t) implies {
            let ps = s.postings_for(t);
            &&& forall|k: int|
                0 <= k < ps.len() ==> (#[trigger] ps[k]).doc_id < pages@.len()
                    && seq_matches_positions(
                    ps[k].positions@,
                    occ_positions(pages_tokens(pages@, ps[k].doc_id as int), t),
                ) && ps[k].tf == ps[k].positions@.len()
            &&& forall|d: int|
                0 <= d < pages@.len() && occ_positions(
                    #[trigger] pages_tokens(pages@, d),
                    t,
                ).len() > 0 ==> exists|k: int| 0 <= k < ps.len() && (#[trigger] ps[k]).doc_id == d
        } by {
            let i = s.term_index(t);
            assert(0 <= i < s.dict@.len() && s.dict@[i].term@ == t);
            assert(entry_ok(s.dict@[i], table, n, 0));
            let ps = s.postings_for(t);
            assert(ps == s.dict@[i].postings@);
            assert forall|k: int| 0 <= k < ps.len() implies (#[trigger] ps[k]).doc_id
                < pages@.len() && seq_matches_positions(
                ps[k].positions@,
                occ_positions(pages_tokens(pages@, ps[k].doc_id as int), t),
            ) && ps[k].tf == ps[k].positions@.len() by {
                assert(posting_from(ps[k], table, n, 0, t));
                let e = ps[k].doc_id as int;
                assert(table_has(table[e].1@, t));
                let j = choose|j: int|
                    0 <= j < table[e].1@.len() && (#[trigger] table[e].1@[j]).0@ == t;
                assert(ps[k].positions == table[e].1@[j].1);
                assert(seq_matches_positions(
                    table[e].1@[j].1@,
                    occ_positions(pages_tokens(pages@, e), t),
                ));
            }
            assert forall|d: int|
                0 <= d < pages@.len() && occ_positions(#[trigger] pages_tokens(pages@, d), t).len()
                    > 0 implies exists|k: int| 0 <= k < ps.len() && (#[trigger] ps[k]).doc_id
                == d by {
                assert(positions_table_exact(table[d].1@, pages_tokens(pages@, d)));
                assert(table_has(table[d].1@, t));
            }
        }
    }
    s
}

} // verus!
