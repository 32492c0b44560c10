//! The persistence format of the index: a single binary blob. Every
//! integer is eight little-endian bytes; a string is its character count
//! followed by one scalar value per character. The encoding is canonical:
//! the decoder accepts a blob exactly when it is the encoding of a store,
//! and returns a store that encodes back to the very same bytes.

use vstd::prelude::*;

use vstd::bytes::lemma_auto_spec_u64_to_from_le_bytes;
use vstd::bytes::spec_u64_to_le_bytes;
use vstd::bytes::u64_from_le_bytes;
use vstd::bytes::u64_to_le_bytes;

use crate::indexer::DocMeta;
use crate::indexer::IndexStore;
use crate::indexer::Posting;
use crate::indexer::TermPostings;

verus! {

/// The eight little-endian bytes of one integer.
pub open spec fn enc_u64(x: u64) -> Seq<u8> {
    spec_u64_to_le_bytes(x)
}

/// One scalar value per character, in order.
pub open spec fn enc_char_seq(s: Seq<char>) -> Seq<u8>
    decreases s.len(),
{
    if s.len() == 0 {
        Seq::<u8>::empty()
    } else {
        enc_char_seq(s.drop_last()) + enc_u64(s.last() as u64)
    }
}

/// A string: its character count, then its characters.
pub open spec fn enc_str(s: Seq<char>) -> Seq<u8> {
    enc_u64(s.len() as u64) + enc_char_seq(s)
}

/// One integer per position, in order.
pub open spec fn enc_usize_seq(s: Seq<usize>) -> Seq<u8>
    decreases s.len(),
{
    if s.len() == 0 {
        Seq::<u8>::empty()
    } else {
        enc_usize_seq(s.drop_last()) + enc_u64(s.last() as u64)
    }
}

/// A posting: document identifier, term frequency, position count, then
/// the positions.
pub open spec fn enc_posting(p: Posting) -> Seq<u8> {
    enc_u64(p.doc_id as u64) + enc_u64(p.tf as u64) + enc_u64(p.positions@.len() as u64)
        + enc_usize_seq(p.positions@)
}

/// A posting list, one posting after the other.
pub open spec fn enc_postings(ps: Seq<Posting>) -> Seq<u8>
    decreases ps.len(),
{
    if ps.len() == 0 {
        Seq::<u8>::empty()
    } else {
        enc_postings(ps.drop_last()) + enc_posting(ps.last())
    }
}

/// A document's metadata: url, title, body snippet, token count.
pub open spec fn enc_doc(d: DocMeta) -> Seq<u8> {
    enc_str(d.url@) + enc_str(d.title@) + enc_str(d.body@) + enc_u64(d.length as u64)
}

/// The document table, one document after the other.
pub open spec fn enc_docs(ds: Seq<DocMeta>) -> Seq<u8>
    decreases ds.len(),
{
    if ds.len() == 0 {
        Seq::<u8>::empty()
    } else {
        enc_docs(ds.drop_last()) + enc_doc(ds.last())
    }
}

/// A dictionary entry: the term, the posting count, then the postings.
pub open spec fn enc_entry(e: TermPostings) -> Seq<u8> {
    enc_str(e.term@) + enc_u64(e.postings@.len() as u64) + enc_postings(e.postings@)
}

/// The dictionary, one entry after the other.
pub open spec fn enc_dict(dict: Seq<TermPostings>) -> Seq<u8>
    decreases dict.len(),
{
    if dict.len() == 0 {
        Seq::<u8>::empty()
    } else {
        enc_dict(dict.drop_last()) + enc_entry(dict.last())
    }
}

/// The whole store: document count, document table with its length, then
/// the dictionary with its length.
pub open spec fn store_bytes(s: IndexStore) -> Seq<u8> {
    enc_u64(s.doc_count as u64) + enc_u64(s.docs@.len() as u64) + enc_docs(s.docs@) + enc_u64(
        s.dict@.len() as u64,
    ) + enc_dict(s.dict@)
}

/// Appends the eight bytes of one integer.
fn put_u64(out: &mut Vec<u8>, x: u64)
    ensures
        final(out)@ == old(out)@ + enc_u64(x),
{
    let mut b = u64_to_le_bytes(x);
    out.append(&mut b);
}

/// Appends the characters of a string, preceded by its count.
#[verifier::loop_isolation(false)]
fn put_str(out: &mut Vec<u8>, s: &String)
    ensures
        final(out)@ == old(out)@ + enc_str(s@),
        s@.len() <= usize::MAX,
{
    let chars = crate::unicode::chars_of(s.as_str());
    put_u64(out, chars.len() as u64);
    let ghost base = out@;
    let mut i: usize = 0;
    while i < chars.len()
        invariant
            i <= chars@.len(),
            chars@ == s@,
            out@ == base + enc_char_seq(s@.take(i as int)),
        decreases chars@.len() - i,
    {
        proof {
            assert(s@.take(i as int + 1).drop_last() =~= s@.take(i as int));
            assert(s@.take(i as int + 1).last() == s@[i as int]);
        }
        put_u64(out, chars[i] as u64);
        i = i + 1;
    }
    proof {
        assert(s@.take(s@.len() as int) =~= s@);
    }
}

/// Appends the positions of a posting, preceded by none of its framing.
#[verifier::loop_isolation(false)]
fn put_usizes(out: &mut Vec<u8>, v: &Vec<usize>)
    ensures
        final(out)@ == old(out)@ + enc_usize_seq(v@),
        v@.len() <= usize::MAX,
{
    let ghost base = out@;
    let mut i: usize = 0;
    while i < v.len()
        invariant
            i <= v@.len(),
            out@ == base + enc_usize_seq(v@.take(i as int)),
        decreases v@.len() - i,
    {
        proof {
            assert(v@.take(i as int + 1).drop_last() =~= v@.take(i as int));
            assert(v@.take(i as int + 1).last() == v@[i as int]);
        }
        put_u64(out, v[i] as u64);
        i = i + 1;
    }
    proof {
        assert(v@.take(v@.len() as int) =~= v@);
    }
}

/// Appends one document's metadata.
fn put_doc(out: &mut Vec<u8>, doc: &DocMeta)
    ensures
        final(out)@ == old(out)@ + enc_doc(*doc),
        doc_bounded(*doc),
{
    put_str(out, &doc.url);
    put_str(out, &doc.title);
    put_str(out, &doc.body);
    put_u64(out, doc.length as u64);
}

/// Appends one dictionary entry with its postings.
#[verifier::loop_isolation(false)]
fn put_entry(out: &mut Vec<u8>, entry: &TermPostings)
    ensures
        final(out)@ == old(out)@ + enc_entry(*entry),
        entry_bounded(*entry),
{
    put_str(out, &entry.term);
    put_u64(out, entry.postings.len() as u64);
    let ghost base_ps = out@;
    let mut k: usize = 0;
    while k < entry.postings.len()
        invariant
            k <= entry.postings@.len(),
            out@ == base_ps + enc_postings(entry.postings@.take(k as int)),
            forall|x: int|
                0 <= x < k ==> (#[trigger] entry.postings@[x]).positions@.len() <= usize::MAX,
        decreases entry.postings@.len() - k,
    {
        proof {
            assert(entry.postings@.take(k as int + 1).drop_last() =~= entry.postings@.take(
                k as int,
            ));
            assert(entry.postings@.take(k as int + 1).last() == entry.postings@[k as int]);
        }
        let p = &entry.postings[k];
        put_u64(out, p.doc_id as u64);
        put_u64(out, p.tf as u64);
        put_u64(out, p.positions.len() as u64);
        put_usizes(out, &p.positions);
        k = k + 1;
    }
    proof {
        assert(entry.postings@.take(entry.postings@.len() as int) =~= entry.postings@);
    }
}

/// Serializes the store to its canonical blob.
#[verifier::loop_isolation(false)]
pub fn encode_store(s: &IndexStore) -> (out: Vec<u8>)
    ensures
        out@ == store_bytes(*s),
        store_bounded(*s),
{
    let mut out: Vec<u8> = Vec::new();
    put_u64(&mut out, s.doc_count as u64);
    put_u64(&mut out, s.docs.len() as u64);
    let ghost base_docs = out@;
    let mut d: usize = 0;
    while d < s.docs.len()
        invariant
            d <= s.docs@.len(),
            out@ == base_docs + enc_docs(s.docs@.take(d as int)),
            forall|x: int| 0 <= x < d ==> doc_bounded(#[trigger] s.docs@[x]),
        decreases s.docs@.len() - d,
    {
        proof {
            assert(s.docs@.take(d as int + 1).drop_last() =~= s.docs@.take(d as int));
            assert(s.docs@.take(d as int + 1).last() == s.docs@[d as int]);
        }
        put_doc(&mut out, &s.docs[d]);
        d = d + 1;
    }
    proof {
        assert(s.docs@.take(s.docs@.len() as int) =~= s.docs@);
    }
    put_u64(&mut out, s.dict.len() as u64);
    let ghost base_dict = out@;
    let mut i: usize = 0;
    while i < s.dict.len()
        invariant
            i <= s.dict@.len(),
            out@ == base_dict + enc_dict(s.dict@.take(i as int)),
            forall|x: int| 0 <= x < i ==> entry_bounded(#[trigger] s.dict@[x]),
        decreases s.dict@.len() - i,
    {
        proof {
            assert(s.dict@.take(i as int + 1).drop_last() =~= s.dict@.take(i as int));
            assert(s.dict@.take(i as int + 1).last() == s.dict@[i as int]);
        }
        put_entry(&mut out, &s.dict[i]);
        i = i + 1;
    }
    proof {
        assert(s.dict@.take(s.dict@.len() as int) =~= s.dict@);
    }
    out
}

/// The encoded piece `e` sits in `bytes` at offset `p`.
pub open spec fn fits(bytes: Seq<u8>, p: int, e: Seq<u8>) -> bool {
    0 <= p && p + e.len() <= bytes.len() && bytes.subrange(p, p + e.len()) == e
}

/// A piece made of two parts sits at `p` exactly when the first part sits
/// at `p` and the second right after it.
proof fn lemma_fits_concat(bytes: Seq<u8>, p: int, e1: Seq<u8>, e2: Seq<u8>)
    requires
        fits(bytes, p, e1 + e2),
    ensures
        fits(bytes, p, e1),
        fits(bytes, p + e1.len(), e2),
{
    assert(forall|i: int|
        0 <= i < (e1 + e2).len() ==> #[trigger] bytes.subrange(p, p + (e1 + e2).len())[i] == bytes[p
            + i]);
    assert(forall|i: int| 0 <= i < (e1 + e2).len() ==> #[trigger] (e1 + e2)[i] == bytes[p + i]);
    assert(bytes.subrange(p, p + e1.len()) =~= e1);
    assert forall|i: int| 0 <= i < e2.len() implies bytes.subrange(
        p + e1.len(),
        p + e1.len() + e2.len(),
    )[i] == e2[i] by {
        vstd::seq::lemma_seq_add_index2_alt(e1, e2, i);
        assert((e1 + e2)[e1.len() + i] == bytes[p + e1.len() + i]);
    }
    assert(bytes.subrange(p + e1.len(), p + e1.len() + e2.len()) =~= e2);
}

/// The characters of `s` from `i` on, encoded in order.
pub open spec fn enc_chars_from(s: Seq<char>, i: int) -> Seq<u8>
    decreases s.len() - i,
{
    if i < 0 || i >= s.len() {
        Seq::<u8>::empty()
    } else {
        enc_u64(s[i] as u64) + enc_chars_from(s, i + 1)
    }
}

/// A character encoding splits at any index into the first characters and
/// the rest.
proof fn lemma_enc_char_seq_split(s: Seq<char>, i: int)
    requires
        0 <= i <= s.len(),
    ensures
        enc_char_seq(s) == enc_char_seq(s.take(i)) + enc_chars_from(s, i),
    decreases s.len() - i,
{
    if i == s.len() {
        assert(s.take(i) =~= s);
        assert(enc_char_seq(s) =~= enc_char_seq(s.take(i)) + enc_chars_from(s, i));
    } else {
        lemma_enc_char_seq_split(s, i + 1);
        assert(s.take(i + 1).drop_last() =~= s.take(i));
        assert(s.take(i + 1).last() == s[i]);
        assert(enc_char_seq(s.take(i + 1)) == enc_char_seq(s.take(i)) + enc_u64(s[i] as u64));
        assert(enc_char_seq(s) =~= enc_char_seq(s.take(i)) + (enc_u64(s[i] as u64)
            + enc_chars_from(s, i + 1)));
    }
}

/// The positions of `v` from `i` on, encoded in order.
pub open spec fn enc_usizes_from(v: Seq<usize>, i: int) -> Seq<u8>
    decreases v.len() - i,
{
    if i < 0 || i >= v.len() {
        Seq::<u8>::empty()
    } else {
        enc_u64(v[i] as u64) + enc_usizes_from(v, i + 1)
    }
}

/// A position-list encoding splits at any index.
proof fn lemma_enc_usize_seq_split(v: Seq<usize>, i: int)
    requires
        0 <= i <= v.len(),
    ensures
        enc_usize_seq(v) == enc_usize_seq(v.take(i)) + enc_usizes_from(v, i),
    decreases v.len() - i,
{
    if i == v.len() {
        assert(v.take(i) =~= v);
        assert(enc_usize_seq(v) =~= enc_usize_seq(v.take(i)) + enc_usizes_from(v, i));
    } else {
        lemma_enc_usize_seq_split(v, i + 1);
        assert(v.take(i + 1).drop_last() =~= v.take(i));
        assert(v.take(i + 1).last() == v[i]);
        assert(enc_usize_seq(v.take(i + 1)) == enc_usize_seq(v.take(i)) + enc_u64(v[i] as u64));
        assert(enc_usize_seq(v) =~= enc_usize_seq(v.take(i)) + (enc_u64(v[i] as u64)
            + enc_usizes_from(v, i + 1)));
    }
}

/// The postings of `ps` from `k` on, encoded in order.
pub open spec fn enc_postings_from(ps: Seq<Posting>, k: int) -> Seq<u8>
    decreases ps.len() - k,
{
    if k < 0 || k >= ps.len() {
        Seq::<u8>::empty()
    } else {
        enc_posting(ps[k]) + enc_postings_from(ps, k + 1)
    }
}

/// A posting-list encoding splits at any index.
proof fn lemma_enc_postings_split(ps: Seq<Posting>, k: int)
    requires
        0 <= k <= ps.len(),
    ensures
        enc_postings(ps) == enc_postings(ps.take(k)) + enc_postings_from(ps, k),
    decreases ps.len() - k,
{
    if k == ps.len() {
        assert(ps.take(k) =~= ps);
        assert(enc_postings(ps) =~= enc_postings(ps.take(k)) + enc_postings_from(ps, k));
    } else {
        lemma_enc_postings_split(ps, k + 1);
        assert(ps.take(k + 1).drop_last() =~= ps.take(k));
        assert(ps.take(k + 1).last() == ps[k]);
        assert(enc_postings(ps.take(k + 1)) == enc_postings(ps.take(k)) + enc_posting(ps[k]));
        assert(enc_postings(ps) =~= enc_postings(ps.take(k)) + (enc_posting(ps[k])
            + enc_postings_from(ps, k + 1)));
    }
}

/// The documents of `ds` from `d` on, encoded in order.
pub open spec fn enc_docs_from(ds: Seq<DocMeta>, d: int) -> Seq<u8>
    decreases ds.len() - d,
{
    if d < 0 || d >= ds.len() {
        Seq::<u8>::empty()
    } else {
        enc_doc(ds[d]) + enc_docs_from(ds, d + 1)
    }
}

/// A document-table encoding splits at any index.
proof fn lemma_enc_docs_split(ds: Seq<DocMeta>, d: int)
    requires
        0 <= d <= ds.len(),
    ensures
        enc_docs(ds) == enc_docs(ds.take(d)) + enc_docs_from(ds, d),
    decreases ds.len() - d,
{
    if d == ds.len() {
        assert(ds.take(d) =~= ds);
        assert(enc_docs(ds) =~= enc_docs(ds.take(d)) + enc_docs_from(ds, d));
    } else {
        lemma_enc_docs_split(ds, d + 1);
        assert(ds.take(d + 1).drop_last() =~= ds.take(d));
        assert(ds.take(d + 1).last() == ds[d]);
        assert(enc_docs(ds.take(d + 1)) == enc_docs(ds.take(d)) + enc_doc(ds[d]));
        assert(enc_docs(ds) =~= enc_docs(ds.take(d)) + (enc_doc(ds[d]) + enc_docs_from(ds, d + 1)));
    }
}

/// The entries of `dict` from `i` on, encoded in order.
pub open spec fn enc_dict_from(dict: Seq<TermPostings>, i: int) -> Seq<u8>
    decreases dict.len() - i,
{
    if i < 0 || i >= dict.len() {
        Seq::<u8>::empty()
    } else {
        enc_entry(dict[i]) + enc_dict_from(dict, i + 1)
    }
}

/// A dictionary encoding splits at any index.
proof fn lemma_enc_dict_split(dict: Seq<TermPostings>, i: int)
    requires
        0 <= i <= dict.len(),
    ensures
        enc_dict(dict) == enc_dict(dict.take(i)) + enc_dict_from(dict, i),
    decreases dict.len() - i,
{
    if i == dict.len() {
        assert(dict.take(i) =~= dict);
        assert(enc_dict(dict) =~= enc_dict(dict.take(i)) + enc_dict_from(dict, i));
    } else {
        lemma_enc_dict_split(dict, i + 1);
        assert(dict.take(i + 1).drop_last() =~= dict.take(i));
        assert(dict.take(i + 1).last() == dict[i]);
        assert(enc_dict(dict.take(i + 1)) == enc_dict(dict.take(i)) + enc_entry(dict[i]));
        assert(enc_dict(dict) =~= enc_dict(dict.take(i)) + (enc_entry(dict[i]) + enc_dict_from(
            dict,
            i + 1,
        )));
    }
}

/// A character's scalar value is a valid Unicode scalar and survives the
/// narrowing to thirty-two bits.
proof fn lemma_char_scalar_facts(c: char)
    ensures
        c as u64 <= 0x10FFFF,
        !(0xD800 <= c as u64 <= 0xDFFF),
        c as u32 as u64 == c as u64,
{
}

/// Relies on char::from_u32: it returns the character with the given
/// scalar value, and returns nothing exactly for surrogates and values
/// beyond the greatest code point.
pub assume_specification[ char::from_u32 ](v: u32) -> (r: Option<char>)
    ensures
        r is Some ==> r.unwrap() as u32 == v,
        r is None <==> (0xD800 <= v <= 0xDFFF || v > 0x10FFFF),
;

/// Adjacent subranges of one byte string concatenate to the enclosing
/// subrange.
proof fn lemma_subrange_glue(b: Seq<u8>, p: int, q: int, r: int)
    requires
        0 <= p <= q <= r <= b.len(),
    ensures
        b.subrange(p, r) == b.subrange(p, q) + b.subrange(q, r),
{
    assert(b.subrange(p, r) =~= b.subrange(p, q) + b.subrange(q, r));
}

/// A machine word's value fits an encoder integer.
proof fn lemma_usize_as_u64_bound(x: usize)
    ensures
        x as u64 <= usize::MAX,
{
}

/// Reads eight bytes as one integer, advancing the cursor on success; it
/// fails only when fewer than eight bytes remain.
#[verifier::loop_isolation(false)]
fn read_u64(bytes: &Vec<u8>, pos: &mut usize) -> (r: Option<u64>)
    ensures
        match r {
            Some(x) => {
                &&& *old(pos) + 8 <= bytes@.len()
                &&& *final(pos) == *old(pos) + 8
                &&& enc_u64(x) == bytes@.subrange(*old(pos) as int, *old(pos) + 8)
            },
            None => *old(pos) + 8 > bytes@.len(),
        },
{
    let p = *pos;
    if bytes.len() < 8 || p > bytes.len() - 8 {
        return None;
    }
    let mut tmp: Vec<u8> = Vec::new();
    let mut k: usize = 0;
    while k < 8
        invariant
            k <= 8,
            p + 8 <= bytes@.len(),
            tmp@ == bytes@.subrange(p as int, p as int + k as int),
        decreases 8 - k,
    {
        tmp.push(bytes[p + k]);
        assert(tmp@ =~= bytes@.subrange(p as int, p as int + k as int + 1));
        k = k + 1;
    }
    let x = u64_from_le_bytes(tmp.as_slice());
    proof {
        lemma_auto_spec_u64_to_from_le_bytes();
        assert(enc_u64(x) == tmp@);
    }
    *pos = p + 8;
    Some(x)
}

/// Reads one integer that must fit a machine word; it fails only when
/// fewer than eight bytes remain or the stored value is too large.
fn read_usize(bytes: &Vec<u8>, pos: &mut usize) -> (r: Option<usize>)
    ensures
        match r {
            Some(x) => {
                &&& *old(pos) + 8 <= bytes@.len()
                &&& *final(pos) == *old(pos) + 8
                &&& enc_u64(x as u64) == bytes@.subrange(*old(pos) as int, *old(pos) + 8)
            },
            None => *old(pos) + 8 > bytes@.len() || vstd::bytes::spec_u64_from_le_bytes(
                bytes@.subrange(*old(pos) as int, *old(pos) + 8),
            ) > usize::MAX,
        },
{
    match read_u64(bytes, pos) {
        Some(x) => {
            if x <= usize::MAX as u64 {
                Some(x as usize)
            } else {
                proof {
                    lemma_auto_spec_u64_to_from_le_bytes();
                }
                None
            }
        },
        None => None,
    }
}

/// Reads one character, stored as its scalar value; it fails only when
/// fewer than eight bytes remain or the eight bytes encode no character.
fn read_char(bytes: &Vec<u8>, pos: &mut usize) -> (r: Option<char>)
    ensures
        match r {
            Some(c) => {
                &&& *old(pos) + 8 <= bytes@.len()
                &&& *final(pos) == *old(pos) + 8
                &&& enc_u64(c as u64) == bytes@.subrange(*old(pos) as int, *old(pos) + 8)
            },
            None => *old(pos) + 8 > bytes@.len() || {
                let v = vstd::bytes::spec_u64_from_le_bytes(
                    bytes@.subrange(*old(pos) as int, *old(pos) + 8),
                );
                v > 0x10FFFF || (0xD800 <= v <= 0xDFFF)
            },
        },
{
    let ghost start = *pos;
    match read_u64(bytes, pos) {
        Some(x) => {
            proof {
                lemma_auto_spec_u64_to_from_le_bytes();
            }
            if x > 0x10FFFF {
                proof {
                    assert(vstd::bytes::spec_u64_from_le_bytes(
                        bytes@.subrange(start as int, start as int + 8),
                    ) == x);
                }
                return None;
            }
            proof {
                assert(x as u32 as u64 == x) by (bit_vector)
                    requires
                        x <= 0x10FFFF,
                ;
            }
            match char::from_u32(x as u32) {
                Some(c) => {
                    proof {
                        lemma_char_scalar_facts(c);
                        assert(c as u32 == x as u32);
                        assert(c as u64 == x);
                    }
                    Some(c)
                },
                None => {
                    proof {
                        assert(0xD800 <= x as u32 <= 0xDFFF || x as u32 > 0x10FFFF);
                        assert(0xD800 <= x <= 0xDFFF);
                        assert(vstd::bytes::spec_u64_from_le_bytes(
                            bytes@.subrange(start as int, start as int + 8),
                        ) == x);
                    }
                    None
                },
            }
        },
        None => None,
    }
}

/// Reads a string: its character count, then its characters. It fails
/// only when no string encoding of machine-word length sits at the
/// cursor.
#[verifier::loop_isolation(false)]
fn read_string(bytes: &Vec<u8>, pos: &mut usize) -> (r: Option<String>)
    ensures
        match r {
            Some(s) => {
                &&& *old(pos) <= *final(pos) <= bytes@.len()
                &&& s@.len() <= usize::MAX
                &&& enc_str(s@) == bytes@.subrange(*old(pos) as int, *final(pos) as int)
            },
            None => forall|s: Seq<char>|
                s.len() <= usize::MAX ==> !#[trigger] fits(bytes@, *old(pos) as int, enc_str(s)),
        },
{
    let start = *pos;
    let n = match read_usize(bytes, pos) {
        Some(n) => n,
        None => {
            proof {
                lemma_auto_spec_u64_to_from_le_bytes();
                assert forall|s: Seq<char>| s.len() <= usize::MAX implies !fits(
                    bytes@,
                    start as int,
                    enc_str(s),
                ) by {
                    if fits(bytes@, start as int, enc_str(s)) {
                        lemma_fits_concat(
                            bytes@,
                            start as int,
                            enc_u64(s.len() as u64),
                            enc_char_seq(s),
                        );
                    }
                }
            }
            return None;
        },
    };
    let mut chars: Vec<char> = Vec::new();
    proof {
        assert(bytes@.subrange(start as int + 8, *pos as int) =~= enc_char_seq(chars@));
    }
    let mut i: usize = 0;
    while i < n
        invariant
            i <= n,
            chars@.len() == i,
            start + 8 <= *pos <= bytes@.len(),
            bytes@.subrange(start as int, start as int + 8) == enc_u64(n as u64),
            bytes@.subrange(start as int + 8, *pos as int) == enc_char_seq(chars@),
        decreases n - i,
    {
        let p0 = *pos;
        let c = match read_char(bytes, pos) {
            Some(c) => c,
            None => {
                proof {
                    lemma_auto_spec_u64_to_from_le_bytes();
                    assert forall|s: Seq<char>| s.len() <= usize::MAX implies !fits(
                        bytes@,
                        start as int,
                        enc_str(s),
                    ) by {
                        if fits(bytes@, start as int, enc_str(s)) {
                            lemma_fits_concat(
                                bytes@,
                                start as int,
                                enc_u64(s.len() as u64),
                                enc_char_seq(s),
                            );
                            assert(s.len() as u64 == n as u64);
                            assert(s.len() == n);
                            lemma_enc_char_seq_split(s, i as int);
                            lemma_fits_concat(
                                bytes@,
                                start as int + 8,
                                enc_char_seq(s.take(i as int)),
                                enc_chars_from(s, i as int),
                            );
                            let hlen = enc_char_seq(s.take(i as int)).len() as int;
                            lemma_subrange_glue(bytes@, start as int + 8, p0 as int, bytes@.len() as int);
                            lemma_subrange_glue(
                                bytes@,
                                start as int + 8,
                                start as int + 8 + hlen,
                                bytes@.len() as int,
                            );
                            assert(enc_char_seq(chars@) + bytes@.subrange(
                                p0 as int,
                                bytes@.len() as int,
                            ) == enc_char_seq(s.take(i as int)) + bytes@.subrange(
                                start as int + 8 + hlen,
                                bytes@.len() as int,
                            )) by {
                                assert(bytes@.subrange(start as int + 8, bytes@.len() as int)
                                    == enc_char_seq(chars@) + bytes@.subrange(
                                    p0 as int,
                                    bytes@.len() as int,
                                ));
                                assert(bytes@.subrange(start as int + 8, bytes@.len() as int)
                                    == enc_char_seq(s.take(i as int)) + bytes@.subrange(
                                    start as int + 8 + hlen,
                                    bytes@.len() as int,
                                ));
                            }
                            lemma_char_seq_prefix(
                                chars@,
                                s.take(i as int),
                                bytes@.subrange(p0 as int, bytes@.len() as int),
                                bytes@.subrange(start as int + 8 + hlen, bytes@.len() as int),
                            );
                            assert(p0 == start + 8 + hlen);
                            assert(enc_chars_from(s, i as int) == enc_u64(s[i as int] as u64)
                                + enc_chars_from(s, i as int + 1));
                            lemma_fits_concat(
                                bytes@,
                                p0 as int,
                                enc_u64(s[i as int] as u64),
                                enc_chars_from(s, i as int + 1),
                            );
                            assert(enc_u64(s[i as int] as u64).len() == 8);
                            assert(p0 + 8 <= bytes@.len());
                            assert(enc_u64(s[i as int] as u64) == bytes@.subrange(
                                p0 as int,
                                p0 as int + 8,
                            ));
                            lemma_char_scalar_facts(s[i as int]);
                            assert(vstd::bytes::spec_u64_from_le_bytes(
                                bytes@.subrange(p0 as int, p0 as int + 8),
                            ) == s[i as int] as u64);
                            assert(false);
                        }
                    }
                }
                return None;
            },
        };
        let ghost chars0 = chars@;
        chars.push(c);
        proof {
            assert(chars@.drop_last() =~= chars0);
            lemma_subrange_glue(bytes@, start as int + 8, p0 as int, *pos as int);
            assert(enc_char_seq(chars@) =~= enc_char_seq(chars@.drop_last()) + enc_u64(
                chars@.last() as u64,
            ));
            assert(bytes@.subrange(start as int + 8, *pos as int) =~= enc_char_seq(chars@));
        }
        i = i + 1;
    }
    let s = crate::unicode::string_from_chars(&chars);
    proof {
        assert(s@.len() as u64 == n as u64);
        lemma_subrange_glue(bytes@, start as int, start as int + 8, *pos as int);
        assert(enc_str(s@) =~= bytes@.subrange(start as int, *pos as int));
    }
    Some(s)
}

/// Reads a position list of the given count; it fails only when no
/// position-list encoding of that count sits at the cursor.
#[verifier::loop_isolation(false)]
fn read_usize_seq(bytes: &Vec<u8>, pos: &mut usize, n: usize) -> (r: Option<Vec<usize>>)
    requires
        *old(pos) <= bytes@.len(),
    ensures
        match r {
            Some(v) => {
                &&& *old(pos) <= *final(pos) <= bytes@.len()
                &&& v@.len() == n
                &&& enc_usize_seq(v@) == bytes@.subrange(*old(pos) as int, *final(pos) as int)
            },
            None => forall|v: Seq<usize>|
                v.len() == n ==> !#[trigger] fits(bytes@, *old(pos) as int, enc_usize_seq(v)),
        },
{
    let start = *pos;
    let mut out: Vec<usize> = Vec::new();
    proof {
        assert(bytes@.subrange(start as int, *pos as int) =~= enc_usize_seq(out@));
    }
    let mut i: usize = 0;
    while i < n
        invariant
            i <= n,
            out@.len() == i,
            start <= *pos <= bytes@.len(),
            bytes@.subrange(start as int, *pos as int) == enc_usize_seq(out@),
        decreases n - i,
    {
        let p0 = *pos;
        let x = match read_usize(bytes, pos) {
            Some(x) => x,
            None => {
                proof {
                    lemma_auto_spec_u64_to_from_le_bytes();
                    assert forall|v: Seq<usize>| v.len() == n implies !fits(
                        bytes@,
                        start as int,
                        enc_usize_seq(v),
                    ) by {
                        if fits(bytes@, start as int, enc_usize_seq(v)) {
                            lemma_enc_usize_seq_split(v, i as int);
                            lemma_fits_concat(
                                bytes@,
                                start as int,
                                enc_usize_seq(v.take(i as int)),
                                enc_usizes_from(v, i as int),
                            );
                            let hlen = enc_usize_seq(v.take(i as int)).len() as int;
                            lemma_subrange_glue(bytes@, start as int, p0 as int, bytes@.len() as int);
                            lemma_subrange_glue(
                                bytes@,
                                start as int,
                                start as int + hlen,
                                bytes@.len() as int,
                            );
                            assert(enc_usize_seq(out@) + bytes@.subrange(
                                p0 as int,
                                bytes@.len() as int,
                            ) == enc_usize_seq(v.take(i as int)) + bytes@.subrange(
                                start as int + hlen,
                                bytes@.len() as int,
                            )) by {
                                assert(bytes@.subrange(start as int, bytes@.len() as int)
                                    == enc_usize_seq(out@) + bytes@.subrange(
                                    p0 as int,
                                    bytes@.len() as int,
                                ));
                                assert(bytes@.subrange(start as int, bytes@.len() as int)
                                    == enc_usize_seq(v.take(i as int)) + bytes@.subrange(
                                    start as int + hlen,
                                    bytes@.len() as int,
                                ));
                            }
                            lemma_usize_seq_prefix(
                                out@,
                                v.take(i as int),
                                bytes@.subrange(p0 as int, bytes@.len() as int),
                                bytes@.subrange(start as int + hlen, bytes@.len() as int),
                            );
                            assert(p0 == start + hlen);
                            assert(enc_usizes_from(v, i as int) == enc_u64(v[i as int] as u64)
                                + enc_usizes_from(v, i as int + 1));
                            lemma_fits_concat(
                                bytes@,
                                p0 as int,
                                enc_u64(v[i as int] as u64),
                                enc_usizes_from(v, i as int + 1),
                            );
                            lemma_usize_as_u64_bound(v[i as int]);
                            assert(enc_u64(v[i as int] as u64) == bytes@.subrange(
                                p0 as int,
                                p0 as int + 8,
                            ));
                            assert(vstd::bytes::spec_u64_from_le_bytes(
                                bytes@.subrange(p0 as int, p0 as int + 8),
                            ) == v[i as int] as u64);
                            assert(false);
                        }
                    }
                }
                return None;
            },
        };
        let ghost out0 = out@;
        out.push(x);
        proof {
            assert(out@.drop_last() =~= out0);
            lemma_subrange_glue(bytes@, start as int, p0 as int, *pos as int);
            assert(enc_usize_seq(out@) =~= enc_usize_seq(out@.drop_last()) + enc_u64(
                out@.last() as u64,
            ));
            assert(bytes@.subrange(start as int, *pos as int) =~= enc_usize_seq(out@));
        }
        i = i + 1;
    }
    Some(out)
}

/// Reads one document's metadata; it fails only when no bounded document
/// encoding sits at the cursor.
fn read_doc(bytes: &Vec<u8>, pos: &mut usize) -> (r: Option<DocMeta>)
    ensures
        match r {
            Some(m) => {
                &&& *old(pos) <= *final(pos) <= bytes@.len()
                &&& doc_bounded(m)
                &&& enc_doc(m) == bytes@.subrange(*old(pos) as int, *final(pos) as int)
            },
            None => forall|m: DocMeta|
                doc_bounded(m) ==> !#[trigger] fits(bytes@, *old(pos) as int, enc_doc(m)),
        },
{
    let start = *pos;
    let url = match read_string(bytes, pos) {
        Some(s) => s,
        None => {
            proof {
                assert forall|m: DocMeta| doc_bounded(m) implies !fits(
                    bytes@,
                    start as int,
                    enc_doc(m),
                ) by {
                    if fits(bytes@, start as int, enc_doc(m)) {
                        lemma_doc_fits_parts(bytes@, start as int, m);
                    }
                }
            }
            return None;
        },
    };
    let p1 = *pos;
    let title = match read_string(bytes, pos) {
        Some(s) => s,
        None => {
            proof {
                assert forall|m: DocMeta| doc_bounded(m) implies !fits(
                    bytes@,
                    start as int,
                    enc_doc(m),
                ) by {
                    if fits(bytes@, start as int, enc_doc(m)) {
                        lemma_doc_fits_parts(bytes@, start as int, m);
                        lemma_str_at(bytes@, start as int, url@, m.url@);
                        assert(p1 == start + enc_str(m.url@).len());
                    }
                }
            }
            return None;
        },
    };
    let p2 = *pos;
    let body = match read_string(bytes, pos) {
        Some(s) => s,
        None => {
            proof {
                assert forall|m: DocMeta| doc_bounded(m) implies !fits(
                    bytes@,
                    start as int,
                    enc_doc(m),
                ) by {
                    if fits(bytes@, start as int, enc_doc(m)) {
                        lemma_doc_fits_parts(bytes@, start as int, m);
                        lemma_str_at(bytes@, start as int, url@, m.url@);
                        assert(p1 == start + enc_str(m.url@).len());
                        lemma_str_at(bytes@, p1 as int, title@, m.title@);
                        assert(p2 == p1 + enc_str(m.title@).len());
                    }
                }
            }
            return None;
        },
    };
    let p3 = *pos;
    let length = match read_usize(bytes, pos) {
        Some(x) => x,
        None => {
            proof {
                lemma_auto_spec_u64_to_from_le_bytes();
                assert forall|m: DocMeta| doc_bounded(m) implies !fits(
                    bytes@,
                    start as int,
                    enc_doc(m),
                ) by {
                    if fits(bytes@, start as int, enc_doc(m)) {
                        lemma_doc_fits_parts(bytes@, start as int, m);
                        lemma_str_at(bytes@, start as int, url@, m.url@);
                        assert(p1 == start + enc_str(m.url@).len());
                        lemma_str_at(bytes@, p1 as int, title@, m.title@);
                        assert(p2 == p1 + enc_str(m.title@).len());
                        lemma_str_at(bytes@, p2 as int, body@, m.body@);
                        assert(p3 == p2 + enc_str(m.body@).len());
                        assert(enc_u64(m.length as u64) == bytes@.subrange(
                            p3 as int,
                            p3 as int + 8,
                        ));
                        assert(false);
                    }
                }
            }
            return None;
        },
    };
    let m = DocMeta { url, title, body, length };
    proof {
        assert(bytes@.subrange(start as int, *pos as int) =~= bytes@.subrange(
            start as int,
            p1 as int,
        ) + bytes@.subrange(p1 as int, p2 as int) + bytes@.subrange(p2 as int, p3 as int)
            + bytes@.subrange(p3 as int, *pos as int));
        assert(enc_doc(m) =~= bytes@.subrange(start as int, *pos as int));
    }
    Some(m)
}

/// A fitting document encoding decomposes into its four fields in place.
proof fn lemma_doc_fits_parts(b: Seq<u8>, p: int, m: DocMeta)
    requires
        fits(b, p, enc_doc(m)),
    ensures
        fits(b, p, enc_str(m.url@)),
        fits(b, p + enc_str(m.url@).len(), enc_str(m.title@)),
        fits(b, p + enc_str(m.url@).len() + enc_str(m.title@).len(), enc_str(m.body@)),
        fits(
            b,
            p + enc_str(m.url@).len() + enc_str(m.title@).len() + enc_str(m.body@).len(),
            enc_u64(m.length as u64),
        ),
{
    assert(enc_doc(m) =~= enc_str(m.url@) + (enc_str(m.title@) + (enc_str(m.body@) + enc_u64(
        m.length as u64,
    ))));
    lemma_fits_concat(
        b,
        p,
        enc_str(m.url@),
        enc_str(m.title@) + (enc_str(m.body@) + enc_u64(m.length as u64)),
    );
    lemma_fits_concat(
        b,
        p + enc_str(m.url@).len(),
        enc_str(m.title@),
        enc_str(m.body@) + enc_u64(m.length as u64),
    );
    lemma_fits_concat(
        b,
        p + enc_str(m.url@).len() + enc_str(m.title@).len(),
        enc_str(m.body@),
        enc_u64(m.length as u64),
    );
}

/// Two string encodings at the same offset of one byte string hold the
/// same string.
proof fn lemma_str_at(b: Seq<u8>, p: int, s1: Seq<char>, s2: Seq<char>)
    requires
        s1.len() <= u64::MAX,
        s2.len() <= u64::MAX,
        fits(b, p, enc_str(s1)),
        fits(b, p, enc_str(s2)),
    ensures
        s1 == s2,
{
    lemma_subrange_glue(b, p, p + enc_str(s1).len(), b.len() as int);
    lemma_subrange_glue(b, p, p + enc_str(s2).len(), b.len() as int);
    lemma_str_prefix(
        s1,
        s2,
        b.subrange(p + enc_str(s1).len(), b.len() as int),
        b.subrange(p + enc_str(s2).len(), b.len() as int),
    );
}

/// Reads one posting; it fails only when no posting encoding with a
/// machine-word position count sits at the cursor.
fn read_posting(bytes: &Vec<u8>, pos: &mut usize) -> (r: Option<Posting>)
    ensures
        match r {
            Some(p) => {
                &&& *old(pos) <= *final(pos) <= bytes@.len()
                &&& p.positions@.len() <= usize::MAX
                &&& enc_posting(p) == bytes@.subrange(*old(pos) as int, *final(pos) as int)
            },
            None => forall|p: Posting|
                p.positions@.len() <= usize::MAX ==> !#[trigger] fits(
                    bytes@,
                    *old(pos) as int,
                    enc_posting(p),
                ),
        },
{
    let start = *pos;
    let doc_id = match read_usize(bytes, pos) {
        Some(x) => x,
        None => {
            proof {
                lemma_auto_spec_u64_to_from_le_bytes();
                assert forall|p: Posting| p.positions@.len() <= usize::MAX implies !fits(
                    bytes@,
                    start as int,
                    enc_posting(p),
                ) by {
                    if fits(bytes@, start as int, enc_posting(p)) {
                        lemma_posting_fits_parts(bytes@, start as int, p);
                    }
                }
            }
            return None;
        },
    };
    let p1 = *pos;
    let tf = match read_usize(bytes, pos) {
        Some(x) => x,
        None => {
            proof {
                lemma_auto_spec_u64_to_from_le_bytes();
                assert forall|p: Posting| p.positions@.len() <= usize::MAX implies !fits(
                    bytes@,
                    start as int,
                    enc_posting(p),
                ) by {
                    if fits(bytes@, start as int, enc_posting(p)) {
                        lemma_posting_fits_parts(bytes@, start as int, p);
                    }
                }
            }
            return None;
        },
    };
    let p2 = *pos;
    let npos = match read_usize(bytes, pos) {
        Some(x) => x,
        None => {
            proof {
                lemma_auto_spec_u64_to_from_le_bytes();
                assert forall|p: Posting| p.positions@.len() <= usize::MAX implies !fits(
                    bytes@,
                    start as int,
                    enc_posting(p),
                ) by {
                    if fits(bytes@, start as int, enc_posting(p)) {
                        lemma_posting_fits_parts(bytes@, start as int, p);
                    }
                }
            }
            return None;
        },
    };
    let p3 = *pos;
    let positions = match read_usize_seq(bytes, pos, npos) {
        Some(v) => v,
        None => {
            proof {
                lemma_auto_spec_u64_to_from_le_bytes();
                assert forall|p: Posting| p.positions@.len() <= usize::MAX implies !fits(
                    bytes@,
                    start as int,
                    enc_posting(p),
                ) by {
                    if fits(bytes@, start as int, enc_posting(p)) {
                        lemma_posting_fits_parts(bytes@, start as int, p);
                        assert(p.positions@.len() as u64 == npos as u64);
                        assert(p.positions@.len() == npos);
                    }
                }
            }
            return None;
        },
    };
    let p = Posting { doc_id, tf, positions };
    proof {
        assert(bytes@.subrange(start as int, *pos as int) =~= bytes@.subrange(
            start as int,
            p1 as int,
        ) + bytes@.subrange(p1 as int, p2 as int) + bytes@.subrange(p2 as int, p3 as int)
            + bytes@.subrange(p3 as int, *pos as int));
        assert(enc_posting(p) =~= bytes@.subrange(start as int, *pos as int));
    }
    Some(p)
}

/// A fitting posting encoding decomposes into its four fields in place.
proof fn lemma_posting_fits_parts(b: Seq<u8>, q: int, p: Posting)
    requires
        fits(b, q, enc_posting(p)),
    ensures
        fits(b, q, enc_u64(p.doc_id as u64)),
        fits(b, q + 8, enc_u64(p.tf as u64)),
        fits(b, q + 16, enc_u64(p.positions@.len() as u64)),
        fits(b, q + 24, enc_usize_seq(p.positions@)),
{
    lemma_auto_spec_u64_to_from_le_bytes();
    assert(enc_posting(p) =~= enc_u64(p.doc_id as u64) + (enc_u64(p.tf as u64) + (enc_u64(
        p.positions@.len() as u64,
    ) + enc_usize_seq(p.positions@))));
    lemma_fits_concat(
        b,
        q,
        enc_u64(p.doc_id as u64),
        enc_u64(p.tf as u64) + (enc_u64(p.positions@.len() as u64) + enc_usize_seq(p.positions@)),
    );
    lemma_fits_concat(
        b,
        q + 8,
        enc_u64(p.tf as u64),
        enc_u64(p.positions@.len() as u64) + enc_usize_seq(p.positions@),
    );
    lemma_fits_concat(b, q + 16, enc_u64(p.positions@.len() as u64), enc_usize_seq(p.positions@));
}

/// Reads one dictionary entry with its postings; it fails only when no
/// bounded entry encoding sits at the cursor.
#[verifier::loop_isolation(false)]
fn read_entry(bytes: &Vec<u8>, pos: &mut usize) -> (r: Option<TermPostings>)
    ensures
        match r {
            Some(e) => {
                &&& *old(pos) <= *final(pos) <= bytes@.len()
                &&& entry_bounded(e)
                &&& enc_entry(e) == bytes@.subrange(*old(pos) as int, *final(pos) as int)
            },
            None => forall|e: TermPostings|
                entry_bounded(e) ==> !#[trigger] fits(bytes@, *old(pos) as int, enc_entry(e)),
        },
{
    let start = *pos;
    let term = match read_string(bytes, pos) {
        Some(s) => s,
        None => {
            proof {
                assert forall|e: TermPostings| entry_bounded(e) implies !fits(
                    bytes@,
                    start as int,
                    enc_entry(e),
                ) by {
                    if fits(bytes@, start as int, enc_entry(e)) {
                        lemma_entry_fits_parts(bytes@, start as int, e);
                    }
                }
            }
            return None;
        },
    };
    let p1 = *pos;
    let nps = match read_usize(bytes, pos) {
        Some(x) => x,
        None => {
            proof {
                lemma_auto_spec_u64_to_from_le_bytes();
                assert forall|e: TermPostings| entry_bounded(e) implies !fits(
                    bytes@,
                    start as int,
                    enc_entry(e),
                ) by {
                    if fits(bytes@, start as int, enc_entry(e)) {
                        lemma_entry_fits_parts(bytes@, start as int, e);
                        lemma_str_at(bytes@, start as int, term@, e.term@);
                        assert(p1 == start + enc_str(e.term@).len());
                    }
                }
            }
            return None;
        },
    };
    let p2 = *pos;
    let mut postings: Vec<Posting> = Vec::new();
    proof {
        assert(bytes@.subrange(p2 as int, *pos as int) =~= enc_postings(postings@));
    }
    let mut k: usize = 0;
    while k < nps
        invariant
            k <= nps,
            postings@.len() == k,
            p2 <= *pos <= bytes@.len(),
            bytes@.subrange(p2 as int, *pos as int) == enc_postings(postings@),
            forall|x: int| 0 <= x < k ==> (#[trigger] postings@[x]).positions@.len() <= usize::MAX,
            bytes@.subrange(start as int, p1 as int) == enc_str(term@),
            bytes@.subrange(p1 as int, p2 as int) == enc_u64(nps as u64),
            term@.len() <= usize::MAX,
            start <= p1 <= p2 <= *pos,
        decreases nps - k,
    {
        let q0 = *pos;
        let p = match read_posting(bytes, pos) {
            Some(p) => p,
            None => {
                proof {
                    lemma_auto_spec_u64_to_from_le_bytes();
                    assert forall|e: TermPostings| entry_bounded(e) implies !fits(
                        bytes@,
                        start as int,
                        enc_entry(e),
                    ) by {
                        if fits(bytes@, start as int, enc_entry(e)) {
                            lemma_entry_fits_parts(bytes@, start as int, e);
                            lemma_str_at(bytes@, start as int, term@, e.term@);
                            assert(p1 == start + enc_str(e.term@).len());
                            assert(e.postings@.len() as u64 == nps as u64);
                            assert(e.postings@.len() == nps);
                            lemma_enc_postings_split(e.postings@, k as int);
                            lemma_fits_concat(
                                bytes@,
                                p2 as int,
                                enc_postings(e.postings@.take(k as int)),
                                enc_postings_from(e.postings@, k as int),
                            );
                            let hlen = enc_postings(e.postings@.take(k as int)).len() as int;
                            lemma_subrange_glue(bytes@, p2 as int, q0 as int, bytes@.len() as int);
                            lemma_subrange_glue(
                                bytes@,
                                p2 as int,
                                p2 as int + hlen,
                                bytes@.len() as int,
                            );
                            assert(forall|x: int|
                                0 <= x < k ==> (#[trigger] e.postings@.take(k as int)[x])
                                    == e.postings@[x]);
                            assert(enc_postings(postings@) + bytes@.subrange(
                                q0 as int,
                                bytes@.len() as int,
                            ) == enc_postings(e.postings@.take(k as int)) + bytes@.subrange(
                                p2 as int + hlen,
                                bytes@.len() as int,
                            )) by {
                                assert(bytes@.subrange(p2 as int, bytes@.len() as int)
                                    == enc_postings(postings@) + bytes@.subrange(
                                    q0 as int,
                                    bytes@.len() as int,
                                ));
                                assert(bytes@.subrange(p2 as int, bytes@.len() as int)
                                    == enc_postings(e.postings@.take(k as int)) + bytes@.subrange(
                                    p2 as int + hlen,
                                    bytes@.len() as int,
                                ));
                            }
                            lemma_postings_prefix(
                                postings@,
                                e.postings@.take(k as int),
                                bytes@.subrange(q0 as int, bytes@.len() as int),
                                bytes@.subrange(p2 as int + hlen, bytes@.len() as int),
                            );
                            assert(q0 == p2 + hlen);
                            assert(enc_postings_from(e.postings@, k as int) == enc_posting(
                                e.postings@[k as int],
                            ) + enc_postings_from(e.postings@, k as int + 1));
                            lemma_fits_concat(
                                bytes@,
                                q0 as int,
                                enc_posting(e.postings@[k as int]),
                                enc_postings_from(e.postings@, k as int + 1),
                            );
                            assert(fits(bytes@, q0 as int, enc_posting(e.postings@[k as int])));
                            assert(false);
                        }
                    }
                }
                return None;
            },
        };
        let ghost postings0 = postings@;
        postings.push(p);
        proof {
            assert(postings@.drop_last() =~= postings0);
            lemma_subrange_glue(bytes@, p2 as int, q0 as int, *pos as int);
            assert(enc_postings(postings@) =~= enc_postings(postings@.drop_last()) + enc_posting(
                postings@.last(),
            ));
            assert(bytes@.subrange(p2 as int, *pos as int) =~= enc_postings(postings@));
        }
        k = k + 1;
    }
    let e = TermPostings { term, postings };
    proof {
        assert(postings@.len() as u64 == nps as u64);
        assert(bytes@.subrange(start as int, *pos as int) =~= bytes@.subrange(
            start as int,
            p1 as int,
        ) + bytes@.subrange(p1 as int, p2 as int) + bytes@.subrange(p2 as int, *pos as int));
        assert(enc_entry(e) =~= bytes@.subrange(start as int, *pos as int));
    }
    Some(e)
}

/// A fitting entry encoding decomposes into its three parts in place.
proof fn lemma_entry_fits_parts(b: Seq<u8>, q: int, e: TermPostings)
    requires
        fits(b, q, enc_entry(e)),
    ensures
        fits(b, q, enc_str(e.term@)),
        fits(b, q + enc_str(e.term@).len(), enc_u64(e.postings@.len() as u64)),
        fits(b, q + enc_str(e.term@).len() + 8, enc_postings(e.postings@)),
{
    lemma_auto_spec_u64_to_from_le_bytes();
    assert(enc_entry(e) =~= enc_str(e.term@) + (enc_u64(e.postings@.len() as u64) + enc_postings(
        e.postings@,
    )));
    lemma_fits_concat(
        b,
        q,
        enc_str(e.term@),
        enc_u64(e.postings@.len() as u64) + enc_postings(e.postings@),
    );
    lemma_fits_concat(
        b,
        q + enc_str(e.term@).len(),
        enc_u64(e.postings@.len() as u64),
        enc_postings(e.postings@),
    );
}

/// A fitting store encoding decomposes into its five parts in place.
proof fn lemma_store_fits_parts(b: Seq<u8>, s: IndexStore)
    requires
        fits(b, 0, store_bytes(s)),
    ensures
        fits(b, 0, enc_u64(s.doc_count as u64)),
        fits(b, 8, enc_u64(s.docs@.len() as u64)),
        fits(b, 16, enc_docs(s.docs@)),
        fits(b, 16 + enc_docs(s.docs@).len() as int, enc_u64(s.dict@.len() as u64)),
        fits(b, 24 + enc_docs(s.docs@).len() as int, enc_dict(s.dict@)),
{
    lemma_auto_spec_u64_to_from_le_bytes();
    assert(store_bytes(s) =~= enc_u64(s.doc_count as u64) + (enc_u64(s.docs@.len() as u64) + (
    enc_docs(s.docs@) + (enc_u64(s.dict@.len() as u64) + enc_dict(s.dict@)))));
    lemma_fits_concat(
        b,
        0,
        enc_u64(s.doc_count as u64),
        enc_u64(s.docs@.len() as u64) + (enc_docs(s.docs@) + (enc_u64(s.dict@.len() as u64)
            + enc_dict(s.dict@))),
    );
    lemma_fits_concat(
        b,
        8,
        enc_u64(s.docs@.len() as u64),
        enc_docs(s.docs@) + (enc_u64(s.dict@.len() as u64) + enc_dict(s.dict@)),
    );
    lemma_fits_concat(
        b,
        16,
        enc_docs(s.docs@),
        enc_u64(s.dict@.len() as u64) + enc_dict(s.dict@),
    );
    lemma_fits_concat(
        b,
        16 + enc_docs(s.docs@).len() as int,
        enc_u64(s.dict@.len() as u64),
        enc_dict(s.dict@),
    );
}

/// Deserializes a blob. The decoder is exact in both directions: it
/// accepts every blob that is the canonical encoding of a bounded store,
/// and whenever it accepts, the returned store's canonical encoding is the
/// entire input. So a blob written by `encode_store` decodes, and only to
/// a store that encodes byte-for-byte the same; anything else is rejected
/// as corrupt.
#[verifier::loop_isolation(false)]
#[verifier::rlimit(60)]
pub fn decode_store(bytes: &Vec<u8>) -> (r: Option<IndexStore>)
    ensures
        match r {
            Some(s) => store_bytes(s) == bytes@ && store_bounded(s),
            None => true,
        },
        (exists|s0: IndexStore| store_bounded(s0) && store_bytes(s0) == bytes@) ==> r is Some,
{
    proof {
        if exists|s0: IndexStore| store_bounded(s0) && store_bytes(s0) == bytes@ {
            let s0 = choose|s0: IndexStore| store_bounded(s0) && store_bytes(s0) == bytes@;
            assert(bytes@.subrange(0, store_bytes(s0).len() as int) =~= bytes@);
            assert(fits(bytes@, 0, store_bytes(s0)));
            lemma_store_fits_parts(bytes@, s0);
        }
    }
    let ghost witnessed = exists|s0: IndexStore| store_bounded(s0) && store_bytes(s0) == bytes@;
    let ghost w = choose|s0: IndexStore| store_bounded(s0) && store_bytes(s0) == bytes@;
    let mut pos: usize = 0;
    let doc_count = match read_usize(bytes, &mut pos) {
        Some(x) => x,
        None => {
            proof {
                lemma_auto_spec_u64_to_from_le_bytes();
                assert(!witnessed);
            }
            return None;
        },
    };
    let p1 = pos;
    let ndocs = match read_usize(bytes, &mut pos) {
        Some(x) => x,
        None => {
            proof {
                lemma_auto_spec_u64_to_from_le_bytes();
                assert(!witnessed);
            }
            return None;
        },
    };
    proof {
        if witnessed {
            lemma_auto_spec_u64_to_from_le_bytes();
            assert(w.docs@.len() as u64 == ndocs as u64);
            assert(w.docs@.len() == ndocs);
        }
    }
    let p2 = pos;
    let mut docs: Vec<DocMeta> = Vec::new();
    proof {
        assert(bytes@.subrange(p2 as int, pos as int) =~= enc_docs(docs@));
    }
    let mut d: usize = 0;
    while d < ndocs
        invariant
            d <= ndocs,
            docs@.len() == d,
            p2 <= pos <= bytes@.len(),
            bytes@.subrange(p2 as int, pos as int) == enc_docs(docs@),
            forall|x: int| 0 <= x < d ==> doc_bounded(#[trigger] docs@[x]),
            witnessed == exists|s0: IndexStore| store_bounded(s0) && store_bytes(s0) == bytes@,
            w == choose|s0: IndexStore| store_bounded(s0) && store_bytes(s0) == bytes@,
            witnessed ==> (fits(bytes@, 16, enc_docs(w.docs@)) && w.docs@.len() == ndocs && p2
                == 16),
        decreases ndocs - d,
    {
        let q0 = pos;
        let m = match read_doc(bytes, &mut pos) {
            Some(m) => m,
            None => {
                proof {
                    if witnessed {
                        lemma_docs_step_align(bytes@, w.docs@, docs@, d as int, q0 as int);
                        assert(fits(bytes@, q0 as int, enc_doc(w.docs@[d as int])));
                        assert(doc_bounded(w.docs@[d as int]));
                    }
                    assert(!witnessed);
                }
                return None;
            },
        };
        let ghost docs0 = docs@;
        docs.push(m);
        proof {
            assert(docs@.drop_last() =~= docs0);
            lemma_subrange_glue(bytes@, p2 as int, q0 as int, pos as int);
            assert(enc_docs(docs@) =~= enc_docs(docs@.drop_last()) + enc_doc(docs@.last()));
            assert(bytes@.subrange(p2 as int, pos as int) =~= enc_docs(docs@));
        }
        d = d + 1;
    }
    proof {
        if witnessed {
            lemma_full_docs_align(bytes@, w.docs@, docs@, pos as int);
        }
    }
    let p3 = pos;
    let ndict = match read_usize(bytes, &mut pos) {
        Some(x) => x,
        None => {
            proof {
                lemma_auto_spec_u64_to_from_le_bytes();
                assert(!witnessed);
            }
            return None;
        },
    };
    proof {
        if witnessed {
            lemma_auto_spec_u64_to_from_le_bytes();
            assert(w.dict@.len() as u64 == ndict as u64);
            assert(w.dict@.len() == ndict);
        }
    }
    let p4 = pos;
    let mut dict: Vec<TermPostings> = Vec::new();
    proof {
        assert(bytes@.subrange(p4 as int, pos as int) =~= enc_dict(dict@));
    }
    let mut i: usize = 0;
    while i < ndict
        invariant
            i <= ndict,
            dict@.len() == i,
            p4 <= pos <= bytes@.len(),
            bytes@.subrange(p4 as int, pos as int) == enc_dict(dict@),
            forall|x: int| 0 <= x < i ==> entry_bounded(#[trigger] dict@[x]),
            witnessed == exists|s0: IndexStore| store_bounded(s0) && store_bytes(s0) == bytes@,
            w == choose|s0: IndexStore| store_bounded(s0) && store_bytes(s0) == bytes@,
            witnessed ==> (fits(bytes@, p4 as int, enc_dict(w.dict@)) && w.dict@.len() == ndict),
        decreases ndict - i,
    {
        let q0 = pos;
        let e = match read_entry(bytes, &mut pos) {
            Some(e) => e,
            None => {
                proof {
                    if witnessed {
                        lemma_dict_step_align(bytes@, w.dict@, dict@, i as int, p4 as int, q0 as int);
                        assert(fits(bytes@, q0 as int, enc_entry(w.dict@[i as int])));
                        assert(entry_bounded(w.dict@[i as int]));
                    }
                    assert(!witnessed);
                }
                return None;
            },
        };
        let ghost dict0 = dict@;
        dict.push(e);
        proof {
            assert(dict@.drop_last() =~= dict0);
            lemma_subrange_glue(bytes@, p4 as int, q0 as int, pos as int);
            assert(enc_dict(dict@) =~= enc_dict(dict@.drop_last()) + enc_entry(dict@.last()));
            assert(bytes@.subrange(p4 as int, pos as int) =~= enc_dict(dict@));
        }
        i = i + 1;
    }
    if pos != bytes.len() {
        proof {
            if witnessed {
                lemma_full_dict_align(bytes@, w.dict@, dict@, p4 as int, pos as int);
                assert(bytes@.subrange(0, pos as int) =~= bytes@.subrange(0, p1 as int)
                    + bytes@.subrange(p1 as int, p2 as int) + bytes@.subrange(p2 as int, p3 as int)
                    + bytes@.subrange(p3 as int, p4 as int) + bytes@.subrange(
                    p4 as int,
                    pos as int,
                ));
                assert(bytes@.subrange(0, pos as int) =~= store_bytes(w));
                assert(pos == bytes@.len());
            }
        }
        return None;
    }
    let s = IndexStore { dict, docs, doc_count };
    proof {
        assert(s.docs@.len() as u64 == ndocs as u64);
        assert(s.dict@.len() as u64 == ndict as u64);
        assert(bytes@.subrange(0, bytes@.len() as int) =~= bytes@.subrange(0, p1 as int)
            + bytes@.subrange(p1 as int, p2 as int) + bytes@.subrange(p2 as int, p3 as int)
            + bytes@.subrange(p3 as int, p4 as int) + bytes@.subrange(p4 as int, pos as int));
        assert(store_bytes(s) =~= bytes@.subrange(0, bytes@.len() as int));
        assert(bytes@.subrange(0, bytes@.len() as int) =~= bytes@);
    }
    Some(s)
}

/// When the blob holds a whole document table, the next document's
/// encoding sits right at the cursor.
proof fn lemma_docs_step_align(b: Seq<u8>, full: Seq<DocMeta>, got: Seq<DocMeta>, d: int, q0: int)
    requires
        fits(b, 16, enc_docs(full)),
        0 <= d < full.len(),
        got.len() == d,
        forall|x: int| 0 <= x < d ==> doc_bounded(#[trigger] got[x]),
        forall|x: int| 0 <= x < full.len() ==> doc_bounded(#[trigger] full[x]),
        16 <= q0 <= b.len(),
        b.subrange(16, q0) == enc_docs(got),
    ensures
        fits(b, q0, enc_doc(full[d])),
{
    lemma_enc_docs_split(full, d);
    lemma_fits_concat(b, 16, enc_docs(full.take(d)), enc_docs_from(full, d));
    let hlen = enc_docs(full.take(d)).len() as int;
    lemma_subrange_glue(b, 16, q0, b.len() as int);
    lemma_subrange_glue(b, 16, 16 + hlen, b.len() as int);
    assert(forall|x: int| 0 <= x < d ==> (#[trigger] full.take(d)[x]) == full[x]);
    assert(enc_docs(got) + b.subrange(q0, b.len() as int) == enc_docs(full.take(d)) + b.subrange(
        16 + hlen,
        b.len() as int,
    )) by {
        assert(b.subrange(16, b.len() as int) == enc_docs(got) + b.subrange(q0, b.len() as int));
        assert(b.subrange(16, b.len() as int) == enc_docs(full.take(d)) + b.subrange(
            16 + hlen,
            b.len() as int,
        ));
    }
    lemma_docs_prefix(
        got,
        full.take(d),
        b.subrange(q0, b.len() as int),
        b.subrange(16 + hlen, b.len() as int),
    );
    assert(q0 == 16 + hlen);
    assert(enc_docs_from(full, d) == enc_doc(full[d]) + enc_docs_from(full, d + 1));
    lemma_fits_concat(b, q0, enc_doc(full[d]), enc_docs_from(full, d + 1));
}

/// After the document loop the read table is the blob's whole table and
/// the cursor sits right after it.
proof fn lemma_full_docs_align(b: Seq<u8>, full: Seq<DocMeta>, got: Seq<DocMeta>, q: int)
    requires
        fits(b, 16, enc_docs(full)),
        got.len() == full.len(),
        forall|x: int| 0 <= x < got.len() ==> doc_bounded(#[trigger] got[x]),
        forall|x: int| 0 <= x < full.len() ==> doc_bounded(#[trigger] full[x]),
        16 <= q <= b.len(),
        b.subrange(16, q) == enc_docs(got),
    ensures
        q == 16 + enc_docs(full).len() as int,
        forall|x: int| 0 <= x < got.len() ==> doc_like(#[trigger] got[x], full[x]),
{
    lemma_subrange_glue(b, 16, q, b.len() as int);
    lemma_subrange_glue(b, 16, 16 + enc_docs(full).len() as int, b.len() as int);
    assert(enc_docs(got) + b.subrange(q, b.len() as int) == enc_docs(full) + b.subrange(
        16 + enc_docs(full).len() as int,
        b.len() as int,
    )) by {
        assert(b.subrange(16, b.len() as int) == enc_docs(got) + b.subrange(q, b.len() as int));
        assert(b.subrange(16, b.len() as int) == enc_docs(full) + b.subrange(
            16 + enc_docs(full).len() as int,
            b.len() as int,
        ));
    }
    lemma_docs_prefix(
        got,
        full,
        b.subrange(q, b.len() as int),
        b.subrange(16 + enc_docs(full).len() as int, b.len() as int),
    );
}

/// When the blob holds a whole dictionary, the next entry's encoding sits
/// right at the cursor.
proof fn lemma_dict_step_align(
    b: Seq<u8>,
    full: Seq<TermPostings>,
    got: Seq<TermPostings>,
    i: int,
    p4: int,
    q0: int,
)
    requires
        fits(b, p4, enc_dict(full)),
        0 <= i < full.len(),
        got.len() == i,
        forall|x: int| 0 <= x < i ==> entry_bounded(#[trigger] got[x]),
        forall|x: int| 0 <= x < full.len() ==> entry_bounded(#[trigger] full[x]),
        0 <= p4 <= q0 <= b.len(),
        b.subrange(p4, q0) == enc_dict(got),
    ensures
        fits(b, q0, enc_entry(full[i])),
{
    lemma_enc_dict_split(full, i);
    lemma_fits_concat(b, p4, enc_dict(full.take(i)), enc_dict_from(full, i));
    let hlen = enc_dict(full.take(i)).len() as int;
    lemma_subrange_glue(b, p4, q0, b.len() as int);
    lemma_subrange_glue(b, p4, p4 + hlen, b.len() as int);
    assert(forall|x: int| 0 <= x < i ==> (#[trigger] full.take(i)[x]) == full[x]);
    assert(enc_dict(got) + b.subrange(q0, b.len() as int) == enc_dict(full.take(i)) + b.subrange(
        p4 + hlen,
        b.len() as int,
    )) by {
        assert(b.subrange(p4, b.len() as int) == enc_dict(got) + b.subrange(q0, b.len() as int));
        assert(b.subrange(p4, b.len() as int) == enc_dict(full.take(i)) + b.subrange(
            p4 + hlen,
            b.len() as int,
        ));
    }
    lemma_dict_prefix(
        got,
        full.take(i),
        b.subrange(q0, b.len() as int),
        b.subrange(p4 + hlen, b.len() as int),
    );
    assert(q0 == p4 + hlen);
    assert(enc_dict_from(full, i) == enc_entry(full[i]) + enc_dict_from(full, i + 1));
    lemma_fits_concat(b, q0, enc_entry(full[i]), enc_dict_from(full, i + 1));
}

/// After the entry loop the read dictionary is the blob's whole dictionary
/// and the cursor sits right after it.
proof fn lemma_full_dict_align(
    b: Seq<u8>,
    full: Seq<TermPostings>,
    got: Seq<TermPostings>,
    p4: int,
    q: int,
)
    requires
        fits(b, p4, enc_dict(full)),
        got.len() == full.len(),
        forall|x: int| 0 <= x < got.len() ==> entry_bounded(#[trigger] got[x]),
        forall|x: int| 0 <= x < full.len() ==> entry_bounded(#[trigger] full[x]),
        0 <= p4 <= q <= b.len(),
        b.subrange(p4, q) == enc_dict(got),
    ensures
        q == p4 + enc_dict(full).len() as int,
        forall|x: int| 0 <= x < got.len() ==> entry_like(#[trigger] got[x], full[x]),
{
    lemma_subrange_glue(b, p4, q, b.len() as int);
    lemma_subrange_glue(b, p4, p4 + enc_dict(full).len() as int, b.len() as int);
    assert(enc_dict(got) + b.subrange(q, b.len() as int) == enc_dict(full) + b.subrange(
        p4 + enc_dict(full).len() as int,
        b.len() as int,
    )) by {
        assert(b.subrange(p4, b.len() as int) == enc_dict(got) + b.subrange(q, b.len() as int));
        assert(b.subrange(p4, b.len() as int) == enc_dict(full) + b.subrange(
            p4 + enc_dict(full).len() as int,
            b.len() as int,
        ));
    }
    lemma_dict_prefix(
        got,
        full,
        b.subrange(q, b.len() as int),
        b.subrange(p4 + enc_dict(full).len() as int, b.len() as int),
    );
}

} // verus!

verus! {

/// Field-for-field equality of two postings, at the level of views.
pub open spec fn posting_like(a: Posting, b: Posting) -> bool {
    a.doc_id == b.doc_id && a.tf == b.tf && a.positions@ == b.positions@
}

/// Field-for-field equality of two documents' metadata.
pub open spec fn doc_like(a: DocMeta, b: DocMeta) -> bool {
    a.url@ == b.url@ && a.title@ == b.title@ && a.body@ == b.body@ && a.length == b.length
}

/// Field-for-field equality of two dictionary entries.
pub open spec fn entry_like(a: TermPostings, b: TermPostings) -> bool {
    &&& a.term@ == b.term@
    &&& a.postings@.len() == b.postings@.len()
    &&& forall|k: int|
        0 <= k < a.postings@.len() ==> posting_like(#[trigger] a.postings@[k], b.postings@[k])
}

/// Structural equality of two stores over their views: the same document
/// count, the same document table and the same dictionary.
pub open spec fn store_like(a: IndexStore, b: IndexStore) -> bool {
    &&& a.doc_count == b.doc_count
    &&& a.docs@.len() == b.docs@.len()
    &&& forall|d: int| 0 <= d < a.docs@.len() ==> doc_like(#[trigger] a.docs@[d], b.docs@[d])
    &&& a.dict@.len() == b.dict@.len()
    &&& forall|i: int| 0 <= i < a.dict@.len() ==> entry_like(#[trigger] a.dict@[i], b.dict@[i])
}

/// Every string of the document fits a machine word.
pub open spec fn doc_bounded(d: DocMeta) -> bool {
    d.url@.len() <= usize::MAX && d.title@.len() <= usize::MAX && d.body@.len() <= usize::MAX
}

/// Every string and list of the entry fits a machine word.
pub open spec fn entry_bounded(e: TermPostings) -> bool {
    &&& e.term@.len() <= usize::MAX
    &&& e.postings@.len() <= usize::MAX
    &&& forall|k: int|
        0 <= k < e.postings@.len() ==> (#[trigger] e.postings@[k]).positions@.len() <= usize::MAX
}

/// Machine-size bounds under which the blob's length fields are faithful
/// and the whole store is decodable; every store that fits in memory
/// satisfies them.
pub open spec fn store_bounded(s: IndexStore) -> bool {
    &&& s.docs@.len() <= usize::MAX
    &&& s.dict@.len() <= usize::MAX
    &&& forall|d: int| 0 <= d < s.docs@.len() ==> doc_bounded(#[trigger] s.docs@[d])
    &&& forall|i: int| 0 <= i < s.dict@.len() ==> entry_bounded(#[trigger] s.dict@[i])
}

/// An encoded integer is a prefix code: equal streams decode to the same
/// integer and leave the same rest.
proof fn lemma_u64_prefix(a: u64, b: u64, r1: Seq<u8>, r2: Seq<u8>)
    requires
        enc_u64(a) + r1 == enc_u64(b) + r2,
    ensures
        a == b,
        r1 == r2,
{
    lemma_auto_spec_u64_to_from_le_bytes();
    let l = enc_u64(a) + r1;
    assert(enc_u64(a).len() == 8);
    assert(enc_u64(b).len() == 8);
    assert(enc_u64(a) =~= l.subrange(0, 8));
    assert(enc_u64(b) =~= l.subrange(0, 8));
    assert(vstd::bytes::spec_u64_from_le_bytes(enc_u64(a)) == a);
    assert(vstd::bytes::spec_u64_from_le_bytes(enc_u64(b)) == b);
    assert(r1 =~= l.subrange(8, l.len() as int));
    assert(r2 =~= l.subrange(8, l.len() as int));
}

/// A character is determined by its scalar value.
proof fn lemma_char_scalar_injective(c1: char, c2: char)
    requires
        c1 as u64 == c2 as u64,
    ensures
        c1 == c2,
{
}

/// Character sequences of equal length form a prefix code.
proof fn lemma_char_seq_prefix(s1: Seq<char>, s2: Seq<char>, r1: Seq<u8>, r2: Seq<u8>)
    requires
        s1.len() == s2.len(),
        enc_char_seq(s1) + r1 == enc_char_seq(s2) + r2,
    ensures
        s1 == s2,
        r1 == r2,
    decreases s1.len(),
{
    if s1.len() == 0 {
        assert(enc_char_seq(s1) + r1 =~= r1);
        assert(enc_char_seq(s2) + r2 =~= r2);
        assert(s1 =~= s2);
    } else {
        assert(enc_char_seq(s1) + r1 =~= enc_char_seq(s1.drop_last()) + (enc_u64(
            s1.last() as u64,
        ) + r1));
        assert(enc_char_seq(s2) + r2 =~= enc_char_seq(s2.drop_last()) + (enc_u64(
            s2.last() as u64,
        ) + r2));
        lemma_char_seq_prefix(
            s1.drop_last(),
            s2.drop_last(),
            enc_u64(s1.last() as u64) + r1,
            enc_u64(s2.last() as u64) + r2,
        );
        lemma_u64_prefix(s1.last() as u64, s2.last() as u64, r1, r2);
        lemma_char_scalar_injective(s1.last(), s2.last());
        assert(forall|i: int| 0 <= i < s1.len() - 1 ==> s1.drop_last()[i] == s1[i]);
        assert(forall|i: int| 0 <= i < s2.len() - 1 ==> s2.drop_last()[i] == s2[i]);
        assert(s1 =~= s2);
    }
}

/// A machine integer is determined by its value as an encoder integer.
proof fn lemma_usize_scalar_injective(a: usize, b: usize)
    requires
        a as u64 == b as u64,
    ensures
        a == b,
{
}

/// Position lists of equal length form a prefix code.
proof fn lemma_usize_seq_prefix(s1: Seq<usize>, s2: Seq<usize>, r1: Seq<u8>, r2: Seq<u8>)
    requires
        s1.len() == s2.len(),
        enc_usize_seq(s1) + r1 == enc_usize_seq(s2) + r2,
    ensures
        s1 == s2,
        r1 == r2,
    decreases s1.len(),
{
    if s1.len() == 0 {
        assert(enc_usize_seq(s1) + r1 =~= r1);
        assert(enc_usize_seq(s2) + r2 =~= r2);
        assert(s1 =~= s2);
    } else {
        assert(enc_usize_seq(s1) + r1 =~= enc_usize_seq(s1.drop_last()) + (enc_u64(
            s1.last() as u64,
        ) + r1));
        assert(enc_usize_seq(s2) + r2 =~= enc_usize_seq(s2.drop_last()) + (enc_u64(
            s2.last() as u64,
        ) + r2));
        lemma_usize_seq_prefix(
            s1.drop_last(),
            s2.drop_last(),
            enc_u64(s1.last() as u64) + r1,
            enc_u64(s2.last() as u64) + r2,
        );
        lemma_u64_prefix(s1.last() as u64, s2.last() as u64, r1, r2);
        lemma_usize_scalar_injective(s1.last(), s2.last());
        assert(forall|i: int| 0 <= i < s1.len() - 1 ==> s1.drop_last()[i] == s1[i]);
        assert(forall|i: int| 0 <= i < s2.len() - 1 ==> s2.drop_last()[i] == s2[i]);
        assert(s1 =~= s2);
    }
}

/// Strings form a prefix code: the character count comes first.
proof fn lemma_str_prefix(s1: Seq<char>, s2: Seq<char>, r1: Seq<u8>, r2: Seq<u8>)
    requires
        s1.len() <= u64::MAX,
        s2.len() <= u64::MAX,
        enc_str(s1) + r1 == enc_str(s2) + r2,
    ensures
        s1 == s2,
        r1 == r2,
{
    assert(enc_str(s1) + r1 =~= enc_u64(s1.len() as u64) + (enc_char_seq(s1) + r1));
    assert(enc_str(s2) + r2 =~= enc_u64(s2.len() as u64) + (enc_char_seq(s2) + r2));
    lemma_u64_prefix(
        s1.len() as u64,
        s2.len() as u64,
        enc_char_seq(s1) + r1,
        enc_char_seq(s2) + r2,
    );
    lemma_char_seq_prefix(s1, s2, r1, r2);
}

/// Postings form a prefix code.
proof fn lemma_posting_prefix(p1: Posting, p2: Posting, r1: Seq<u8>, r2: Seq<u8>)
    requires
        p1.positions@.len() <= u64::MAX,
        p2.positions@.len() <= u64::MAX,
        enc_posting(p1) + r1 == enc_posting(p2) + r2,
    ensures
        posting_like(p1, p2),
        r1 == r2,
{
    assert(enc_posting(p1) + r1 =~= enc_u64(p1.doc_id as u64) + (enc_u64(p1.tf as u64) + (enc_u64(
        p1.positions@.len() as u64,
    ) + (enc_usize_seq(p1.positions@) + r1))));
    assert(enc_posting(p2) + r2 =~= enc_u64(p2.doc_id as u64) + (enc_u64(p2.tf as u64) + (enc_u64(
        p2.positions@.len() as u64,
    ) + (enc_usize_seq(p2.positions@) + r2))));
    lemma_u64_prefix(
        p1.doc_id as u64,
        p2.doc_id as u64,
        enc_u64(p1.tf as u64) + (enc_u64(p1.positions@.len() as u64) + (enc_usize_seq(
            p1.positions@,
        ) + r1)),
        enc_u64(p2.tf as u64) + (enc_u64(p2.positions@.len() as u64) + (enc_usize_seq(
            p2.positions@,
        ) + r2)),
    );
    lemma_u64_prefix(
        p1.tf as u64,
        p2.tf as u64,
        enc_u64(p1.positions@.len() as u64) + (enc_usize_seq(p1.positions@) + r1),
        enc_u64(p2.positions@.len() as u64) + (enc_usize_seq(p2.positions@) + r2),
    );
    lemma_u64_prefix(
        p1.positions@.len() as u64,
        p2.positions@.len() as u64,
        enc_usize_seq(p1.positions@) + r1,
        enc_usize_seq(p2.positions@) + r2,
    );
    lemma_usize_seq_prefix(p1.positions@, p2.positions@, r1, r2);
}

/// Posting lists of equal length form a prefix code.
proof fn lemma_postings_prefix(ps1: Seq<Posting>, ps2: Seq<Posting>, r1: Seq<u8>, r2: Seq<u8>)
    requires
        ps1.len() == ps2.len(),
        forall|k: int| 0 <= k < ps1.len() ==> (#[trigger] ps1[k]).positions@.len() <= u64::MAX,
        forall|k: int| 0 <= k < ps2.len() ==> (#[trigger] ps2[k]).positions@.len() <= u64::MAX,
        enc_postings(ps1) + r1 == enc_postings(ps2) + r2,
    ensures
        forall|k: int| 0 <= k < ps1.len() ==> posting_like(#[trigger] ps1[k], ps2[k]),
        r1 == r2,
    decreases ps1.len(),
{
    if ps1.len() == 0 {
        assert(enc_postings(ps1) + r1 =~= r1);
        assert(enc_postings(ps2) + r2 =~= r2);
    } else {
        assert(enc_postings(ps1) + r1 =~= enc_postings(ps1.drop_last()) + (enc_posting(ps1.last())
            + r1));
        assert(enc_postings(ps2) + r2 =~= enc_postings(ps2.drop_last()) + (enc_posting(ps2.last())
            + r2));
        assert(forall|k: int| 0 <= k < ps1.len() - 1 ==> ps1.drop_last()[k] == ps1[k]);
        assert(forall|k: int| 0 <= k < ps2.len() - 1 ==> ps2.drop_last()[k] == ps2[k]);
        lemma_postings_prefix(
            ps1.drop_last(),
            ps2.drop_last(),
            enc_posting(ps1.last()) + r1,
            enc_posting(ps2.last()) + r2,
        );
        lemma_posting_prefix(ps1.last(), ps2.last(), r1, r2);
        assert forall|k: int| 0 <= k < ps1.len() implies posting_like(
            #[trigger] ps1[k],
            ps2[k],
        ) by {
            if k < ps1.len() - 1 {
                assert(posting_like(ps1.drop_last()[k], ps2.drop_last()[k]));
            } else {
                assert(posting_like(ps1.last(), ps2.last()));
            }
        }
    }
}

/// Documents form a prefix code.
proof fn lemma_doc_prefix(d1: DocMeta, d2: DocMeta, r1: Seq<u8>, r2: Seq<u8>)
    requires
        doc_bounded(d1),
        doc_bounded(d2),
        enc_doc(d1) + r1 == enc_doc(d2) + r2,
    ensures
        doc_like(d1, d2),
        r1 == r2,
{
    assert(enc_doc(d1) + r1 =~= enc_str(d1.url@) + (enc_str(d1.title@) + (enc_str(d1.body@) + (
    enc_u64(d1.length as u64) + r1))));
    assert(enc_doc(d2) + r2 =~= enc_str(d2.url@) + (enc_str(d2.title@) + (enc_str(d2.body@) + (
    enc_u64(d2.length as u64) + r2))));
    lemma_str_prefix(
        d1.url@,
        d2.url@,
        enc_str(d1.title@) + (enc_str(d1.body@) + (enc_u64(d1.length as u64) + r1)),
        enc_str(d2.title@) + (enc_str(d2.body@) + (enc_u64(d2.length as u64) + r2)),
    );
    lemma_str_prefix(
        d1.title@,
        d2.title@,
        enc_str(d1.body@) + (enc_u64(d1.length as u64) + r1),
        enc_str(d2.body@) + (enc_u64(d2.length as u64) + r2),
    );
    lemma_str_prefix(
        d1.body@,
        d2.body@,
        enc_u64(d1.length as u64) + r1,
        enc_u64(d2.length as u64) + r2,
    );
    lemma_u64_prefix(d1.length as u64, d2.length as u64, r1, r2);
}

/// Document tables of equal length form a prefix code.
proof fn lemma_docs_prefix(ds1: Seq<DocMeta>, ds2: Seq<DocMeta>, r1: Seq<u8>, r2: Seq<u8>)
    requires
        ds1.len() == ds2.len(),
        forall|d: int| 0 <= d < ds1.len() ==> doc_bounded(#[trigger] ds1[d]),
        forall|d: int| 0 <= d < ds2.len() ==> doc_bounded(#[trigger] ds2[d]),
        enc_docs(ds1) + r1 == enc_docs(ds2) + r2,
    ensures
        forall|d: int| 0 <= d < ds1.len() ==> doc_like(#[trigger] ds1[d], ds2[d]),
        r1 == r2,
    decreases ds1.len(),
{
    if ds1.len() == 0 {
        assert(enc_docs(ds1) + r1 =~= r1);
        assert(enc_docs(ds2) + r2 =~= r2);
    } else {
        assert(enc_docs(ds1) + r1 =~= enc_docs(ds1.drop_last()) + (enc_doc(ds1.last()) + r1));
        assert(enc_docs(ds2) + r2 =~= enc_docs(ds2.drop_last()) + (enc_doc(ds2.last()) + r2));
        assert(forall|d: int| 0 <= d < ds1.len() - 1 ==> ds1.drop_last()[d] == ds1[d]);
        assert(forall|d: int| 0 <= d < ds2.len() - 1 ==> ds2.drop_last()[d] == ds2[d]);
        lemma_docs_prefix(
            ds1.drop_last(),
            ds2.drop_last(),
            enc_doc(ds1.last()) + r1,
            enc_doc(ds2.last()) + r2,
        );
        lemma_doc_prefix(ds1.last(), ds2.last(), r1, r2);
        assert forall|d: int| 0 <= d < ds1.len() implies doc_like(#[trigger] ds1[d], ds2[d]) by {
            if d < ds1.len() - 1 {
                assert(doc_like(ds1.drop_last()[d], ds2.drop_last()[d]));
            } else {
                assert(doc_like(ds1.last(), ds2.last()));
            }
        }
    }
}

/// Dictionary entries form a prefix code.
proof fn lemma_entry_prefix(e1: TermPostings, e2: TermPostings, r1: Seq<u8>, r2: Seq<u8>)
    requires
        entry_bounded(e1),
        entry_bounded(e2),
        enc_entry(e1) + r1 == enc_entry(e2) + r2,
    ensures
        entry_like(e1, e2),
        r1 == r2,
{
    assert(enc_entry(e1) + r1 =~= enc_str(e1.term@) + (enc_u64(e1.postings@.len() as u64) + (
    enc_postings(e1.postings@) + r1)));
    assert(enc_entry(e2) + r2 =~= enc_str(e2.term@) + (enc_u64(e2.postings@.len() as u64) + (
    enc_postings(e2.postings@) + r2)));
    lemma_str_prefix(
        e1.term@,
        e2.term@,
        enc_u64(e1.postings@.len() as u64) + (enc_postings(e1.postings@) + r1),
        enc_u64(e2.postings@.len() as u64) + (enc_postings(e2.postings@) + r2),
    );
    lemma_u64_prefix(
        e1.postings@.len() as u64,
        e2.postings@.len() as u64,
        enc_postings(e1.postings@) + r1,
        enc_postings(e2.postings@) + r2,
    );
    lemma_postings_prefix(e1.postings@, e2.postings@, r1, r2);
}

/// Dictionaries of equal length form a prefix code.
proof fn lemma_dict_prefix(dc1: Seq<TermPostings>, dc2: Seq<TermPostings>, r1: Seq<u8>, r2: Seq<u8>)
    requires
        dc1.len() == dc2.len(),
        forall|i: int| 0 <= i < dc1.len() ==> entry_bounded(#[trigger] dc1[i]),
        forall|i: int| 0 <= i < dc2.len() ==> entry_bounded(#[trigger] dc2[i]),
        enc_dict(dc1) + r1 == enc_dict(dc2) + r2,
    ensures
        forall|i: int| 0 <= i < dc1.len() ==> entry_like(#[trigger] dc1[i], dc2[i]),
        r1 == r2,
    decreases dc1.len(),
{
    if dc1.len() == 0 {
        assert(enc_dict(dc1) + r1 =~= r1);
        assert(enc_dict(dc2) + r2 =~= r2);
    } else {
        assert(enc_dict(dc1) + r1 =~= enc_dict(dc1.drop_last()) + (enc_entry(dc1.last()) + r1));
        assert(enc_dict(dc2) + r2 =~= enc_dict(dc2.drop_last()) + (enc_entry(dc2.last()) + r2));
        assert(forall|i: int| 0 <= i < dc1.len() - 1 ==> dc1.drop_last()[i] == dc1[i]);
        assert(forall|i: int| 0 <= i < dc2.len() - 1 ==> dc2.drop_last()[i] == dc2[i]);
        lemma_dict_prefix(
            dc1.drop_last(),
            dc2.drop_last(),
            enc_entry(dc1.last()) + r1,
            enc_entry(dc2.last()) + r2,
        );
        lemma_entry_prefix(dc1.last(), dc2.last(), r1, r2);
        assert forall|i: int| 0 <= i < dc1.len() implies entry_like(#[trigger] dc1[i], dc2[i]) by {
            if i < dc1.len() - 1 {
                assert(entry_like(dc1.drop_last()[i], dc2.drop_last()[i]));
            } else {
                assert(entry_like(dc1.last(), dc2.last()));
            }
        }
    }
}

/// The persistence round trip: the canonical encoding is injective, so
/// two stores with the same blob carry the same data. Together with the
/// contracts of `encode_store` and `decode_store` this pins the round
/// trip down: whatever the decoder accepts for a saved store is, field
/// for field, the store that was saved.
pub proof fn lemma_store_bytes_injective(a: IndexStore, b: IndexStore)
    requires
        store_bounded(a),
        store_bounded(b),
        store_bytes(a) == store_bytes(b),
    ensures
        store_like(a, b),
{
    let ra = enc_u64(a.docs@.len() as u64) + (enc_docs(a.docs@) + (enc_u64(a.dict@.len() as u64)
        + (enc_dict(a.dict@) + Seq::<u8>::empty())));
    let rb = enc_u64(b.docs@.len() as u64) + (enc_docs(b.docs@) + (enc_u64(b.dict@.len() as u64)
        + (enc_dict(b.dict@) + Seq::<u8>::empty())));
    assert(store_bytes(a) =~= enc_u64(a.doc_count as u64) + ra);
    assert(store_bytes(b) =~= enc_u64(b.doc_count as u64) + rb);
    lemma_u64_prefix(a.doc_count as u64, b.doc_count as u64, ra, rb);
    lemma_u64_prefix(
        a.docs@.len() as u64,
        b.docs@.len() as u64,
        enc_docs(a.docs@) + (enc_u64(a.dict@.len() as u64) + (enc_dict(a.dict@)
            + Seq::<u8>::empty())),
        enc_docs(b.docs@) + (enc_u64(b.dict@.len() as u64) + (enc_dict(b.dict@)
            + Seq::<u8>::empty())),
    );
    lemma_docs_prefix(
        a.docs@,
        b.docs@,
        enc_u64(a.dict@.len() as u64) + (enc_dict(a.dict@) + Seq::<u8>::empty()),
        enc_u64(b.dict@.len() as u64) + (enc_dict(b.dict@) + Seq::<u8>::empty()),
    );
    lemma_u64_prefix(
        a.dict@.len() as u64,
        b.dict@.len() as u64,
        enc_dict(a.dict@) + Seq::<u8>::empty(),
        enc_dict(b.dict@) + Seq::<u8>::empty(),
    );
    lemma_dict_prefix(a.dict@, b.dict@, Seq::<u8>::empty(), Seq::<u8>::empty());
}

} // verus!
