//! Text normalization and tokenization for mixed Persian/Latin/numeric
//! text. Both the indexer and the query engine run every string through
//! these functions, so terms compare equal across the two sides.

use vstd::prelude::*;

verus! {

/// Arabic yeh, folded to Farsi yeh during normalization.
pub const ARABIC_YEH: char = '\u{064A}';

/// Farsi yeh, the folded form of `ARABIC_YEH`.
pub const FARSI_YEH: char = '\u{06CC}';

/// Arabic kaf, folded to the keheh form during normalization.
pub const ARABIC_KAF: char = '\u{0643}';

/// Farsi keheh, the folded form of `ARABIC_KAF`.
pub const FARSI_KEHEH: char = '\u{06A9}';

/// Zero-width non-joiner, treated as a separator.
pub const ZWNJ: char = '\u{200C}';

/// Heh, first character of the plural suffix stripped by `tokenize`.
pub const SUFFIX_HEH: char = '\u{0647}';

/// Alef, second character of one plural suffix and first of the other.
pub const SUFFIX_ALEF: char = '\u{0627}';

/// Noon, second character of the second plural suffix.
pub const SUFFIX_NOON: char = '\u{0646}';

/// Whether a space must be inserted before emitting for `c`, given the
/// digit-versus-letter category of the previously emitted alphanumeric
/// character (`None` after a separator).
pub open spec fn boundary_space(last_was_digit: Option<bool>, c: char) -> bool {
    match last_was_digit {
        Option::Some(was_digit) => (was_digit && crate::unicode::is_unicode_alphabetic(c)) || (
        !was_digit && crate::unicode::is_unicode_numeric(c)),
        Option::None => false,
    }
}

/// The characters the normalizer emits for one input character `c`,
/// including the boundary space when the script/digit category switches.
pub open spec fn norm_emit(last_was_digit: Option<bool>, c: char) -> Seq<char> {
    let pre: Seq<char> = if boundary_space(last_was_digit, c) {
        seq![' ']
    } else {
        Seq::<char>::empty()
    };
    if c == ARABIC_YEH {
        pre.push(FARSI_YEH)
    } else if c == ARABIC_KAF {
        pre.push(FARSI_KEHEH)
    } else if c == ZWNJ {
        pre.push(' ')
    } else if crate::unicode::is_unicode_alphabetic(c) || crate::unicode::is_unicode_numeric(c) {
        pre + crate::unicode::lower_chars(c)
    } else {
        pre.push(' ')
    }
}

/// The category state after the normalizer has handled `c`.
pub open spec fn norm_state(last_was_digit: Option<bool>, c: char) -> Option<bool> {
    if c == ARABIC_YEH || c == ARABIC_KAF {
        Option::Some(false)
    } else if c == ZWNJ {
        Option::None
    } else if crate::unicode::is_unicode_alphabetic(c) || crate::unicode::is_unicode_numeric(c) {
        Option::Some(crate::unicode::is_unicode_numeric(c))
    } else {
        Option::None
    }
}

/// The normalizer's output for the suffix of `s` starting at `i`, entered
/// with category state `last_was_digit`.
pub open spec fn normalize_from(s: Seq<char>, i: int, last_was_digit: Option<bool>) -> Seq<char>
    decreases s.len() - i,
{
    if i < 0 || i >= s.len() {
        Seq::<char>::empty()
    } else {
        norm_emit(last_was_digit, s[i]) + normalize_from(s, i + 1, norm_state(last_was_digit, s[i]))
    }
}

/// The normalized form of `s`: Arabic yeh and kaf folded to their Farsi
/// forms, the zero-width non-joiner and every non-alphanumeric character
/// replaced by a space, every other character lowercased, and a space
/// inserted wherever a digit follows a letter or a letter follows a digit.
pub open spec fn normalize_spec(s: Seq<char>) -> Seq<char> {
    normalize_from(s, 0, Option::None)
}

/// Deterministically maps any input string to its normalized form; the
/// same mapping runs at indexing time and at query time.
#[verifier::loop_isolation(false)]
pub fn normalize_text(input: &str) -> (r: String)
    ensures
        r@ == normalize_spec(input@),
{
    let chars = crate::unicode::chars_of(input);
    let mut out: Vec<char> = Vec::new();
    let mut last_was_digit: Option<bool> = None;
    let mut i: usize = 0;
    while i < chars.len()
        invariant
            i <= chars.len(),
            out@ + normalize_from(input@, i as int, last_was_digit) == normalize_spec(input@),
        decreases chars.len() - i,
    {
        let c = chars[i];
        let ghost state0 = last_was_digit;
        let ghost out0 = out@;
        let is_digit = c.is_numeric();
        let is_alpha = c.is_alphabetic();
        proof {
            assert(normalize_from(input@, i as int, state0) == norm_emit(state0, c)
                + normalize_from(input@, i as int + 1, norm_state(state0, c)));
        }
        if let Some(was_digit) = last_was_digit {
            if (was_digit && is_alpha) || (!was_digit && is_digit) {
                out.push(' ');
            }
        }
        if c == ARABIC_YEH {
            out.push(FARSI_YEH);
            last_was_digit = Some(false);
        } else if c == ARABIC_KAF {
            out.push(FARSI_KEHEH);
            last_was_digit = Some(false);
        } else if c == ZWNJ {
            out.push(' ');
            last_was_digit = None;
        } else if is_alpha || is_digit {
            let low = crate::unicode::char_to_lowercase(c);
            let ghost out_pre = out@;
            let mut k: usize = 0;
            while k < low.len()
                invariant
                    k <= low.len(),
                    out@ == out_pre + low@.take(k as int),
                decreases low.len() - k,
            {
                out.push(low[k]);
                assert(out@ =~= out_pre + low@.take(k as int + 1));
                k = k + 1;
            }
            assert(low@.take(low@.len() as int) =~= low@);
            last_was_digit = Some(is_digit);
        } else {
            out.push(' ');
            last_was_digit = None;
        }
        assert(out@ =~= out0 + norm_emit(state0, c));
        i = i + 1;
    }
    proof {
        assert(out@ + normalize_from(input@, i as int, last_was_digit) =~= out@);
    }
    crate::unicode::string_from_chars(&out)
}

/// The word with the two-character plural suffix stripped: a word of more
/// than four characters that ends in heh+alef or in alef+noon loses
/// exactly its last two characters; every other word is unchanged.
pub open spec fn strip_suffix(w: Seq<char>) -> Seq<char> {
    if w.len() > 4 && ((w[w.len() - 2] == SUFFIX_HEH && w[w.len() - 1] == SUFFIX_ALEF) || (w[w.len()
        - 2] == SUFFIX_ALEF && w[w.len() - 1] == SUFFIX_NOON)) {
        w.take(w.len() - 2)
    } else {
        w
    }
}

/// The words of the suffix of `s` from `i` on, where `cur` holds the
/// partially read word: words are maximal runs of non-whitespace
/// characters, each stripped of a plural suffix.
pub open spec fn words_from(s: Seq<char>, i: int, cur: Seq<char>) -> Seq<Seq<char>>
    decreases s.len() - i,
{
    if i < 0 || i >= s.len() {
        if cur.len() == 0 {
            Seq::<Seq<char>>::empty()
        } else {
            seq![strip_suffix(cur)]
        }
    } else if crate::unicode::is_unicode_whitespace(s[i]) {
        if cur.len() == 0 {
            words_from(s, i + 1, Seq::<char>::empty())
        } else {
            seq![strip_suffix(cur)] + words_from(s, i + 1, Seq::<char>::empty())
        }
    } else {
        words_from(s, i + 1, cur.push(s[i]))
    }
}

/// The terms of `s`: its normalized form split on runs of whitespace,
/// each word stripped of a plural suffix.
pub open spec fn tokenize_spec(s: Seq<char>) -> Seq<Seq<char>> {
    words_from(normalize_spec(s), 0, Seq::<char>::empty())
}

/// Builds the term for one completed word: the word's characters with the
/// plural suffix stripped.
#[verifier::loop_isolation(false)]
fn finish_word(cur: &Vec<char>) -> (w: String)
    ensures
        w@ == strip_suffix(cur@),
{
    if cur.len() > 4 {
        let a = cur[cur.len() - 2];
        let b = cur[cur.len() - 1];
        if (a == SUFFIX_HEH && b == SUFFIX_ALEF) || (a == SUFFIX_ALEF && b == SUFFIX_NOON) {
            let end = cur.len() - 2;
            let mut stem: Vec<char> = Vec::new();
            let mut k: usize = 0;
            while k < end
                invariant
                    k <= end,
                    stem@ == cur@.take(k as int),
                decreases end - k,
            {
                stem.push(cur[k]);
                assert(stem@ =~= cur@.take(k as int + 1));
                k = k + 1;
            }
            return crate::unicode::string_from_chars(&stem);
        }
    }
    crate::unicode::string_from_chars(cur)
}

/// Splits the normalized form of `input` into terms: maximal runs of
/// non-whitespace characters, each stripped of a plural suffix. The same
/// splitting runs at indexing time and at query time, and it never fails.
#[verifier::loop_isolation(false)]
pub fn tokenize(input: &str) -> (r: Vec<String>)
    ensures
        r.deep_view() == tokenize_spec(input@),
{
    let normalized = normalize_text(input);
    let chars = crate::unicode::chars_of(normalized.as_str());
    let mut out: Vec<String> = Vec::new();
    let mut cur: Vec<char> = Vec::new();
    let mut i: usize = 0;
    while i < chars.len()
        invariant
            i <= chars.len(),
            out.deep_view() + words_from(chars@, i as int, cur@) == tokenize_spec(input@),
        decreases chars.len() - i,
    {
        let c = chars[i];
        let ghost out0 = out.deep_view();
        let ghost cur0 = cur@;
        if c.is_whitespace() {
            if cur.len() > 0 {
                let word = finish_word(&cur);
                out.push(word);
                cur.clear();
                proof {
                    assert(cur@ =~= Seq::<char>::empty());
                    assert(words_from(chars@, i as int, cur0) == seq![strip_suffix(cur0)]
                        + words_from(chars@, i as int + 1, Seq::<char>::empty()));
                    assert(out.deep_view() =~= out0.push(word@));
                    assert(out.deep_view() + words_from(chars@, i as int + 1, cur@) =~= out0
                        + words_from(chars@, i as int, cur0));
                }
            } else {
                proof {
                    assert(cur@ =~= Seq::<char>::empty());
                    assert(words_from(chars@, i as int, cur0) == words_from(
                        chars@,
                        i as int + 1,
                        Seq::<char>::empty(),
                    ));
                }
            }
        } else {
            cur.push(c);
            proof {
                assert(cur@ == cur0.push(chars@[i as int]));
                assert(words_from(chars@, i as int, cur0) == words_from(
                    chars@,
                    i as int + 1,
                    cur0.push(chars@[i as int]),
                ));
            }
        }
        i = i + 1;
    }
    if cur.len() > 0 {
        let ghost out0 = out.deep_view();
        let ghost cur0 = cur@;
        let word = finish_word(&cur);
        out.push(word);
        proof {
            assert(out.deep_view() =~= out0.push(word@));
            assert(out.deep_view() =~= out0 + words_from(chars@, chars@.len() as int, cur0));
        }
    } else {
        proof {
            assert(out.deep_view() + words_from(chars@, chars@.len() as int, cur@)
                =~= out.deep_view());
        }
    }
    out
}

} // verus!
