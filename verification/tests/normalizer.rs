use parsearch::normalize::normalize_text;
use parsearch::normalize::tokenize;

fn toks(s: &str) -> Vec<String> {
    tokenize(s)
}

#[test]
fn empty_input_has_no_tokens() {
    assert_eq!(toks(""), Vec::<String>::new());
}

#[test]
fn whitespace_only_has_no_tokens() {
    assert_eq!(toks("   \t  \n "), Vec::<String>::new());
}

#[test]
fn letters_then_digits_split() {
    assert_eq!(toks("abc123"), vec!["abc".to_string(), "123".to_string()]);
}

#[test]
fn digits_then_letters_split() {
    assert_eq!(toks("123abc"), vec!["123".to_string(), "abc".to_string()]);
}

#[test]
fn zwnj_separates_tokens() {
    assert_eq!(
        toks("کتاب\u{200C}ها"),
        vec!["کتاب".to_string(), "ها".to_string()]
    );
}

#[test]
fn plural_suffix_heh_alef_is_stripped() {
    assert_eq!(toks("کتابها"), vec!["کتاب".to_string()]);
}

#[test]
fn plural_suffix_alef_noon_is_stripped() {
    assert_eq!(toks("معلمان"), vec!["معلم".to_string()]);
}

#[test]
fn short_words_keep_their_suffix() {
    // four characters only, so the suffix rule does not fire
    assert_eq!(toks("آنها"), vec!["آنها".to_string()]);
}

#[test]
fn arabic_letters_fold_to_persian() {
    let words = toks("علي ك");
    assert_eq!(words, vec!["علی".to_string(), "ک".to_string()]);
}

#[test]
fn normalize_lowercases_and_replaces_zwnj() {
    assert_eq!(normalize_text("ABC\u{200C}DEF"), "abc def");
    assert_eq!(
        toks("ABC\u{200C}DEF"),
        vec!["abc".to_string(), "def".to_string()]
    );
}

#[test]
fn punctuation_becomes_spaces() {
    assert_eq!(
        toks("hello, world!"),
        vec!["hello".to_string(), "world".to_string()]
    );
}

#[test]
fn digit_boundary_resets_after_separator() {
    assert_eq!(
        toks("abc 123"),
        vec!["abc".to_string(), "123".to_string()]
    );
    assert_eq!(
        toks("a1b2"),
        vec![
            "a".to_string(),
            "1".to_string(),
            "b".to_string(),
            "2".to_string()
        ]
    );
}
