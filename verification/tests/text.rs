use meetily::text::{
    contains_text, decimal_text, distinct_texts, first_chars, join_texts, piece_at, same_text, snippet, split_lines,
    split_runs, starts_with_text, string_of, chars_of, trim_text, RunOf,
};

fn strings(v: &[&str]) -> Vec<String> {
    v.iter().map(|s| s.to_string()).collect()
}

#[test]
fn white_space_is_what_unicode_lists() {
    let listed = [
        '\u{9}', '\u{a}', '\u{b}', '\u{c}', '\u{d}', '\u{20}', '\u{85}', '\u{a0}', '\u{1680}', '\u{2000}', '\u{2001}',
        '\u{2002}', '\u{2003}', '\u{2004}', '\u{2005}', '\u{2006}', '\u{2007}', '\u{2008}', '\u{2009}', '\u{200a}',
        '\u{2028}', '\u{2029}', '\u{202f}', '\u{205f}', '\u{3000}',
    ];
    for c in '\0'..=char::MAX {
        let blank = trim_text(&c.to_string()).is_empty();
        assert_eq!(blank, listed.contains(&c), "{:?}", c);
    }
}

#[test]
fn trims_both_ends_only() {
    assert_eq!(trim_text(" \t a b \n"), "a b");
    assert_eq!(trim_text(" \u{3000}\n"), "");
    assert_eq!(trim_text(""), "");
    assert_eq!(trim_text("\u{200b}x"), "\u{200b}x");
}

#[test]
fn trimming_again_changes_nothing() {
    let once = trim_text("  \u{a0}one two\u{2029} ");
    assert_eq!(once, "one two");
    assert_eq!(trim_text(&once), once);
}

#[test]
fn same_text_compares_all_characters() {
    assert!(same_text("", ""));
    assert!(same_text("h\u{e9}", "h\u{e9}"));
    assert!(!same_text("ab", "abc"));
    assert!(!same_text("abc", "abd"));
}

#[test]
fn contains_text_finds_any_place() {
    assert!(contains_text("zoom.us", "zoom"));
    assert!(contains_text("my zoom", "zoom"));
    assert!(contains_text("abc", ""));
    assert!(contains_text("", ""));
    assert!(contains_text("aab", "ab"));
    assert!(!contains_text("zo om", "zoom"));
    assert!(!contains_text("a", "ab"));
}

#[test]
fn starts_with_text_looks_at_the_front() {
    assert!(starts_with_text("meeting-1", "meeting"));
    assert!(starts_with_text("x", ""));
    assert!(!starts_with_text("a-meeting", "meeting"));
    assert!(!starts_with_text("me", "meet"));
}

#[test]
fn pieces_stand_where_they_stand() {
    let hay = chars_of("abcab");
    let needle = chars_of("ab");
    assert!(piece_at(&hay, 0, &needle));
    assert!(!piece_at(&hay, 1, &needle));
    assert!(piece_at(&hay, 3, &needle));
    assert_eq!(string_of(&hay, 1, 4), "bca");
}

#[test]
fn snippets_are_clipped_with_an_ellipsis() {
    assert_eq!(snippet("hello", 5), "hello");
    assert_eq!(snippet("hello", 4), "hell\u{2026}");
    assert_eq!(snippet("\u{e9}\u{e8}\u{ea}", 2), "\u{e9}\u{e8}\u{2026}");
    assert_eq!(snippet("x", 0), "\u{2026}");
    assert_eq!(snippet("", 0), "");
    assert_eq!(snippet("a long text", 3).chars().count(), 4);
}

#[test]
fn first_chars_cuts_without_a_mark() {
    assert_eq!(first_chars("hello", 4), "hell");
    assert_eq!(first_chars("hello", 9), "hello");
    assert_eq!(first_chars("\u{1f600}x", 1), "\u{1f600}");
}

#[test]
fn words_and_tokens_are_runs() {
    assert_eq!(split_runs("  one\t two\u{a0}three ", RunOf::Words), strings(&["one", "two", "three"]));
    assert_eq!(split_runs("it's 9am, ok?", RunOf::TokenChars), strings(&["it's", "9am", "ok"]));
    assert_eq!(split_runs(" ,; ", RunOf::TokenChars), Vec::<String>::new());
    assert_eq!(split_runs("caf\u{e9}s", RunOf::TokenChars), strings(&["caf", "s"]));
    assert_eq!(split_runs("", RunOf::Words), Vec::<String>::new());
}

#[test]
fn runs_hold_what_is_kept_and_nothing_else() {
    let text = "a-b  c'd!";
    let runs = split_runs(text, RunOf::TokenChars);
    let kept: String = text.chars().filter(|c| c.is_ascii_alphanumeric() || *c == '\'').collect();
    assert_eq!(runs.concat(), kept);
    assert!(runs.iter().all(|r| !r.is_empty()));
}

#[test]
fn lines_are_what_line_feeds_part() {
    assert_eq!(split_lines("a\n\nb\n"), strings(&["a", "", "b", ""]));
    assert_eq!(split_lines(""), strings(&[""]));
    assert_eq!(split_lines("a\r\nb"), strings(&["a\r", "b"]));
}

#[test]
fn lines_joined_back_give_the_text() {
    let text = "one\n\n three\n";
    assert_eq!(join_texts(&split_lines(text), "\n"), text);
}

#[test]
fn joining_puts_the_separator_between() {
    assert_eq!(join_texts(&strings(&["a", "b", "c"]), ", "), "a, b, c");
    assert_eq!(join_texts(&strings(&["", ""]), "-"), "-");
    assert_eq!(join_texts(&strings(&["a"]), "-"), "a");
    assert_eq!(join_texts(&Vec::new(), "-"), "");
    let parts = strings(&["x", "yy", "z"]);
    let all = join_texts(&parts, "::");
    assert!(parts.iter().all(|p| contains_text(&all, p)));
}

#[test]
fn distinct_texts_keeps_the_first_of_each() {
    assert_eq!(distinct_texts(&strings(&["b", "a", "b", "c", "a"])), strings(&["b", "a", "c"]));
    assert_eq!(distinct_texts(&Vec::new()), Vec::<String>::new());
}

#[test]
fn decimal_text_writes_numbers() {
    assert_eq!(decimal_text(0), "0");
    assert_eq!(decimal_text(9), "9");
    assert_eq!(decimal_text(10), "10");
    assert_eq!(decimal_text(1230), "1230");
    assert_eq!(decimal_text(u64::MAX), "18446744073709551615");
}
