use sheet_upsert::args::{add_links, get_arg_value, has_flag};
use sheet_upsert::text::{
    chars_of, contains_text, is_blank_text, is_space, same_text, split_csv, split_once_eq, text_of,
    trim_text, xl_quote_escape,
};
use sheet_upsert::writeback::HyperlinkMap;

fn words(list: &[&str]) -> Vec<String> {
    list.iter().map(|s| s.to_string()).collect()
}

#[test]
fn quote_escape_doubles_quotes() {
    assert_eq!(xl_quote_escape("say \"hi\""), "say \"\"hi\"\"");
    assert_eq!(xl_quote_escape("plain"), "plain");
    assert_eq!(xl_quote_escape(""), "");
    assert_eq!(xl_quote_escape("\""), "\"\"");
}

#[test]
fn chars_and_text_round_trip() {
    let chars = chars_of("héllo");
    assert_eq!(chars, vec!['h', 'é', 'l', 'l', 'o']);
    assert_eq!(text_of(&chars, 0, 5), "héllo");
    assert_eq!(text_of(&chars, 1, 3), "él");
    assert_eq!(text_of(&chars, 2, 2), "");
}

#[test]
fn same_text_compares_contents() {
    assert!(same_text("abc", "abc"));
    assert!(!same_text("abc", "abd"));
    assert!(!same_text("abc", "ab"));
}

#[test]
fn white_space_is_what_trim_removes() {
    for c in [' ', '\t', '\n', '\r', '\u{0B}', '\u{0C}', '\u{85}', '\u{A0}', '\u{1680}', '\u{2003}', '\u{2028}', '\u{2029}', '\u{202F}', '\u{205F}', '\u{3000}'] {
        assert!(is_space(c));
        assert!(c.is_whitespace());
    }
    for c in ['a', '0', '_', '\u{200B}', '\u{1F}', '\u{2060}'] {
        assert!(!is_space(c));
        assert!(!c.is_whitespace());
    }
}

#[test]
fn white_space_agrees_with_std_everywhere() {
    let mut code: u32 = 0;
    while code <= 0x10FFFF {
        if let Some(c) = char::from_u32(code) {
            assert_eq!(is_space(c), c.is_whitespace());
        }
        code += 1;
    }
}

#[test]
fn trim_removes_both_ends_only() {
    assert_eq!(trim_text("  a b \t\n"), "a b");
    assert_eq!(trim_text("a"), "a");
    assert_eq!(trim_text(" \u{3000} "), "");
    assert_eq!(trim_text(""), "");
    assert!(is_blank_text(" \t "));
    assert!(is_blank_text(""));
    assert!(!is_blank_text(" x "));
}

#[test]
fn contains_text_finds_substrings() {
    assert!(contains_text("comments.10.text", ".10."));
    assert!(contains_text("abc", "abc"));
    assert!(contains_text("abc", "c"));
    assert!(contains_text("abc", ""));
    assert!(contains_text("", ""));
    assert!(!contains_text("abc", "abcd"));
    assert!(!contains_text("abc", "ca"));
    assert!(!contains_text("", "a"));
    assert!(contains_text("aab", "ab"));
}

#[test]
fn split_csv_trims_and_drops_empty_entries() {
    assert_eq!(split_csv("a, b ,,c"), words(&["a", "b", "c"]));
    assert_eq!(split_csv(""), Vec::<String>::new());
    assert_eq!(split_csv(" , ,"), Vec::<String>::new());
    assert_eq!(split_csv("one"), words(&["one"]));
    assert_eq!(split_csv("a b,c"), words(&["a b", "c"]));
}

#[test]
fn split_once_eq_splits_at_the_first_equals_sign() {
    assert_eq!(split_once_eq("id = https://x/?a=b "), Some(("id", "https://x/?a=b")));
    assert_eq!(split_once_eq("k=v"), Some(("k", "v")));
    assert_eq!(split_once_eq("k="), Some(("k", "")));
    assert_eq!(split_once_eq("=v"), Some(("", "v")));
    assert_eq!(split_once_eq("novalue"), None);
    assert_eq!(split_once_eq(""), None);
}

#[test]
fn has_flag_looks_for_the_exact_word() {
    let args = words(&["prog", "--ndjson", "--out", "a.xlsx"]);
    assert!(has_flag(&args, "--ndjson"));
    assert!(has_flag(&args, "--out"));
    assert!(!has_flag(&args, "--array"));
    assert!(!has_flag(&args, "--nd"));
    assert!(!has_flag(&[], "--x"));
}

#[test]
fn get_arg_value_takes_the_word_after_the_first_occurrence() {
    let args = words(&["prog", "--out", "a.xlsx", "--out", "b.xlsx", "--sheet"]);
    assert_eq!(get_arg_value(&args, "--out"), Some("a.xlsx".to_string()));
    assert_eq!(get_arg_value(&args, "--sheet"), None);
    assert_eq!(get_arg_value(&args, "--pk"), None);
    assert_eq!(get_arg_value(&args, "prog"), Some("--out".to_string()));
}

#[test]
fn get_arg_value_only_looks_at_the_first_occurrence() {
    // the flag first stands last, where no word follows: a later one is not looked for
    let args = words(&["--k"]);
    assert_eq!(get_arg_value(&args, "--k"), None);
    let args = words(&["a", "--k", "--k", "v"]);
    assert_eq!(get_arg_value(&args, "--k"), Some("--k".to_string()));
}

#[test]
fn add_links_applies_well_formed_entries_and_returns_the_others() {
    let mut links: HyperlinkMap = HyperlinkMap::new();
    links.insert("id".to_string(), "https://old/".to_string());
    let skipped = add_links(&mut links, "id=https://x/, broken ,url = https://y/?q=1");
    assert_eq!(skipped, words(&["broken"]));
    assert_eq!(links.get("id"), Some(&"https://x/".to_string()));
    assert_eq!(links.get("url"), Some(&"https://y/?q=1".to_string()));
    assert_eq!(links.get("broken"), None);
    assert_eq!(links.len(), 2);
}
