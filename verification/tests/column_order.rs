use sheet_upsert::columns::{
    add_exact, add_regex, add_rest, add_substr, column_universe, push_each_unique, push_unique,
    resolve_columns, ColumnList,
};
use sheet_upsert::policy::{
    check_policy, is_allowed, name_in, ColumnPolicy, InvalidPattern, PatternList, RestMode,
};
use sheet_upsert::fields::{field_union, insert_ordered};
use sheet_upsert::pattern::{anchor, check_pattern, matches_fully, try_match};
use sheet_upsert::record::{Row, Scalar};

fn names(list: &[&str]) -> Vec<String> {
    list.iter().map(|s| s.to_string()).collect()
}

fn policy() -> ColumnPolicy {
    ColumnPolicy {
        key_fields: Vec::new(),
        pin_first: true,
        include_given: false,
        include_exact: Vec::new(),
        include_regex: Vec::new(),
        include_substr: Vec::new(),
        order_exact: Vec::new(),
        order_regex: Vec::new(),
        order_substr: Vec::new(),
        rest: RestMode::ExistingOrder,
    }
}

fn list(start: &[&str]) -> ColumnList {
    let mut cols = ColumnList::new();
    push_each_unique(&mut cols, &names(start));
    cols
}

fn row_with(fields: &[&str]) -> Row {
    let mut r = Row::new();
    for name in fields.iter() {
        r.insert(name.to_string(), Scalar::Null);
    }
    r
}

#[test]
fn patterns_match_whole_names_only() {
    assert_eq!(try_match("a.c", "abc"), Ok(true));
    assert_eq!(try_match("a.c", "xabc"), Ok(false));
    assert_eq!(try_match("a.c", "abcx"), Ok(false));
    assert_eq!(try_match("a|b", "b"), Ok(true));
    assert_eq!(try_match("a|b", "ab"), Ok(false));
    assert_eq!(try_match("", ""), Ok(true));
    assert_eq!(try_match("", "x"), Ok(false));
    assert!(matches_fully("comments\\.\\d+\\..*", "comments.12.text"));
    assert!(!matches_fully("comments\\.\\d+\\..*", "comment.12.text"));
    assert_eq!(anchor("a|b"), "^(?:a|b)$");
}

#[test]
fn invalid_patterns_are_refused_with_the_matcher_s_words() {
    assert_eq!(check_pattern("ok.*"), Ok(()));
    let refused = check_pattern("(");
    assert!(refused.is_err());
    assert!(!refused.unwrap_err().is_empty());
    assert!(try_match("a(", "a(").is_err());
    assert!(try_match("[", "").is_err());
}

#[test]
fn push_unique_adds_a_name_once() {
    let mut cols = ColumnList::new();
    assert_eq!(cols.len(), 0);
    push_unique(&mut cols, "a".to_string());
    push_unique(&mut cols, "b".to_string());
    push_unique(&mut cols, "a".to_string());
    push_unique(&mut cols, "b".to_string());
    assert_eq!(cols.names(), &names(&["a", "b"]));
    push_each_unique(&mut cols, &names(&["c", "a", "c", "d"]));
    assert_eq!(cols.names(), &names(&["a", "b", "c", "d"]));
    assert_eq!(cols.len(), 4);
    assert!(cols.contains("c"));
    assert!(!cols.contains("e"));
    assert!(!cols.contains(""));
    assert!(name_in(cols.names(), &"c".to_string()));
    assert!(!name_in(cols.names(), &"e".to_string()));
    assert_eq!(cols.into_names(), names(&["a", "b", "c", "d"]));
}

#[test]
fn without_inclusion_options_every_name_is_allowed() {
    let p = policy();
    assert!(is_allowed(&p, &"anything".to_string()));
    assert!(is_allowed(&p, &"".to_string()));
}

#[test]
fn inclusion_allows_by_exact_name_pattern_or_substring() {
    let mut p = policy();
    p.key_fields = names(&["sku"]);
    p.include_exact = names(&["id"]);
    p.include_regex = names(&["n\\d+"]);
    p.include_substr = names(&["addr"]);
    assert!(is_allowed(&p, &"id".to_string()));
    assert!(is_allowed(&p, &"n42".to_string()));
    assert!(is_allowed(&p, &"home_address".to_string()));
    assert!(is_allowed(&p, &"sku".to_string()));
    assert!(!is_allowed(&p, &"notes".to_string()));
    assert!(!is_allowed(&p, &"xn42".to_string()));
    assert!(!is_allowed(&p, &"ID".to_string()));
}

#[test]
fn an_empty_inclusion_option_still_filters() {
    let mut p = policy();
    p.include_given = true;
    p.key_fields = names(&["id"]);
    assert!(is_allowed(&p, &"id".to_string()));
    assert!(!is_allowed(&p, &"name".to_string()));
    let cols = resolve_columns(&names(&["name"]), &names(&["id", "name", "x"]), &p).unwrap();
    assert_eq!(cols, names(&["id"]));
}

#[test]
fn keys_are_exempt_from_inclusion_filters() {
    let mut p = policy();
    p.key_fields = names(&["sku"]);
    p.include_exact = names(&["id"]);
    let cols = resolve_columns(&[], &names(&["id", "notes", "sku"]), &p).unwrap();
    assert_eq!(cols, names(&["sku", "id"]));
    assert!(cols.contains(&"id".to_string()));
    assert!(cols.contains(&"sku".to_string()));
    assert!(!cols.contains(&"notes".to_string()));
}

#[test]
fn keys_are_kept_even_when_no_row_has_them() {
    let mut p = policy();
    p.key_fields = names(&["k1", "k2"]);
    p.include_exact = names(&["a"]);
    let cols = resolve_columns(&[], &names(&["a", "b"]), &p).unwrap();
    assert_eq!(cols, names(&["k1", "k2", "a"]));
    p.pin_first = false;
    let cols = resolve_columns(&[], &names(&["a", "b"]), &p).unwrap();
    assert_eq!(cols, names(&["a", "k1", "k2"]));
}

#[test]
fn alphabetical_remainder_is_in_natural_order() {
    let mut p = policy();
    p.rest = RestMode::AlphabeticalNatural;
    // the prior headers give the universe an order of their own
    let cols = resolve_columns(&names(&["b", "a10", "a2"]), &names(&["a10", "a2", "b"]), &p).unwrap();
    assert_eq!(cols, names(&["a2", "a10", "b"]));
}

#[test]
fn existing_order_remainder_follows_the_universe() {
    let p = policy();
    let cols = resolve_columns(
        &names(&["b", "a10", "a2"]),
        &names(&["a10", "a2", "a3", "b", "c"]),
        &p,
    )
    .unwrap();
    assert_eq!(cols, names(&["b", "a10", "a2", "a3", "c"]));
}

#[test]
fn dropped_remainder_leaves_only_placed_names() {
    let mut p = policy();
    p.rest = RestMode::Drop;
    p.key_fields = names(&["id"]);
    p.order_exact = names(&["name"]);
    let cols = resolve_columns(&names(&["x"]), &names(&["id", "name", "x", "y"]), &p).unwrap();
    assert_eq!(cols, names(&["id", "name"]));
}

#[test]
fn universe_is_headers_then_new_fields_in_natural_order() {
    let mut p = policy();
    p.key_fields = names(&["id"]);
    let u = column_universe(
        &names(&["z", " ", "id", "", "m", "z"]),
        &names(&["a10", "a2", "id", "m", "z"]),
        &p,
    );
    assert_eq!(u, names(&["z", "m", "z", "a2", "a10"]));
}

#[test]
fn blank_headers_are_discarded() {
    let p = policy();
    let cols = resolve_columns(&names(&["a", "", "  ", "\t", "b"]), &[], &p).unwrap();
    assert_eq!(cols, names(&["a", "b"]));
}

#[test]
fn a_blank_field_name_is_a_column_like_any_other() {
    let p = policy();
    let cols = resolve_columns(&[], &names(&["", "a"]), &p).unwrap();
    assert_eq!(cols, names(&["", "a"]));
}

#[test]
fn stages_apply_in_fixed_precedence() {
    let mut p = policy();
    p.key_fields = names(&["id"]);
    p.order_exact = names(&["title", "missing"]);
    p.order_regex = names(&["c\\d+", "b.*"]);
    p.order_substr = names(&["at", "x"]);
    p.rest = RestMode::AlphabeticalNatural;
    let headers = names(&["date", "c10", "b1", "title"]);
    let fields = names(&["b1", "c10", "c2", "date", "id", "k9", "k10", "lat", "title", "xy"]);
    let cols = resolve_columns(&headers, &fields, &p).unwrap();
    assert_eq!(
        cols,
        names(&["id", "title", "missing", "c10", "c2", "b1", "date", "lat", "xy", "k9", "k10"])
    );
}

#[test]
fn unpinned_keys_come_last() {
    let mut p = policy();
    p.key_fields = names(&["id", "sku"]);
    p.pin_first = false;
    let cols = resolve_columns(&names(&["name", "id"]), &names(&["id", "name", "sku"]), &p).unwrap();
    assert_eq!(cols, names(&["name", "id", "sku"]));
}

#[test]
fn an_unpinned_key_named_in_the_order_list_stands_where_the_list_puts_it() {
    let mut p = policy();
    p.key_fields = names(&["id", "sku"]);
    p.pin_first = false;
    p.order_exact = names(&["sku", "name"]);
    let cols = resolve_columns(&[], &names(&["id", "name", "sku"]), &p).unwrap();
    assert_eq!(cols, names(&["sku", "name", "id"]));
}

#[test]
fn the_final_list_never_repeats_a_name() {
    let mut p = policy();
    p.key_fields = names(&["id", "id", "sku"]);
    p.order_exact = names(&["a", "id", "a"]);
    p.order_regex = names(&["a.*", ".*"]);
    p.order_substr = names(&["a", ""]);
    let headers = names(&["a", "ab", "a", "id"]);
    let fields = names(&["a", "ab", "b", "id", "sku"]);
    for rest in [RestMode::ExistingOrder, RestMode::AlphabeticalNatural, RestMode::Drop] {
        for pin in [true, false] {
            p.rest = rest;
            p.pin_first = pin;
            let cols = resolve_columns(&headers, &fields, &p).unwrap();
            let mut seen = cols.clone();
            seen.sort();
            seen.dedup();
            assert_eq!(seen.len(), cols.len());
            assert!(cols.contains(&"id".to_string()));
            assert!(cols.contains(&"sku".to_string()));
        }
    }
}

#[test]
fn order_list_names_are_filtered_by_inclusion() {
    let mut p = policy();
    p.include_exact = names(&["a"]);
    p.order_exact = names(&["b", "a"]);
    let cols = resolve_columns(&[], &names(&["a", "b"]), &p).unwrap();
    assert_eq!(cols, names(&["a"]));
}

#[test]
fn stage_functions_add_in_order_and_skip_what_is_placed() {
    let mut p = policy();
    p.include_substr = names(&["a"]);
    let mut cols = list(&["ka"]);
    add_exact(&mut cols, &names(&["za", "b", "ka", "ya"]), &p);
    assert_eq!(cols.names(), &names(&["ka", "za", "ya"]));

    let universe = names(&["n1", "m1", "n2", "x"]);
    let mut cols = list(&["n2"]);
    add_regex(&mut cols, &universe, &names(&["m\\d", "n\\d"]));
    assert_eq!(cols.names(), &names(&["n2", "m1", "n1"]));

    let mut cols = ColumnList::new();
    add_substr(&mut cols, &universe, &names(&["2", "1"]));
    assert_eq!(cols.names(), &names(&["n2", "n1", "m1"]));

    let mut cols = list(&["x"]);
    add_rest(&mut cols, &names(&["b", "a10", "x", "a2"]), RestMode::ExistingOrder);
    assert_eq!(cols.names(), &names(&["x", "b", "a10", "a2"]));
    let mut cols = list(&["x"]);
    add_rest(&mut cols, &names(&["b", "a10", "x", "a2"]), RestMode::AlphabeticalNatural);
    assert_eq!(cols.names(), &names(&["x", "a2", "a10", "b"]));
    let mut cols = list(&["x"]);
    add_rest(&mut cols, &names(&["b", "a10", "x", "a2"]), RestMode::Drop);
    assert_eq!(cols.names(), &names(&["x"]));
}

fn matcher_words(pattern: &str) -> String {
    regex::Regex::new(&format!("^(?:{})$", pattern)).unwrap_err().to_string()
}

#[test]
fn an_invalid_pattern_fails_the_resolution() {
    let mut p = policy();
    p.order_regex = names(&["ok", "(", "["]);
    let err = resolve_columns(&[], &names(&["a"]), &p).unwrap_err();
    assert_eq!(
        err,
        InvalidPattern {
            list: PatternList::Order,
            position: 1,
            pattern: "(".to_string(),
            detail: matcher_words("("),
        }
    );
    assert!(!err.detail.is_empty());
    // inclusion patterns are checked before order patterns
    p.include_regex = names(&["fine", "*", "("]);
    let err = check_policy(&p).unwrap_err();
    assert_eq!(
        err,
        InvalidPattern {
            list: PatternList::Include,
            position: 1,
            pattern: "*".to_string(),
            detail: matcher_words("*"),
        }
    );
    p.include_regex = Vec::new();
    p.order_regex = names(&["ok"]);
    assert_eq!(check_policy(&p), Ok(()));
}

#[test]
fn a_refused_pattern_comes_with_the_matcher_s_words() {
    for pattern in ["(", "[", "a{2,1}", "\\", "(?P<n>a)(?P<n>b)"] {
        assert_eq!(check_pattern(pattern), Err(matcher_words(pattern)));
        assert_eq!(try_match(pattern, "a"), Err(matcher_words(pattern)));
    }
}

#[test]
fn field_union_lists_every_name_once_in_lexical_order() {
    let rows = vec![row_with(&["b", "a10"]), row_with(&[]), row_with(&["a2", "b", "B", ""])];
    assert_eq!(field_union(&rows), names(&["", "B", "a10", "a2", "b"]));
    assert_eq!(field_union(&[]), Vec::<String>::new());
}

#[test]
fn insert_ordered_keeps_order_and_uniqueness() {
    let mut list = names(&["b", "d"]);
    insert_ordered(&mut list, &"c".to_string());
    insert_ordered(&mut list, &"a".to_string());
    insert_ordered(&mut list, &"e".to_string());
    insert_ordered(&mut list, &"c".to_string());
    insert_ordered(&mut list, &"ba".to_string());
    assert_eq!(list, names(&["a", "b", "ba", "c", "d", "e"]));
}

#[test]
fn names_equal_in_natural_order_follow_in_lexical_order() {
    // "a01" and "a1" compare equal; the field names arrive in lexical order
    let p = policy();
    let rows = vec![row_with(&["a1", "a01", "a001"])];
    let cols = resolve_columns(&[], &field_union(&rows), &p).unwrap();
    assert_eq!(cols, names(&["a001", "a01", "a1"]));
}
