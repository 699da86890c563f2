use sheet_upsert::merge::{composite_pk, merge_rows};
use sheet_upsert::record::{row_has_value, Row, Scalar};

fn text(s: &str) -> Scalar {
    Scalar::Text(s.to_string())
}

fn number(s: &str) -> Scalar {
    Scalar::Number(s.to_string())
}

fn row(fields: &[(&str, Scalar)]) -> Row {
    let mut r = Row::new();
    for (name, value) in fields.iter() {
        r.insert(name.to_string(), value.clone());
    }
    r
}

fn keys(list: &[&str]) -> Vec<String> {
    list.iter().map(|s| s.to_string()).collect()
}

#[test]
fn row_insert_replaces_the_value_under_a_name() {
    let mut r = Row::new();
    assert_eq!(r.len(), 0);
    r.insert("a".to_string(), number("1"));
    r.insert("b".to_string(), Scalar::Null);
    r.insert("a".to_string(), text("x"));
    assert_eq!(r.len(), 2);
    assert_eq!(r.get("a"), Some(&text("x")));
    assert_eq!(r.get("b"), Some(&Scalar::Null));
    assert_eq!(r.get("c"), None);
    assert!(r.contains_key("b"));
    assert!(!r.contains_key("c"));
    assert_eq!(r.name_at(0), "a");
    assert_eq!(r.value_at(1), &Scalar::Null);
}

#[test]
fn scalar_string_forms() {
    assert_eq!(Scalar::Null.canonical(), "");
    assert_eq!(Scalar::Bool(true).canonical(), "true");
    assert_eq!(Scalar::Bool(false).canonical(), "false");
    assert_eq!(number("-1.5").canonical(), "-1.5");
    assert_eq!(text("a b").canonical(), "a b");
    assert!(Scalar::Null.is_null());
    assert!(!text("").is_null());
}

#[test]
fn a_row_has_a_value_when_some_field_is_not_null() {
    assert!(!row_has_value(&row(&[])));
    assert!(!row_has_value(&row(&[("a", Scalar::Null), ("b", Scalar::Null)])));
    assert!(row_has_value(&row(&[("a", Scalar::Null), ("b", text(""))])));
}

#[test]
fn key_joins_the_string_forms_with_the_unit_separator() {
    let r = row(&[("id", number("7")), ("ok", Scalar::Bool(true)), ("name", text("a"))]);
    assert_eq!(composite_pk(&r, &keys(&["id"])), Some("7".to_string()));
    assert_eq!(
        composite_pk(&r, &keys(&["id", "ok", "name"])),
        Some("7\u{1F}true\u{1F}a".to_string())
    );
    assert_eq!(composite_pk(&r, &keys(&["name", "id"])), Some("a\u{1F}7".to_string()));
}

#[test]
fn key_is_undefined_without_key_fields() {
    let r = row(&[("id", number("7"))]);
    assert_eq!(composite_pk(&r, &[]), None);
    assert_eq!(composite_pk(&row(&[]), &[]), None);
}

#[test]
fn key_is_undefined_when_a_key_field_is_absent_or_null() {
    let r = row(&[("id", number("7")), ("gone", Scalar::Null)]);
    assert_eq!(composite_pk(&r, &keys(&["id", "other"])), None);
    assert_eq!(composite_pk(&r, &keys(&["id", "gone"])), None);
    assert_eq!(composite_pk(&r, &keys(&["gone"])), None);
}

#[test]
fn an_empty_string_is_a_key_value() {
    let r = row(&[("id", text(""))]);
    assert_eq!(composite_pk(&r, &keys(&["id"])), Some("".to_string()));
}

#[test]
fn equal_key_values_give_equal_keys() {
    let a = row(&[("id", number("1")), ("x", text("p"))]);
    let b = row(&[("x", text("q")), ("id", number("1"))]);
    assert_eq!(composite_pk(&a, &keys(&["id"])), composite_pk(&b, &keys(&["id"])));
    // a number and the string of its digits have the same string form
    let c = row(&[("id", text("1"))]);
    assert_eq!(composite_pk(&a, &keys(&["id"])), composite_pk(&c, &keys(&["id"])));
}

#[test]
fn rerun_with_the_same_key_overwrites() {
    let kf = keys(&["id"]);
    let first = merge_rows(Vec::new(), vec![row(&[("id", number("1")), ("name", text("a"))])], &kf);
    assert_eq!(first.len(), 1);
    assert_eq!(first[0].get("name"), Some(&text("a")));
    let second = merge_rows(first, vec![row(&[("id", number("1")), ("name", text("b"))])], &kf);
    assert_eq!(second.len(), 1);
    assert_eq!(second[0].get("name"), Some(&text("b")));
    assert_eq!(second[0].get("id"), Some(&number("1")));
}

#[test]
fn without_key_every_run_appends() {
    let first = merge_rows(Vec::new(), vec![row(&[("id", number("1"))])], &[]);
    assert_eq!(first.len(), 1);
    let second = merge_rows(first, vec![row(&[("id", number("1"))])], &[]);
    assert_eq!(second.len(), 2);
    assert_eq!(second[0].get("id"), Some(&number("1")));
    assert_eq!(second[1].get("id"), Some(&number("1")));
}

#[test]
fn a_match_keeps_the_position_and_replaces_the_whole_row() {
    let kf = keys(&["id"]);
    let prior = vec![
        row(&[("id", text("1")), ("note", text("keep me"))]),
        row(&[("id", text("2")), ("note", text("old")), ("extra", text("e"))]),
        row(&[("id", text("3"))]),
    ];
    let merged = merge_rows(prior, vec![row(&[("id", text("2")), ("note", text("new"))])], &kf);
    assert_eq!(merged.len(), 3);
    assert_eq!(merged[0].get("note"), Some(&text("keep me")));
    assert_eq!(merged[1].get("note"), Some(&text("new")));
    // a field that the record does not repeat is gone
    assert_eq!(merged[1].get("extra"), None);
    assert_eq!(merged[1].len(), 2);
    assert_eq!(merged[2].get("id"), Some(&text("3")));
}

#[test]
fn unseen_keys_are_appended_in_arrival_order() {
    let kf = keys(&["id"]);
    let prior = vec![row(&[("id", text("1"))])];
    let records = vec![
        row(&[("id", text("9"))]),
        row(&[("id", text("5"))]),
        row(&[("id", text("1")), ("v", text("u"))]),
    ];
    let merged = merge_rows(prior, records, &kf);
    assert_eq!(merged.len(), 3);
    assert_eq!(merged[0].get("v"), Some(&text("u")));
    assert_eq!(merged[1].get("id"), Some(&text("9")));
    assert_eq!(merged[2].get("id"), Some(&text("5")));
}

#[test]
fn of_two_records_with_one_key_the_later_wins() {
    let kf = keys(&["id"]);
    let records = vec![
        row(&[("id", text("1")), ("v", text("first"))]),
        row(&[("id", text("2")), ("v", text("other"))]),
        row(&[("id", text("1")), ("v", text("second"))]),
    ];
    let merged = merge_rows(Vec::new(), records, &kf);
    assert_eq!(merged.len(), 2);
    assert_eq!(merged[0].get("v"), Some(&text("second")));
    assert_eq!(merged[1].get("v"), Some(&text("other")));
}

#[test]
fn records_without_a_key_are_appended_and_never_matched() {
    let kf = keys(&["id"]);
    let prior = vec![row(&[("name", text("no id"))]), row(&[("id", Scalar::Null)])];
    let records = vec![
        row(&[("name", text("no id"))]),
        row(&[("id", Scalar::Null)]),
        row(&[("name", text("no id"))]),
    ];
    let merged = merge_rows(prior, records, &kf);
    assert_eq!(merged.len(), 5);
}

#[test]
fn of_prior_rows_with_one_key_the_last_is_replaced() {
    let kf = keys(&["id"]);
    let prior = vec![
        row(&[("id", text("1")), ("v", text("a"))]),
        row(&[("id", text("1")), ("v", text("b"))]),
    ];
    let merged = merge_rows(prior, vec![row(&[("id", text("1")), ("v", text("c"))])], &kf);
    assert_eq!(merged.len(), 2);
    assert_eq!(merged[0].get("v"), Some(&text("a")));
    assert_eq!(merged[1].get("v"), Some(&text("c")));
}

#[test]
fn composite_keys_match_on_all_fields() {
    let kf = keys(&["a", "b"]);
    let prior = vec![row(&[("a", text("1")), ("b", text("x"))])];
    let records = vec![
        row(&[("a", text("1")), ("b", text("y"))]),
        row(&[("a", text("1")), ("b", text("x")), ("v", text("hit"))]),
    ];
    let merged = merge_rows(prior, records, &kf);
    assert_eq!(merged.len(), 2);
    assert_eq!(merged[0].get("v"), Some(&text("hit")));
    assert_eq!(merged[1].get("b"), Some(&text("y")));
}

#[test]
fn a_prior_row_read_back_as_text_matches_a_numeric_record() {
    // rows of an existing sheet hold strings only
    let kf = keys(&["id"]);
    let prior = vec![row(&[("id", text("42")), ("v", text("old"))])];
    let merged = merge_rows(prior, vec![row(&[("id", number("42")), ("v", text("new"))])], &kf);
    assert_eq!(merged.len(), 1);
    assert_eq!(merged[0].get("id"), Some(&number("42")));
}

#[test]
fn merging_the_same_keyed_records_again_changes_nothing() {
    let kf = keys(&["id"]);
    let batch = || {
        vec![
            row(&[("id", text("2")), ("v", text("x"))]),
            row(&[("id", text("7")), ("v", text("y"))]),
            row(&[("id", text("2")), ("v", text("z"))]),
        ]
    };
    let prior = vec![row(&[("id", text("1"))]), row(&[("id", text("2")), ("v", text("old"))])];
    let once = merge_rows(prior, batch(), &kf);
    let shape: Vec<(Option<Scalar>, Option<Scalar>)> =
        once.iter().map(|r| (r.get("id").cloned(), r.get("v").cloned())).collect();
    let twice = merge_rows(once, batch(), &kf);
    let again: Vec<(Option<Scalar>, Option<Scalar>)> =
        twice.iter().map(|r| (r.get("id").cloned(), r.get("v").cloned())).collect();
    assert_eq!(shape, again);
    assert_eq!(
        again,
        vec![
            (Some(text("1")), None),
            (Some(text("2")), Some(text("z"))),
            (Some(text("7")), Some(text("y"))),
        ]
    );
}

#[test]
fn merging_nothing_keeps_the_prior_rows() {
    let kf = keys(&["id"]);
    let prior = vec![row(&[("id", text("1"))]), row(&[("id", text("2"))])];
    let merged = merge_rows(prior, Vec::new(), &kf);
    assert_eq!(merged.len(), 2);
    assert_eq!(merged[0].get("id"), Some(&text("1")));
    assert_eq!(merged[1].get("id"), Some(&text("2")));
    assert_eq!(merge_rows(Vec::new(), Vec::new(), &kf).len(), 0);
}
