use sheet_upsert::policy::{ColumnPolicy, RestMode};
use sheet_upsert::fields::field_union;
use sheet_upsert::grid::rows_from_grid;
use sheet_upsert::json::{effective_mode, parse_json_array, parse_records, InputMode};
use sheet_upsert::merge::merge_rows;
use sheet_upsert::record::Scalar;
use sheet_upsert::update::plan_update;
use sheet_upsert::writeback::{CellContent, CellWrite, HyperlinkMap};

fn names(list: &[&str]) -> Vec<String> {
    list.iter().map(|s| s.to_string()).collect()
}

fn policy(key: &[&str]) -> ColumnPolicy {
    ColumnPolicy {
        key_fields: names(key),
        pin_first: true,
        include_given: false,
        include_exact: Vec::new(),
        include_regex: Vec::new(),
        include_substr: Vec::new(),
        order_exact: Vec::new(),
        order_regex: Vec::new(),
        order_substr: Vec::new(),
        rest: RestMode::ExistingOrder,
    }
}

#[test]
fn a_second_run_with_the_same_id_overwrites_the_row() {
    let key = names(&["id"]);
    let first = parse_json_array(r#"[{"id":1,"name":"a"}]"#).unwrap();
    let rows = merge_rows(Vec::new(), first, &key);
    assert_eq!(rows.len(), 1);
    let second = parse_json_array(r#"[{"id":1,"name":"b"}]"#).unwrap();
    let rows = merge_rows(rows, second, &key);
    assert_eq!(rows.len(), 1);
    assert_eq!(rows[0].get("name"), Some(&Scalar::Text("b".to_string())));
}

#[test]
fn two_runs_without_key_leave_two_rows() {
    let first = parse_json_array(r#"[{"id":1}]"#).unwrap();
    let rows = merge_rows(Vec::new(), first, &[]);
    let second = parse_json_array(r#"[{"id":1}]"#).unwrap();
    let rows = merge_rows(rows, second, &[]);
    assert_eq!(rows.len(), 2);
}

#[test]
fn a_run_over_a_sheet_read_back_updates_in_place() {
    // what a first run wrote, as a later run reads it: strings and nulls
    let headers = names(&["id", "name", "seen"]);
    let grid = vec![names(&["1", "a", ""]), names(&["2", "b", "yes"])];
    let prior = rows_from_grid(&headers, &grid);
    let input = "{\"id\":2,\"name\":\"B\"}\n{\"id\":3,\"name\":\"c\",\"extra\":null}\n";
    let mode = effective_mode(input, InputMode::LineDelimited);
    let records = parse_records(input, mode).unwrap();
    let update =
        plan_update(&headers, prior, records, &policy(&["id"]), &HyperlinkMap::new()).unwrap();
    assert_eq!(update.columns, names(&["id", "name", "seen", "extra"]));
    assert_eq!(update.rows.len(), 3);
    assert_eq!(field_union(&update.rows), names(&["extra", "id", "name", "seen"]));
    let text = |s: &str| CellContent::Text(s.to_string());
    let number = |s: &str| CellContent::Number(s.to_string());
    let at = |col, row, content| CellWrite { col, row, content };
    assert_eq!(
        update.writes,
        vec![
            at(1, 1, text("id")),
            at(2, 1, text("name")),
            at(3, 1, text("seen")),
            at(4, 1, text("extra")),
            at(1, 2, text("1")),
            at(2, 2, text("a")),
            at(3, 2, text("")),
            // the matched row is replaced whole: its "seen" cell is not written
            at(1, 3, number("2")),
            at(2, 3, text("B")),
            at(1, 4, number("3")),
            at(2, 4, text("c")),
            at(4, 4, text("")),
        ]
    );
}

#[test]
fn an_included_name_and_an_exempt_key_both_appear() {
    let mut p = policy(&["sku"]);
    p.include_exact = names(&["id"]);
    let records = parse_json_array(r#"[{"id":1,"sku":"s","notes":"n"}]"#).unwrap();
    let update = plan_update(&[], Vec::new(), records, &p, &HyperlinkMap::new()).unwrap();
    assert_eq!(update.columns, names(&["sku", "id"]));
}

#[test]
fn a_linked_id_is_written_as_a_link_and_a_null_as_empty() {
    let mut links = HyperlinkMap::new();
    links.insert("id".to_string(), "https://x/".to_string());
    let records = parse_json_array(r#"[{"id":42},{"id":null}]"#).unwrap();
    let update = plan_update(&[], Vec::new(), records, &policy(&[]), &links).unwrap();
    assert_eq!(
        update.writes,
        vec![
            CellWrite { col: 1, row: 1, content: CellContent::Text("id".to_string()) },
            CellWrite {
                col: 1,
                row: 2,
                content: CellContent::Formula("HYPERLINK(\"https://x/42\",\"42\")".to_string()),
            },
            CellWrite { col: 1, row: 3, content: CellContent::Text(String::new()) },
        ]
    );
}
