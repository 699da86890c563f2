use sheet_upsert::grid::{row_from_line, rows_from_grid};
use serde_json::{Number, Value};
use sheet_upsert::json::{
    effective_mode, object_to_rowmap, parse_json_array, parse_ndjson, parse_records,
    records_from_value, value_to_rowmap, InputError, InputMode,
};
use sheet_upsert::record::Scalar;

fn text(s: &str) -> Scalar {
    Scalar::Text(s.to_string())
}

fn number(s: &str) -> Scalar {
    Scalar::Number(s.to_string())
}

fn cells(list: &[&str]) -> Vec<String> {
    list.iter().map(|s| s.to_string()).collect()
}

#[test]
fn array_of_objects_gives_one_record_each_in_order() {
    let rows = parse_json_array(r#"[{"id":1,"name":"a"},{"id":2},{}]"#).unwrap();
    assert_eq!(rows.len(), 3);
    assert_eq!(rows[0].get("id"), Some(&number("1")));
    assert_eq!(rows[0].get("name"), Some(&text("a")));
    assert_eq!(rows[0].len(), 2);
    assert_eq!(rows[1].get("id"), Some(&number("2")));
    assert_eq!(rows[1].get("name"), None);
    assert_eq!(rows[2].len(), 0);
}

#[test]
fn a_single_object_is_a_batch_of_one() {
    let rows = parse_json_array(r#" {"id":"x","ok":true,"none":null} "#).unwrap();
    assert_eq!(rows.len(), 1);
    assert_eq!(rows[0].get("id"), Some(&text("x")));
    assert_eq!(rows[0].get("ok"), Some(&Scalar::Bool(true)));
    assert_eq!(rows[0].get("none"), Some(&Scalar::Null));
}

#[test]
fn an_empty_array_gives_no_records() {
    assert_eq!(parse_json_array("[]").unwrap().len(), 0);
    assert_eq!(parse_json_array(" [ ] \n").unwrap().len(), 0);
}

#[test]
fn other_top_level_values_are_refused() {
    assert_eq!(parse_json_array("42").unwrap_err(), InputError::NotRecords);
    assert_eq!(parse_json_array("\"text\"").unwrap_err(), InputError::NotRecords);
    assert_eq!(parse_json_array("null").unwrap_err(), InputError::NotRecords);
    assert_eq!(parse_json_array("true").unwrap_err(), InputError::NotRecords);
}

#[test]
fn an_array_element_that_is_no_object_is_refused() {
    assert_eq!(parse_json_array(r#"[{"a":1}, 2]"#).unwrap_err(), InputError::NotAnObject);
    assert_eq!(parse_json_array("[[]]").unwrap_err(), InputError::NotAnObject);
    assert_eq!(parse_json_array("[null]").unwrap_err(), InputError::NotAnObject);
}

#[test]
fn text_that_is_not_json_is_refused() {
    for input in ["", "   ", "[", "{\"a\":}", "[1,]", "{} {}", "nope"] {
        match parse_json_array(input) {
            Err(InputError::Malformed { detail }) => assert!(!detail.is_empty()),
            other => panic!("{:?} for {:?}", other, input),
        }
    }
}

#[test]
fn numbers_keep_their_canonical_text() {
    let rows = parse_json_array(
        r#"[{"a":42,"b":-7,"c":1.5,"d":1e3,"e":0.10,"f":18446744073709551615,"g":-0.0}]"#,
    )
    .unwrap();
    let r = &rows[0];
    assert_eq!(r.get("a"), Some(&number("42")));
    assert_eq!(r.get("b"), Some(&number("-7")));
    assert_eq!(r.get("c"), Some(&number("1.5")));
    assert_eq!(r.get("d"), Some(&number("1000.0")));
    assert_eq!(r.get("e"), Some(&number("0.1")));
    assert_eq!(r.get("f"), Some(&number("18446744073709551615")));
    assert_eq!(r.get("g"), Some(&number("-0.0")));
}

#[test]
fn nested_values_count_as_their_compact_text() {
    let rows = parse_json_array(r#"[{"tags":[1, "x", null],"obj":{"b": 1,"a":[ ]}}]"#).unwrap();
    assert_eq!(rows[0].get("tags"), Some(&text("[1,\"x\",null]")));
    assert_eq!(rows[0].get("obj"), Some(&text("{\"a\":[],\"b\":1}")));
}

#[test]
fn of_repeated_members_the_last_counts() {
    let rows = parse_json_array(r#"{"a":1,"a":2}"#).unwrap();
    assert_eq!(rows[0].len(), 1);
    assert_eq!(rows[0].get("a"), Some(&number("2")));
}

#[test]
fn strings_are_unescaped() {
    let rows = parse_json_array(r#"{"q":"say \"hi\"\n","u":"é"}"#).unwrap();
    assert_eq!(rows[0].get("q"), Some(&text("say \"hi\"\n")));
    assert_eq!(rows[0].get("u"), Some(&text("é")));
}

#[test]
fn line_delimited_input_gives_one_record_per_line() {
    let rows = parse_ndjson("{\"id\":1}\n{\"id\":2,\"n\":\"b\"}\n").unwrap();
    assert_eq!(rows.len(), 2);
    assert_eq!(rows[0].get("id"), Some(&number("1")));
    assert_eq!(rows[1].get("n"), Some(&text("b")));
}

#[test]
fn blank_lines_are_passed_over() {
    let rows = parse_ndjson("\n  \n{\"id\":1}\r\n\t\n\n  {\"id\":2}  \n\n").unwrap();
    assert_eq!(rows.len(), 2);
    assert_eq!(rows[1].get("id"), Some(&number("2")));
    assert_eq!(parse_ndjson("").unwrap().len(), 0);
    assert_eq!(parse_ndjson("\n\n \r\n").unwrap().len(), 0);
}

#[test]
fn a_bad_line_is_reported_with_its_number() {
    match parse_ndjson("{\"id\":1}\n\n{oops}\n{\"id\":3}\nalso bad") {
        Err(InputError::MalformedLine { line, detail }) => {
            assert_eq!(line, 3);
            assert!(!detail.is_empty());
        }
        other => panic!("{:?}", other),
    }
    match parse_ndjson("x") {
        Err(InputError::MalformedLine { line, .. }) => assert_eq!(line, 1),
        other => panic!("{:?}", other),
    }
    match parse_ndjson("{}\n{} {}") {
        Err(InputError::MalformedLine { line, .. }) => assert_eq!(line, 2),
        other => panic!("{:?}", other),
    }
}

#[test]
fn a_line_that_is_no_object_is_refused_with_its_number() {
    assert_eq!(
        parse_ndjson("{\"a\":1}\n[1]\n").unwrap_err(),
        InputError::NotAnObjectLine { line: 2 }
    );
    assert_eq!(parse_ndjson("{}\n[1]").unwrap_err(), InputError::NotAnObjectLine { line: 2 });
    assert_eq!(parse_ndjson("7").unwrap_err(), InputError::NotAnObjectLine { line: 1 });
    assert_eq!(
        parse_ndjson("\n\n{}\n  \n \"text\" \n{}").unwrap_err(),
        InputError::NotAnObjectLine { line: 5 }
    );
    assert_eq!(parse_ndjson("null\n[").unwrap_err(), InputError::NotAnObjectLine { line: 1 });
}

#[test]
fn the_first_failing_line_decides() {
    assert_eq!(parse_ndjson("1\n{bad").unwrap_err(), InputError::NotAnObjectLine { line: 1 });
    match parse_ndjson("{bad\n1") {
        Err(InputError::MalformedLine { line, .. }) => assert_eq!(line, 1),
        other => panic!("{:?}", other),
    }
}

#[test]
fn a_refused_text_is_reported_in_the_decoder_s_words() {
    for input in ["", "[", "{\"a\":}", "[1,]", "{} {}", "nope", "[\n\n  {\"a\" 1}]"] {
        let words = serde_json::from_str::<Value>(input).unwrap_err().to_string();
        assert_eq!(
            parse_json_array(input).unwrap_err(),
            InputError::Malformed { detail: words }
        );
    }
    let line = "{\"a\": tru}";
    let words = serde_json::from_str::<Value>(line).unwrap_err().to_string();
    assert_eq!(words, "expected ident at line 1 column 10");
    assert_eq!(
        parse_ndjson("{}\n\n  {\"a\": tru}  \n").unwrap_err(),
        InputError::MalformedLine { line: 3, detail: words }
    );
}

fn object(members: &[(&str, Value)]) -> Value {
    let mut m = serde_json::Map::new();
    for (name, value) in members.iter() {
        m.insert(name.to_string(), value.clone());
    }
    Value::Object(m)
}

#[test]
fn an_object_becomes_the_row_of_its_members() {
    let nested = Value::Array(vec![Value::Null, Value::Bool(true)]);
    let v = object(&[
        ("id", Value::Number(Number::from(7))),
        ("name", Value::String("a".to_string())),
        ("ok", Value::Bool(false)),
        ("none", Value::Null),
        ("list", nested),
        ("inner", object(&[("k", Value::Number(Number::from(-1)))])),
    ]);
    let row = object_to_rowmap(&v);
    assert_eq!(row.len(), 6);
    assert_eq!(row.get("id"), Some(&number("7")));
    assert_eq!(row.get("name"), Some(&text("a")));
    assert_eq!(row.get("ok"), Some(&Scalar::Bool(false)));
    assert_eq!(row.get("none"), Some(&Scalar::Null));
    assert_eq!(row.get("list"), Some(&text("[null,true]")));
    assert_eq!(row.get("inner"), Some(&text("{\"k\":-1}")));
    assert_eq!(object_to_rowmap(&object(&[])).len(), 0);
    assert_eq!(object_to_rowmap(&Value::Null).len(), 0);
}

#[test]
fn a_record_has_to_be_an_object() {
    let row = value_to_rowmap(&object(&[("a", Value::Bool(true))])).unwrap();
    assert_eq!(row.get("a"), Some(&Scalar::Bool(true)));
    for v in [
        Value::Null,
        Value::Bool(true),
        Value::Number(Number::from(1)),
        Value::String("{}".to_string()),
        Value::Array(vec![object(&[])]),
    ] {
        assert_eq!(value_to_rowmap(&v).unwrap_err(), InputError::NotAnObject);
    }
}

#[test]
fn a_decoded_document_gives_its_records() {
    let one = object(&[("id", Value::Number(Number::from(1)))]);
    let two = object(&[("id", Value::Number(Number::from(2)))]);
    let rows = records_from_value(&Value::Array(vec![one.clone(), two.clone()])).unwrap();
    assert_eq!(rows.len(), 2);
    assert_eq!(rows[0].get("id"), Some(&number("1")));
    assert_eq!(rows[1].get("id"), Some(&number("2")));
    let rows = records_from_value(&one).unwrap();
    assert_eq!(rows.len(), 1);
    assert_eq!(rows[0].get("id"), Some(&number("1")));
    assert_eq!(records_from_value(&Value::Array(Vec::new())).unwrap().len(), 0);
    assert_eq!(
        records_from_value(&Value::Array(vec![one, Value::Null, two])).unwrap_err(),
        InputError::NotAnObject
    );
    for v in [Value::Null, Value::Bool(false), Value::String("x".to_string())] {
        assert_eq!(records_from_value(&v).unwrap_err(), InputError::NotRecords);
    }
}

#[test]
fn an_input_that_opens_an_array_is_read_in_array_mode() {
    assert_eq!(effective_mode(" \n [ {\"a\":1} ]", InputMode::LineDelimited), InputMode::Array);
    assert_eq!(effective_mode("[", InputMode::LineDelimited), InputMode::Array);
    assert_eq!(effective_mode("{\"a\":1}\n[", InputMode::LineDelimited), InputMode::LineDelimited);
    assert_eq!(effective_mode("", InputMode::LineDelimited), InputMode::LineDelimited);
    assert_eq!(effective_mode("  ", InputMode::LineDelimited), InputMode::LineDelimited);
    assert_eq!(effective_mode("{}", InputMode::Array), InputMode::Array);
    assert_eq!(effective_mode("[]", InputMode::Array), InputMode::Array);
}

#[test]
fn parse_records_reads_in_the_given_mode() {
    let pretty = "[\n  {\"a\": 1},\n  {\"a\": 2}\n]\n";
    assert_eq!(parse_records(pretty, InputMode::Array).unwrap().len(), 2);
    assert!(parse_records(pretty, InputMode::LineDelimited).is_err());
    let mode = effective_mode(pretty, InputMode::LineDelimited);
    assert_eq!(parse_records(pretty, mode).unwrap().len(), 2);
    let lines = "{\"a\":1}\n{\"a\":2}\n{\"a\":3}";
    assert_eq!(parse_records(lines, InputMode::LineDelimited).unwrap().len(), 3);
    assert!(parse_records(lines, InputMode::Array).is_err());
}

#[test]
fn sheet_lines_become_rows_of_strings_and_nulls() {
    let headers = cells(&["id", "name", "", "note"]);
    let grid = vec![
        cells(&["1", "a", "ignored", ""]),
        cells(&["", "", "only under a blank header", ""]),
        cells(&["2", "", "", "n"]),
        cells(&["3"]),
        cells(&["4", "d", "", "", "beyond the header"]),
    ];
    let rows = rows_from_grid(&headers, &grid);
    assert_eq!(rows.len(), 4);
    assert_eq!(rows[0].get("id"), Some(&text("1")));
    assert_eq!(rows[0].get("name"), Some(&text("a")));
    assert_eq!(rows[0].get("note"), Some(&Scalar::Null));
    assert_eq!(rows[0].get(""), None);
    assert_eq!(rows[0].len(), 3);
    assert_eq!(rows[1].get("id"), Some(&text("2")));
    assert_eq!(rows[1].get("name"), Some(&Scalar::Null));
    assert_eq!(rows[1].get("note"), Some(&text("n")));
    assert_eq!(rows[2].len(), 1);
    assert_eq!(rows[3].len(), 3);
    assert_eq!(rows[3].get("name"), Some(&text("d")));
}

#[test]
fn of_two_cells_under_one_header_the_later_counts() {
    let headers = cells(&["a", "a"]);
    let row = row_from_line(&headers, &cells(&["first", "second"]));
    assert_eq!(row.len(), 1);
    assert_eq!(row.get("a"), Some(&text("second")));
    // the later cell is empty: the line has no value and is no row
    let rows = rows_from_grid(&headers, &vec![cells(&["x", ""])]);
    assert_eq!(rows.len(), 0);
}

#[test]
fn a_sheet_without_lines_has_no_rows() {
    assert_eq!(rows_from_grid(&cells(&["a"]), &Vec::new()).len(), 0);
    assert_eq!(rows_from_grid(&Vec::new(), &vec![cells(&["x"])]).len(), 0);
}
