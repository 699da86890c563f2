//! The record parser: JSON text to rows, decoded by the `serde_json` crate.
//!
//! In array mode the input is one document: an array of objects, or a single
//! object, which counts as a batch of one. In line-delimited mode every line
//! that is not blank is a document of its own and has to be an object.
//! A nested value inside a record counts as the string of its compact JSON
//! text.

use crate::record::{rows_view, Row, RowView, Scalar, ScalarView};
use crate::text::{chars_of, split_on, split_ranges, text_of, trim_bounds, trimmed, trimmed_start};
use crate::textmap::TextMap;
use vstd::prelude::*;

verus! {

/// Trusted: declares `serde_json::Value`, a decoded document, as a type that
/// the verifier carries through without looking inside.
#[verifier::external_type_specification]
#[verifier::external_body]
pub struct ExJsonValue(serde_json::Value);

/// Trusted: declares `serde_json::Error` in the same way.
#[verifier::external_type_specification]
#[verifier::external_body]
pub struct ExJsonError(serde_json::Error);

/// A JSON document, as mathematics.
pub enum Json {
    Null,
    Bool(bool),
    /// A number, by its canonical decimal text.
    Number(Seq<char>),
    Text(Seq<char>),
    Array(Seq<Json>),
    Object(Map<Seq<char>, Json>),
}

/// The kind of a JSON value.
#[derive(Clone, Copy, Debug, PartialEq, Eq)]
pub enum JsonKind {
    Null,
    Bool,
    Number,
    Text,
    Array,
    Object,
}

/// The document that a decoded value holds.
pub uninterp spec fn json_of(v: serde_json::Value) -> Json;

/// What `serde_json::from_str` makes of a text: the document that it decodes
/// the text to, or, where it refuses the text, the words of its error.
pub uninterp spec fn json_decoded(text: Seq<char>) -> Result<Json, Seq<char>>;

/// The words that a decoder's error prints (`Display` of `serde_json::Error`).
pub uninterp spec fn error_words(e: serde_json::Error) -> Seq<char>;

/// The compact JSON text that `serde_json` prints a document as.
pub uninterp spec fn json_text(j: Json) -> Seq<char>;

/// The kind of a document.
pub open spec fn kind_of(j: Json) -> JsonKind {
    match j {
        Json::Null => JsonKind::Null,
        Json::Bool(_) => JsonKind::Bool,
        Json::Number(_) => JsonKind::Number,
        Json::Text(_) => JsonKind::Text,
        Json::Array(_) => JsonKind::Array,
        Json::Object(_) => JsonKind::Object,
    }
}

/// The elements of an array; of anything else, none.
pub open spec fn json_items(j: Json) -> Seq<Json> {
    match j {
        Json::Array(items) => items,
        _ => Seq::empty(),
    }
}

/// The members of an object; of anything else, none.
pub open spec fn json_fields(j: Json) -> Map<Seq<char>, Json> {
    match j {
        Json::Object(fields) => fields,
        _ => Map::empty(),
    }
}

/// The scalar that a member value stands for in a record.
pub open spec fn scalar_view_of(j: Json) -> ScalarView {
    match j {
        Json::Null => ScalarView::Null,
        Json::Bool(b) => ScalarView::Bool(b),
        Json::Number(t) => ScalarView::Number(t),
        Json::Text(t) => ScalarView::Text(t),
        Json::Array(_) => ScalarView::Text(json_text(j)),
        Json::Object(_) => ScalarView::Text(json_text(j)),
    }
}

/// The row that the members of an object stand for.
pub open spec fn row_of_fields(fields: Map<Seq<char>, Json>) -> RowView {
    fields.map_values(|j: Json| scalar_view_of(j))
}

/// Trusted: `serde_json::from_str` at type `Value`. Decoding depends on the
/// text alone, the error that a refused text gets included: the value that
/// comes back holds the document that the text decodes to, and an error comes
/// back exactly where there is none.
#[verifier::external_body]
fn decode(text: &str) -> (res: Result<serde_json::Value, serde_json::Error>)
    ensures
        match res {
            Ok(v) => json_decoded(text@) == Ok::<Json, Seq<char>>(json_of(v)),
            Err(e) => json_decoded(text@) == Err::<Json, Seq<char>>(error_words(e)),
        },
{
    serde_json::from_str(text)
}

/// Trusted: the `Display` text of a `serde_json::Error`: the words of the
/// error, which name what is wrong and the line and column where.
#[verifier::external_body]
fn error_text(e: &serde_json::Error) -> (r: String)
    ensures
        r@ == error_words(*e),
{
    e.to_string()
}

/// Trusted: tells the variants of `serde_json::Value` apart.
#[verifier::external_body]
fn value_kind(v: &serde_json::Value) -> (r: JsonKind)
    ensures
        r == kind_of(json_of(*v)),
{
    match v {
        serde_json::Value::Null => JsonKind::Null,
        serde_json::Value::Bool(_) => JsonKind::Bool,
        serde_json::Value::Number(_) => JsonKind::Number,
        serde_json::Value::String(_) => JsonKind::Text,
        serde_json::Value::Array(_) => JsonKind::Array,
        serde_json::Value::Object(_) => JsonKind::Object,
    }
}

/// Trusted: hands out the elements of `Value::Array`, in order; an empty list
/// for any other variant.
#[verifier::external_body]
fn array_items(v: &serde_json::Value) -> (r: Vec<&serde_json::Value>)
    ensures
        r@.len() == json_items(json_of(*v)).len(),
        forall|i: int|
            0 <= i < r@.len() ==> json_of(*#[trigger] r@[i]) == json_items(json_of(*v))[i],
{
    match v {
        serde_json::Value::Array(items) => items.iter().collect(),
        _ => Vec::new(),
    }
}

/// Trusted: hands out the members of `Value::Object` (`serde_json::Map::iter`),
/// each name with its value; an empty list for any other variant. Every entry
/// is a member, and every member is among the entries.
#[verifier::external_body]
fn object_entries(v: &serde_json::Value) -> (r: Vec<(&String, &serde_json::Value)>)
    ensures
        forall|i: int|
            0 <= i < r@.len() ==> json_fields(json_of(*v)).dom().contains(
                (#[trigger] r@[i]).0@,
            ) && json_of(*r@[i].1) == json_fields(json_of(*v))[r@[i].0@],
        forall|k: Seq<char>|
            json_fields(json_of(*v)).dom().contains(k) ==> exists|i: int|
                0 <= i < r@.len() && (#[trigger] r@[i]).0@ == k,
{
    match v {
        serde_json::Value::Object(members) => members.iter().collect(),
        _ => Vec::new(),
    }
}

/// Trusted: converts a member value to a scalar, variant by variant. A number
/// is taken by the text that `serde_json::Number` prints, a nested array or
/// object by the compact text that `serde_json::Value` prints.
#[verifier::external_body]
fn scalar_of(v: &serde_json::Value) -> (r: Scalar)
    ensures
        r@ == scalar_view_of(json_of(*v)),
        json_of(*v) is Array || json_of(*v) is Object ==> r@ == ScalarView::Text(
            json_text(json_of(*v)),
        ),
{
    match v {
        serde_json::Value::Null => Scalar::Null,
        serde_json::Value::Bool(b) => Scalar::Bool(*b),
        serde_json::Value::Number(n) => Scalar::Number(n.to_string()),
        serde_json::Value::String(s) => Scalar::Text(s.clone()),
        nested => Scalar::Text(nested.to_string()),
    }
}

/// Why an input was refused.
#[derive(Clone, Debug, PartialEq, Eq)]
pub enum InputError {
    /// The input is not valid JSON.
    Malformed { detail: String },
    /// A line, counted from 1, is not valid JSON.
    MalformedLine { line: usize, detail: String },
    /// The document is neither an array nor an object.
    NotRecords,
    /// An element of the array is not an object.
    NotAnObject,
    /// A line, counted from 1, is valid JSON but not an object.
    NotAnObjectLine { line: usize },
}

/// An input error, as mathematics.
pub enum InputErrorView {
    /// With the decoder's words.
    Malformed(Seq<char>),
    /// With the line, counted from 1, and the decoder's words.
    MalformedLine(int, Seq<char>),
    NotRecords,
    NotAnObject,
    /// With the line, counted from 1.
    NotAnObjectLine(int),
}

impl View for InputError {
    type V = InputErrorView;

    open spec fn view(&self) -> InputErrorView {
        match self {
            InputError::Malformed { detail } => InputErrorView::Malformed(detail@),
            InputError::MalformedLine { line, detail } => InputErrorView::MalformedLine(
                *line as int,
                detail@,
            ),
            InputError::NotRecords => InputErrorView::NotRecords,
            InputError::NotAnObject => InputErrorView::NotAnObject,
            InputError::NotAnObjectLine { line } => InputErrorView::NotAnObjectLine(*line as int),
        }
    }
}

/// What a parse came to, as mathematics: the rows, or the error.
pub open spec fn outcome_view(res: Result<Vec<Row>, InputError>) -> Result<
    Seq<RowView>,
    InputErrorView,
> {
    match res {
        Ok(rows) => Ok(rows_view(rows@)),
        Err(e) => Err(e@),
    }
}

/// A record has to be an object.
pub open spec fn record_of(j: Json) -> Result<RowView, InputErrorView> {
    match j {
        Json::Object(fields) => Ok(row_of_fields(fields)),
        _ => Err(InputErrorView::NotAnObject),
    }
}

/// The rows of the first `upto` elements of an array: an error as soon as one
/// of them is not an object.
pub open spec fn item_records(items: Seq<Json>, upto: int) -> Result<Seq<RowView>, InputErrorView>
    decreases upto,
{
    if upto <= 0 {
        Ok(Seq::empty())
    } else {
        match item_records(items, upto - 1) {
            Err(e) => Err(e),
            Ok(rows) => match record_of(items[upto - 1]) {
                Ok(row) => Ok(rows.push(row)),
                Err(e) => Err(e),
            },
        }
    }
}

/// The records of a document in array mode; a text that is refused is
/// reported with the decoder's words.
pub open spec fn document_records(doc: Result<Json, Seq<char>>) -> Result<
    Seq<RowView>,
    InputErrorView,
> {
    match doc {
        Err(words) => Err(InputErrorView::Malformed(words)),
        Ok(Json::Array(items)) => item_records(items, items.len() as int),
        Ok(Json::Object(fields)) => Ok(seq![row_of_fields(fields)]),
        Ok(_) => Err(InputErrorView::NotRecords),
    }
}

/// The records of the first `upto` lines in line-delimited mode. Blank lines
/// are passed over; the first line that is not valid JSON, or no object, ends
/// the parse with its error, which names that line, counted from 1.
pub open spec fn line_records(lines: Seq<Seq<char>>, upto: int) -> Result<
    Seq<RowView>,
    InputErrorView,
>
    decreases upto,
{
    if upto <= 0 {
        Ok(Seq::empty())
    } else {
        match line_records(lines, upto - 1) {
            Err(e) => Err(e),
            Ok(rows) => {
                let line = trimmed(lines[upto - 1]);
                if line.len() == 0 {
                    Ok(rows)
                } else {
                    match json_decoded(line) {
                        Err(words) => Err(InputErrorView::MalformedLine(upto, words)),
                        Ok(j) => match record_of(j) {
                            Ok(row) => Ok(rows.push(row)),
                            Err(_) => Err(InputErrorView::NotAnObjectLine(upto)),
                        },
                    }
                }
            },
        }
    }
}

/// The records of an input in line-delimited mode.
pub open spec fn ndjson_records(input: Seq<char>) -> Result<Seq<RowView>, InputErrorView> {
    line_records(split_on(input, '\n'), split_on(input, '\n').len() as int)
}

/// A line that is valid JSON but no object ends the parse with an error that
/// names the line, counted from 1.
pub proof fn line_that_is_no_object_is_named(lines: Seq<Seq<char>>, upto: int)
    requires
        0 < upto <= lines.len(),
        line_records(lines, upto - 1) is Ok,
        trimmed(lines[upto - 1]).len() > 0,
        json_decoded(trimmed(lines[upto - 1])) is Ok,
        !(json_decoded(trimmed(lines[upto - 1]))->Ok_0 is Object),
    ensures
        line_records(lines, upto) == Err::<Seq<RowView>, InputErrorView>(
            InputErrorView::NotAnObjectLine(upto),
        ),
{
}

/// An input of blank lines only has no records, and is no error.
pub proof fn blank_lines_give_no_records(lines: Seq<Seq<char>>, upto: int)
    requires
        upto <= lines.len(),
        forall|i: int| 0 <= i < upto ==> trimmed(#[trigger] lines[i]).len() == 0,
    ensures
        line_records(lines, upto) == Ok::<Seq<RowView>, InputErrorView>(Seq::empty()),
    decreases upto,
{
    if upto > 0 {
        blank_lines_give_no_records(lines, upto - 1);
    }
}

/// An empty array has no records, and is no error.
pub proof fn empty_array_gives_no_records()
    ensures
        document_records(Ok(Json::Array(Seq::empty()))) == Ok::<Seq<RowView>, InputErrorView>(
            Seq::empty(),
        ),
{
}

/// The row that a decoded object stands for: its members, each value as a
/// scalar. Of anything but an object, the empty row.
pub fn object_to_rowmap(v: &serde_json::Value) -> (row: Row)
    ensures
        row@ == row_of_fields(json_fields(json_of(*v))),
{
    let ghost fields = json_fields(json_of(*v));
    let entries = object_entries(v);
    let mut row: Row = TextMap::new();
    let mut i: usize = 0;
    while i < entries.len()
        invariant
            i <= entries.len(),
            fields == json_fields(json_of(*v)),
            forall|j: int|
                0 <= j < entries@.len() ==> fields.dom().contains((#[trigger] entries@[j]).0@)
                    && json_of(*entries@[j].1) == fields[entries@[j].0@],
            forall|k: Seq<char>| #[trigger]
                row@.dom().contains(k) ==> fields.dom().contains(k) && row@[k] == scalar_view_of(
                    fields[k],
                ),
            forall|j: int| 0 <= j < i ==> row@.dom().contains((#[trigger] entries@[j]).0@),
        decreases entries.len() - i,
    {
        let name = entries[i].0;
        let value = scalar_of(entries[i].1);
        row.insert(name.clone(), value);
        i += 1;
    }
    proof {
        assert forall|k: Seq<char>| fields.dom().contains(k) implies row@.dom().contains(k) by {
            let j = choose|j: int| 0 <= j < entries@.len() && (#[trigger] entries@[j]).0@ == k;
            assert(row@.dom().contains(entries@[j].0@));
        }
        assert(row@ =~= row_of_fields(fields));
    }
    row
}

/// The row that a decoded record stands for; anything but an object is
/// refused.
pub fn value_to_rowmap(v: &serde_json::Value) -> (res: Result<Row, InputError>)
    ensures
        match res {
            Ok(row) => record_of(json_of(*v)) == Ok::<RowView, InputErrorView>(row@),
            Err(e) => record_of(json_of(*v)) == Err::<RowView, InputErrorView>(e@),
        },
{
    match value_kind(v) {
        JsonKind::Object => Ok(object_to_rowmap(v)),
        _ => Err(InputError::NotAnObject),
    }
}

/// The rows of a decoded document in array mode: of an array, one row for
/// each element, all of which have to be objects; of an object, its one row;
/// anything else is refused.
pub fn records_from_value(v: &serde_json::Value) -> (res: Result<Vec<Row>, InputError>)
    ensures
        outcome_view(res) == document_records(Ok(json_of(*v))),
{
    match value_kind(v) {
        JsonKind::Array => {
            let items = array_items(v);
            let ghost all = json_items(json_of(*v));
            let mut rows: Vec<Row> = Vec::new();
            let mut i: usize = 0;
            assert(rows_view(rows@) =~= Seq::<RowView>::empty());
            while i < items.len()
                invariant
                    i <= items.len(),
                    items@.len() == all.len(),
                    json_of(*v) == Json::Array(all),
                    forall|j: int|
                        0 <= j < items@.len() ==> json_of(*#[trigger] items@[j]) == all[j],
                    item_records(all, i as int) == Ok::<Seq<RowView>, InputErrorView>(
                        rows_view(rows@),
                    ),
                decreases items.len() - i,
            {
                let item = items[i];
                assert(json_of(*items@[i as int]) == all[i as int]);
                match value_to_rowmap(item) {
                    Ok(row) => {
                        let ghost before = rows@;
                        rows.push(row);
                        assert(rows_view(rows@) =~= rows_view(before).push(row@));
                    },
                    Err(e) => {
                        proof {
                            assert(item_records(all, i + 1) == Err::<Seq<RowView>, InputErrorView>(
                                InputErrorView::NotAnObject,
                            ));
                            lemma_item_records_fail(all, i + 1, all.len() as int);
                        }
                        return Err(e);
                    },
                }
                i += 1;
            }
            Ok(rows)
        },
        JsonKind::Object => {
            let row = object_to_rowmap(v);
            let mut rows: Vec<Row> = Vec::new();
            rows.push(row);
            assert(rows_view(rows@) =~= seq![row@]);
            Ok(rows)
        },
        _ => Err(InputError::NotRecords),
    }
}

/// Once a prefix of the elements has failed, the whole array fails alike.
proof fn lemma_item_records_fail(items: Seq<Json>, failed: int, upto: int)
    requires
        0 <= failed <= upto,
        item_records(items, failed) is Err,
    ensures
        item_records(items, upto) == item_records(items, failed),
    decreases upto - failed,
{
    if failed < upto {
        lemma_item_records_fail(items, failed, upto - 1);
    }
}

/// Once a prefix of the lines has failed, the whole input fails alike.
proof fn lemma_line_records_fail(lines: Seq<Seq<char>>, failed: int, upto: int)
    requires
        0 <= failed <= upto,
        line_records(lines, failed) is Err,
    ensures
        line_records(lines, upto) == line_records(lines, failed),
    decreases upto - failed,
{
    if failed < upto {
        lemma_line_records_fail(lines, failed, upto - 1);
    }
}

/// Parses an input in array mode: an array of objects, or one object.
///
/// An empty array gives no records. Anything that is not valid JSON, any other
/// top-level value and any element that is not an object is refused.
pub fn parse_json_array(input: &str) -> (res: Result<Vec<Row>, InputError>)
    ensures
        outcome_view(res) == document_records(json_decoded(input@)),
{
    match decode(input) {
        Ok(v) => records_from_value(&v),
        Err(e) => Err(InputError::Malformed { detail: error_text(&e) }),
    }
}

/// Parses an input in line-delimited mode: one object on each line that is not
/// blank.
///
/// An input of blank lines only gives no records. The first line that is not
/// valid JSON, or is no object, is refused with its number, counted from 1.
pub fn parse_ndjson(input: &str) -> (res: Result<Vec<Row>, InputError>)
    ensures
        outcome_view(res) == ndjson_records(input@),
{
    let chars = chars_of(input);
    let ranges = split_ranges(&chars, '\n');
    let ghost lines = split_on(chars@, '\n');
    let mut rows: Vec<Row> = Vec::new();
    let mut i: usize = 0;
    assert(rows_view(rows@) =~= Seq::<RowView>::empty());
    while i < ranges.len()
        invariant
            i <= ranges.len(),
            chars@ == input@,
            lines == split_on(chars@, '\n'),
            ranges@.len() == lines.len(),
            forall|k: int|
                0 <= k < ranges@.len() ==> (#[trigger] ranges@[k]).0 <= ranges@[k].1 <= chars@.len()
                    && chars@.subrange(ranges@[k].0 as int, ranges@[k].1 as int) == lines[k],
            line_records(lines, i as int) == Ok::<Seq<RowView>, InputErrorView>(rows_view(rows@)),
        decreases ranges.len() - i,
    {
        let (from, to) = ranges[i];
        assert(ranges@[i as int].0 == from && ranges@[i as int].1 == to);
        let (a, b) = trim_bounds(&chars, from, to);
        if a < b {
            let line = text_of(&chars, a, b);
            assert(line@ == trimmed(lines[i as int]));
            match decode(line.as_str()) {
                Err(e) => {
                    proof {
                        assert(line_records(lines, i + 1) == Err::<Seq<RowView>, InputErrorView>(
                            InputErrorView::MalformedLine(i + 1, error_words(e)),
                        ));
                        lemma_line_records_fail(lines, i + 1, lines.len() as int);
                    }
                    return Err(InputError::MalformedLine { line: i + 1, detail: error_text(&e) });
                },
                Ok(v) => match value_to_rowmap(&v) {
                    Ok(row) => {
                        let ghost before = rows@;
                        rows.push(row);
                        assert(rows_view(rows@) =~= rows_view(before).push(row@));
                    },
                    Err(_) => {
                        proof {
                            assert(line_records(lines, i + 1) == Err::<Seq<RowView>, InputErrorView>(
                                InputErrorView::NotAnObjectLine(i + 1),
                            ));
                            lemma_line_records_fail(lines, i + 1, lines.len() as int);
                        }
                        return Err(InputError::NotAnObjectLine { line: i + 1 });
                    },
                },
            }
        }
        i += 1;
    }
    Ok(rows)
}

/// How the input is to be read.
#[derive(Clone, Copy, Debug, PartialEq, Eq)]
pub enum InputMode {
    Array,
    LineDelimited,
}

/// The first character that is not white space opens an array.
pub open spec fn looks_like_array(input: Seq<char>) -> bool {
    trimmed_start(input).len() > 0 && trimmed_start(input)[0] == '['
}

/// The mode in which an input is read: the requested one, but array mode where
/// line-delimited mode is requested and the input plainly is an array.
pub open spec fn mode_for(input: Seq<char>, requested: InputMode) -> InputMode {
    if requested is LineDelimited && looks_like_array(input) {
        InputMode::Array
    } else {
        requested
    }
}

/// The records of an input read in the given mode.
pub open spec fn input_records(input: Seq<char>, mode: InputMode) -> Result<
    Seq<RowView>,
    InputErrorView,
> {
    match mode {
        InputMode::Array => document_records(json_decoded(input)),
        InputMode::LineDelimited => ndjson_records(input),
    }
}

/// Decides the mode in which the input is read. Where the result differs from
/// the request, the caller owes the user a notice.
pub fn effective_mode(input: &str, requested: InputMode) -> (mode: InputMode)
    ensures
        mode == mode_for(input@, requested),
{
    match requested {
        InputMode::Array => InputMode::Array,
        InputMode::LineDelimited => {
            let chars = chars_of(input);
            let mut i: usize = 0;
            assert(chars@.subrange(0, chars@.len() as int) == chars@);
            while i < chars.len() && crate::text::is_space(chars[i])
                invariant
                    i <= chars.len(),
                    trimmed_start(chars@) == trimmed_start(
                        chars@.subrange(i as int, chars@.len() as int),
                    ),
                decreases chars.len() - i,
            {
                assert(chars@.subrange(i as int, chars@.len() as int).drop_first()
                    == chars@.subrange(i + 1, chars@.len() as int));
                i += 1;
            }
            if i < chars.len() && chars[i] == '[' {
                InputMode::Array
            } else {
                InputMode::LineDelimited
            }
        },
    }
}

/// Parses the input in the given mode.
pub fn parse_records(input: &str, mode: InputMode) -> (res: Result<Vec<Row>, InputError>)
    ensures
        outcome_view(res) == input_records(input@, mode),
{
    match mode {
        InputMode::Array => parse_json_array(input),
        InputMode::LineDelimited => parse_ndjson(input),
    }
}

} // verus!
