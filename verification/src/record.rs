//! Records and rows: a row maps field names to scalar values.

use crate::textmap::TextMap;
use vstd::prelude::*;
use vstd::string::*;

verus! {

/// What a scalar value is, as mathematics: the kind and its content.
pub enum ScalarView {
    Null,
    Bool(bool),
    /// A number, by its canonical decimal text.
    Number(Seq<char>),
    Text(Seq<char>),
}

/// One field value of a record.
///
/// A number is held by its canonical text (`42`, `-1.5`, `1e21`): merging,
/// ordering and key building only ever read that text.
#[derive(Clone, Debug, PartialEq, Eq)]
pub enum Scalar {
    Null,
    Bool(bool),
    Number(String),
    Text(String),
}

impl View for Scalar {
    type V = ScalarView;

    open spec fn view(&self) -> ScalarView {
        match self {
            Scalar::Null => ScalarView::Null,
            Scalar::Bool(b) => ScalarView::Bool(*b),
            Scalar::Number(t) => ScalarView::Number(t@),
            Scalar::Text(t) => ScalarView::Text(t@),
        }
    }
}

/// A row of the table: field name to scalar value.
pub type Row = TextMap<Scalar>;

/// A row, as mathematics.
pub type RowView = Map<Seq<char>, ScalarView>;

/// The views of a sequence of rows.
pub open spec fn rows_view(rows: Seq<Row>) -> Seq<RowView> {
    rows.map_values(|r: Row| r@)
}

/// The string form of a scalar: empty for null, `true` / `false`, the number's
/// text, the string itself.
pub open spec fn canonical_text(v: ScalarView) -> Seq<char> {
    match v {
        ScalarView::Null => Seq::empty(),
        ScalarView::Bool(b) => if b {
            "true"@
        } else {
            "false"@
        },
        ScalarView::Number(t) => t,
        ScalarView::Text(t) => t,
    }
}

impl Scalar {
    /// Whether the value is null.
    pub fn is_null(&self) -> (r: bool)
        ensures
            r == (self@ is Null),
    {
        match self {
            Scalar::Null => true,
            _ => false,
        }
    }

    /// The string form of the value.
    pub fn canonical(&self) -> (r: String)
        ensures
            r@ == canonical_text(self@),
    {
        match self {
            Scalar::Null => String::new(),
            Scalar::Bool(b) => if *b {
                String::from_str("true")
            } else {
                String::from_str("false")
            },
            Scalar::Number(t) => t.clone(),
            Scalar::Text(t) => t.clone(),
        }
    }
}

/// Whether some field of the row holds a value other than null.
pub open spec fn has_value(row: RowView) -> bool {
    exists|name: Seq<char>| row.dom().contains(name) && !(row[name] is Null)
}

/// Whether some field of the row holds a value other than null.
pub fn row_has_value(row: &Row) -> (r: bool)
    ensures
        r == has_value(row@),
{
    let n = row.len();
    let mut i: usize = 0;
    while i < n
        invariant
            i <= n,
            n == row.names().len(),
            forall|k: Seq<char>| row@.dom().contains(k) <==> row.names().contains(k),
            forall|j: int| 0 <= j < i ==> row@[#[trigger] row.names()[j]] is Null,
        decreases n - i,
    {
        if !row.value_at(i).is_null() {
            return true;
        }
        i += 1;
    }
    assert forall|name: Seq<char>| row@.dom().contains(name) implies row@[name] is Null by {
        assert(row.names().contains(name));
        let j = choose|j: int| 0 <= j < row.names().len() && row.names()[j] == name;
        assert(row@[row.names()[j]] is Null);
    }
    false
}

} // verus!
