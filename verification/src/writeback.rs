//! The write-back plan: which cells of the sheet are written, and with what.
//!
//! Row 1 holds the column names. Data row `r` (from 0) goes to sheet row
//! `r + 2`, column `c` (from 0) to sheet column `c + 1`. A cell whose row has
//! no value for its column is not written at all, so whatever stood there
//! before stays as it was.

use crate::record::{canonical_text, rows_view, Row, RowView, Scalar, ScalarView};
use crate::seqs::{lemma_add_contains, lemma_push_contains};
use crate::text::{quote_escaped, same_text, texts, xl_quote_escape};
use crate::textmap::TextMap;
use vstd::prelude::*;
use vstd::string::*;

verus! {

/// Column name to the URL base that its cells link to.
pub type HyperlinkMap = TextMap<String>;

/// What a cell is set to, as mathematics.
pub enum CellContentView {
    Text(Seq<char>),
    Bool(bool),
    Number(Seq<char>),
    Formula(Seq<char>),
}

/// What one cell is set to.
#[derive(Clone, Debug, PartialEq, Eq)]
pub enum CellContent {
    /// A string value; the empty string clears the cell's value.
    Text(String),
    Bool(bool),
    /// A numeric value, by its decimal text.
    Number(String),
    /// A formula, without the leading `=`.
    Formula(String),
}

impl View for CellContent {
    type V = CellContentView;

    open spec fn view(&self) -> CellContentView {
        match self {
            CellContent::Text(t) => CellContentView::Text(t@),
            CellContent::Bool(b) => CellContentView::Bool(*b),
            CellContent::Number(t) => CellContentView::Number(t@),
            CellContent::Formula(t) => CellContentView::Formula(t@),
        }
    }
}

/// A cell write, as mathematics.
pub struct CellWriteView {
    pub col: int,
    pub row: int,
    pub content: CellContentView,
}

/// One cell write: sheet column and row, both from 1, and the content.
#[derive(Clone, Debug, PartialEq, Eq)]
pub struct CellWrite {
    pub col: u32,
    pub row: u32,
    pub content: CellContent,
}

impl View for CellWrite {
    type V = CellWriteView;

    open spec fn view(&self) -> CellWriteView {
        CellWriteView { col: self.col as int, row: self.row as int, content: self.content@ }
    }
}

/// The views of a sequence of cell writes.
pub open spec fn writes_view(w: Seq<CellWrite>) -> Seq<CellWriteView> {
    w.map_values(|x: CellWrite| x@)
}

/// The link formula for a cell: target `base + text`, label `text`, with the
/// quotes inside both doubled.
pub open spec fn hyperlink_formula(base: Seq<char>, text: Seq<char>) -> Seq<char> {
    "HYPERLINK(\""@ + quote_escaped(base + text) + "\",\""@ + quote_escaped(text) + "\")"@
}

/// The content written for a value, given the URL base of its column if one is
/// configured.
pub open spec fn cell_content(value: ScalarView, base: Option<Seq<char>>) -> CellContentView {
    match base {
        Some(b) => {
            let text = canonical_text(value);
            if text.len() > 0 {
                CellContentView::Formula(hyperlink_formula(b, text))
            } else {
                CellContentView::Text(Seq::empty())
            }
        },
        None => match value {
            ScalarView::Null => CellContentView::Text(Seq::empty()),
            ScalarView::Bool(b) => CellContentView::Bool(b),
            ScalarView::Number(t) => CellContentView::Number(t),
            ScalarView::Text(t) => CellContentView::Text(t),
        },
    }
}

/// The URL base configured for a column, if any.
pub open spec fn link_base(links: Map<Seq<char>, Seq<char>>, column: Seq<char>) -> Option<
    Seq<char>,
> {
    if links.dom().contains(column) {
        Some(links[column])
    } else {
        None
    }
}

/// The header write of column `c` (from 0): its name, in row 1.
pub open spec fn header_write(columns: Seq<Seq<char>>, c: int) -> CellWriteView {
    CellWriteView { col: c + 1, row: 1, content: CellContentView::Text(columns[c]) }
}

/// The write of data row `r`, column `c` (both from 0), for a row that has a
/// value under the column's name.
pub open spec fn cell_write(
    columns: Seq<Seq<char>>,
    row: RowView,
    r: int,
    c: int,
    links: Map<Seq<char>, Seq<char>>,
) -> CellWriteView {
    CellWriteView {
        col: c + 1,
        row: r + 2,
        content: cell_content(row[columns[c]], link_base(links, columns[c])),
    }
}

/// The writes of the header row for the first `upto` columns.
pub open spec fn header_writes(columns: Seq<Seq<char>>, upto: int) -> Seq<CellWriteView>
    decreases upto,
{
    if upto <= 0 {
        Seq::empty()
    } else {
        header_writes(columns, upto - 1).push(header_write(columns, upto - 1))
    }
}

/// The writes of data row `r` for the first `upto` columns: one for each column
/// that the row has a value for, none for the others.
pub open spec fn row_writes(
    columns: Seq<Seq<char>>,
    row: RowView,
    r: int,
    links: Map<Seq<char>, Seq<char>>,
    upto: int,
) -> Seq<CellWriteView>
    decreases upto,
{
    if upto <= 0 {
        Seq::empty()
    } else {
        let before = row_writes(columns, row, r, links, upto - 1);
        if row.dom().contains(columns[upto - 1]) {
            before.push(cell_write(columns, row, r, upto - 1, links))
        } else {
            before
        }
    }
}

/// The writes of the first `upto` data rows.
pub open spec fn data_writes(
    columns: Seq<Seq<char>>,
    rows: Seq<RowView>,
    links: Map<Seq<char>, Seq<char>>,
    upto: int,
) -> Seq<CellWriteView>
    decreases upto,
{
    if upto <= 0 {
        Seq::empty()
    } else {
        data_writes(columns, rows, links, upto - 1) + row_writes(
            columns,
            rows[upto - 1],
            upto - 1,
            links,
            columns.len() as int,
        )
    }
}

/// The whole plan: the header row, then the data rows in order, each from its
/// first column to its last.
pub open spec fn planned_writes(
    columns: Seq<Seq<char>>,
    rows: Seq<RowView>,
    links: Map<Seq<char>, Seq<char>>,
) -> Seq<CellWriteView> {
    header_writes(columns, columns.len() as int) + data_writes(
        columns,
        rows,
        links,
        rows.len() as int,
    )
}

/// `w` is the header write of one of the first `upto` columns.
pub open spec fn is_header_write(columns: Seq<Seq<char>>, upto: int, w: CellWriteView) -> bool {
    exists|c: int| 0 <= c < upto && w == header_write(columns, c)
}

/// `w` is the write of a value that `row` has under one of the first `upto`
/// columns.
pub open spec fn is_row_write(
    columns: Seq<Seq<char>>,
    row: RowView,
    r: int,
    links: Map<Seq<char>, Seq<char>>,
    upto: int,
    w: CellWriteView,
) -> bool {
    exists|c: int|
        0 <= c < upto && row.dom().contains(#[trigger] columns[c]) && w == cell_write(
            columns,
            row,
            r,
            c,
            links,
        )
}

/// `w` is the write of a value that one of the first `upto` rows has under a
/// column.
pub open spec fn is_data_write(
    columns: Seq<Seq<char>>,
    rows: Seq<RowView>,
    links: Map<Seq<char>, Seq<char>>,
    upto: int,
    w: CellWriteView,
) -> bool {
    exists|r: int|
        0 <= r < upto && is_row_write(
            columns,
            #[trigger] rows[r],
            r,
            links,
            columns.len() as int,
            w,
        )
}

proof fn lemma_header_writes(columns: Seq<Seq<char>>, upto: int)
    ensures
        forall|w: CellWriteView| #[trigger]
            header_writes(columns, upto).contains(w) <==> is_header_write(columns, upto, w),
    decreases upto,
{
    if upto > 0 {
        lemma_header_writes(columns, upto - 1);
        lemma_push_contains(header_writes(columns, upto - 1), header_write(columns, upto - 1));
        assert forall|w: CellWriteView| #[trigger]
            header_writes(columns, upto).contains(w) <==> is_header_write(columns, upto, w) by {
            if is_header_write(columns, upto, w) {
                let c = choose|c: int| 0 <= c < upto && w == header_write(columns, c);
                if c < upto - 1 {
                    assert(is_header_write(columns, upto - 1, w));
                }
            }
            if is_header_write(columns, upto - 1, w) {
                let c = choose|c: int| 0 <= c < upto - 1 && w == header_write(columns, c);
                assert(0 <= c < upto && w == header_write(columns, c));
            }
            if w == header_write(columns, upto - 1) {
                assert(0 <= upto - 1 < upto && w == header_write(columns, upto - 1));
            }
        }
    }
}

proof fn lemma_row_writes(
    columns: Seq<Seq<char>>,
    row: RowView,
    r: int,
    links: Map<Seq<char>, Seq<char>>,
    upto: int,
)
    ensures
        forall|w: CellWriteView| #[trigger]
            row_writes(columns, row, r, links, upto).contains(w) <==> is_row_write(
                columns,
                row,
                r,
                links,
                upto,
                w,
            ),
    decreases upto,
{
    if upto > 0 {
        let before = row_writes(columns, row, r, links, upto - 1);
        let last = cell_write(columns, row, r, upto - 1, links);
        lemma_row_writes(columns, row, r, links, upto - 1);
        lemma_push_contains(before, last);
        assert forall|w: CellWriteView| #[trigger]
            row_writes(columns, row, r, links, upto).contains(w) <==> is_row_write(
                columns,
                row,
                r,
                links,
                upto,
                w,
            ) by {
            if is_row_write(columns, row, r, links, upto, w) {
                let c = choose|c: int|
                    0 <= c < upto && row.dom().contains(#[trigger] columns[c]) && w == cell_write(
                        columns,
                        row,
                        r,
                        c,
                        links,
                    );
                if c < upto - 1 {
                    assert(is_row_write(columns, row, r, links, upto - 1, w));
                }
            }
            if is_row_write(columns, row, r, links, upto - 1, w) {
                let c = choose|c: int|
                    0 <= c < upto - 1 && row.dom().contains(#[trigger] columns[c]) && w
                        == cell_write(columns, row, r, c, links);
                assert(0 <= c < upto && row.dom().contains(columns[c]));
            }
            if row.dom().contains(columns[upto - 1]) && w == last {
                assert(0 <= upto - 1 < upto && row.dom().contains(columns[upto - 1]));
            }
        }
    }
}

proof fn lemma_data_writes(
    columns: Seq<Seq<char>>,
    rows: Seq<RowView>,
    links: Map<Seq<char>, Seq<char>>,
    upto: int,
)
    ensures
        forall|w: CellWriteView| #[trigger]
            data_writes(columns, rows, links, upto).contains(w) <==> is_data_write(
                columns,
                rows,
                links,
                upto,
                w,
            ),
    decreases upto,
{
    if upto > 0 {
        let before = data_writes(columns, rows, links, upto - 1);
        let last = row_writes(columns, rows[upto - 1], upto - 1, links, columns.len() as int);
        lemma_data_writes(columns, rows, links, upto - 1);
        lemma_row_writes(columns, rows[upto - 1], upto - 1, links, columns.len() as int);
        lemma_add_contains(before, last);
        assert forall|w: CellWriteView| #[trigger]
            data_writes(columns, rows, links, upto).contains(w) <==> is_data_write(
                columns,
                rows,
                links,
                upto,
                w,
            ) by {
            let n = columns.len() as int;
            if is_data_write(columns, rows, links, upto, w) {
                let r = choose|r: int|
                    0 <= r < upto && is_row_write(columns, #[trigger] rows[r], r, links, n, w);
                if r < upto - 1 {
                    assert(is_data_write(columns, rows, links, upto - 1, w));
                }
            }
            if is_data_write(columns, rows, links, upto - 1, w) {
                let r = choose|r: int|
                    0 <= r < upto - 1 && is_row_write(columns, #[trigger] rows[r], r, links, n, w);
                assert(0 <= r < upto && is_row_write(columns, rows[r], r, links, n, w));
            }
            if is_row_write(columns, rows[upto - 1], upto - 1, links, n, w) {
                assert(0 <= upto - 1 < upto && is_row_write(
                    columns,
                    rows[upto - 1],
                    upto - 1,
                    links,
                    n,
                    w,
                ));
            }
        }
    }
}

/// The plan writes exactly the header of every column and, of the data cells,
/// those whose row has a value under the column's name: a cell without a
/// value is not touched.
pub proof fn planned_writes_are_exact(
    columns: Seq<Seq<char>>,
    rows: Seq<RowView>,
    links: Map<Seq<char>, Seq<char>>,
)
    ensures
        forall|w: CellWriteView| #[trigger]
            planned_writes(columns, rows, links).contains(w) <==> is_header_write(
                columns,
                columns.len() as int,
                w,
            ) || is_data_write(columns, rows, links, rows.len() as int, w),
{
    lemma_header_writes(columns, columns.len() as int);
    lemma_data_writes(columns, rows, links, rows.len() as int);
    lemma_add_contains(
        header_writes(columns, columns.len() as int),
        data_writes(columns, rows, links, rows.len() as int),
    );
}

/// Builds the link formula `HYPERLINK("<base><text>","<text>")`.
pub fn link_formula(base: &str, text: &str) -> (r: String)
    ensures
        r@ == hyperlink_formula(base@, text@),
{
    let mut url = base.to_owned();
    url.append(text);
    let escaped_url = xl_quote_escape(url.as_str());
    let escaped_text = xl_quote_escape(text);
    let mut f = String::from_str("HYPERLINK(\"");
    f.append(escaped_url.as_str());
    f.append("\",\"");
    f.append(escaped_text.as_str());
    f.append("\")");
    f
}

/// The content to write for `value` in a column with the given URL base.
///
/// With a base, a non-empty value becomes a link formula and an empty one an
/// empty value. Without one, the value is written with its own type, null as
/// the empty string.
pub fn content_for(value: &Scalar, base: Option<&String>) -> (r: CellContent)
    ensures
        r@ == cell_content(
            value@,
            match base {
                Some(b) => Some(b@),
                None => None,
            },
        ),
{
    match base {
        Some(b) => {
            let text = value.canonical();
            if text.as_str().unicode_len() > 0 {
                CellContent::Formula(link_formula(b.as_str(), text.as_str()))
            } else {
                CellContent::Text(String::new())
            }
        },
        None => match value {
            Scalar::Null => CellContent::Text(String::new()),
            Scalar::Bool(b) => CellContent::Bool(*b),
            Scalar::Number(t) => CellContent::Number(t.clone()),
            Scalar::Text(t) => CellContent::Text(t.clone()),
        },
    }
}

/// Plans every cell write for the given columns and rows.
///
/// The header row is always written in full. A data cell is written exactly
/// when its row holds a value (null included) under the column's name.
pub fn plan_writes(columns: &Vec<String>, rows: &Vec<Row>, links: &HyperlinkMap) -> (plan: Vec<
    CellWrite,
>)
    requires
        columns.len() < u32::MAX,
        rows.len() < u32::MAX - 1,
    ensures
        writes_view(plan@) == planned_writes(texts(columns@), rows_view(rows@), links@),
{
    let ghost cols = texts(columns@);
    let ghost rws = rows_view(rows@);
    let mut plan: Vec<CellWrite> = Vec::new();
    let ncols = columns.len();
    let mut c: usize = 0;
    assert(writes_view(plan@) =~= header_writes(cols, 0));
    while c < ncols
        invariant
            c <= ncols,
            ncols == columns.len(),
            ncols < u32::MAX,
            cols == texts(columns@),
            writes_view(plan@) == header_writes(cols, c as int),
        decreases ncols - c,
    {
        let w = CellWrite {
            col: (c + 1) as u32,
            row: 1,
            content: CellContent::Text(columns[c].clone()),
        };
        let ghost before = plan@;
        plan.push(w);
        assert(writes_view(plan@) =~= writes_view(before).push(w@));
        c += 1;
    }
    let ghost header = writes_view(plan@);
    let mut r: usize = 0;
    assert(header + data_writes(cols, rws, links@, 0) =~= header);
    while r < rows.len()
        invariant
            r <= rows.len(),
            rows.len() < u32::MAX - 1,
            ncols == columns.len(),
            ncols < u32::MAX,
            cols == texts(columns@),
            rws == rows_view(rows@),
            header == header_writes(cols, cols.len() as int),
            writes_view(plan@) == header + data_writes(cols, rws, links@, r as int),
        decreases rows.len() - r,
    {
        let row = &rows[r];
        let ghost done = writes_view(plan@);
        let mut c: usize = 0;
        assert(done + row_writes(cols, row@, r as int, links@, 0) =~= done);
        while c < ncols
            invariant
                c <= ncols,
                ncols == columns.len(),
                ncols < u32::MAX,
                r < rows.len(),
                rows.len() < u32::MAX - 1,
                row == &rows@[r as int],
                cols == texts(columns@),
                writes_view(plan@) == done + row_writes(cols, row@, r as int, links@, c as int),
            decreases ncols - c,
        {
            let name = &columns[c];
            assert(cols[c as int] == name@);
            match row.get(name.as_str()) {
                Some(value) => {
                    let content = content_for(value, links.get(name.as_str()));
                    let w = CellWrite { col: (c + 1) as u32, row: (r + 2) as u32, content };
                    let ghost before = plan@;
                    plan.push(w);
                    assert(writes_view(plan@) =~= writes_view(before).push(w@));
                    assert(done + row_writes(cols, row@, r as int, links@, c + 1) =~= (done
                        + row_writes(cols, row@, r as int, links@, c as int)).push(w@));
                },
                None => {},
            }
            c += 1;
        }
        assert(rws[r as int] == row@);
        assert(header + data_writes(cols, rws, links@, r + 1) =~= header + data_writes(
            cols,
            rws,
            links@,
            r as int,
        ) + row_writes(cols, row@, r as int, links@, cols.len() as int));
        r += 1;
    }
    plan
}

/// What has to be done to the workbook's sheets before writing.
#[derive(Clone, Copy, Debug, PartialEq, Eq)]
pub enum SheetAction {
    /// The target sheet exists: use it.
    Keep,
    /// The target is absent and a sheet named `Sheet1` exists: rename that one.
    RenameDefault,
    /// Neither exists: create the target sheet.
    Create,
}

/// Decides how the target sheet comes to exist, from the names of the sheets
/// that the workbook has.
pub fn sheet_action(sheet_names: &Vec<String>, target: &str) -> (r: SheetAction)
    ensures
        texts(sheet_names@).contains(target@) ==> r == SheetAction::Keep,
        !texts(sheet_names@).contains(target@) && texts(sheet_names@).contains("Sheet1"@) ==> r
            == SheetAction::RenameDefault,
        !texts(sheet_names@).contains(target@) && !texts(sheet_names@).contains("Sheet1"@) ==> r
            == SheetAction::Create,
{
    let mut has_target = false;
    let mut has_default = false;
    let mut i: usize = 0;
    while i < sheet_names.len()
        invariant
            i <= sheet_names.len(),
            has_target == texts(sheet_names@).subrange(0, i as int).contains(target@),
            has_default == texts(sheet_names@).subrange(0, i as int).contains("Sheet1"@),
        decreases sheet_names.len() - i,
    {
        let ghost before = texts(sheet_names@).subrange(0, i as int);
        let ghost after = texts(sheet_names@).subrange(0, i + 1);
        assert(after =~= before.push(sheet_names@[i as int]@));
        assert(forall|k: Seq<char>|
            after.contains(k) <==> before.contains(k) || k == sheet_names@[i as int]@) by {
            assert(after.last() == sheet_names@[i as int]@);
            assert forall|k: Seq<char>| before.contains(k) implies after.contains(k) by {
                let j = choose|j: int| 0 <= j < before.len() && before[j] == k;
                assert(after[j] == k);
            }
        }
        if same_text(sheet_names[i].as_str(), target) {
            has_target = true;
        }
        if same_text(sheet_names[i].as_str(), "Sheet1") {
            has_default = true;
        }
        i += 1;
    }
    assert(texts(sheet_names@).subrange(0, sheet_names@.len() as int) == texts(sheet_names@));
    if has_target {
        SheetAction::Keep
    } else if has_default {
        SheetAction::RenameDefault
    } else {
        SheetAction::Create
    }
}

} // verus!
