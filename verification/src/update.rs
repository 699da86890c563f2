//! One run of the upsert, from the prior table and the new records to the
//! cell writes: merge, then resolve the columns, then plan the writes.

use crate::columns::{resolve_columns, resolved_columns};
use crate::policy::{
    check_policy,
    offending_pattern,
    policy_is_valid,
    ColumnPolicy,
    InvalidPattern,
};
use crate::fields::{field_names, field_union};
use crate::merge::{merge_rows, merged};
use crate::pattern::pattern_is_valid;
use crate::record::{rows_view, Row};
use crate::text::texts;
use crate::writeback::{plan_writes, planned_writes, writes_view, CellWrite, HyperlinkMap};
use vstd::prelude::*;

verus! {

/// What one run leaves to be written.
#[derive(Debug)]
pub struct Update {
    /// The merged rows, in sheet order.
    pub rows: Vec<Row>,
    /// The final column list.
    pub columns: Vec<String>,
    /// The cell writes, header row first.
    pub writes: Vec<CellWrite>,
}

/// Why a run was refused before anything was planned.
#[derive(Clone, Debug, PartialEq, Eq)]
pub enum UpdateError {
    /// A pattern of the policy cannot be used.
    InvalidPattern(InvalidPattern),
    /// The table has more columns or rows than sheet coordinates can count.
    TooLarge,
}

/// The most columns that can be addressed: sheet columns count from 1 in 32 bits.
pub open spec fn max_columns() -> int {
    u32::MAX - 1
}

/// The most data rows that can be addressed: they start in sheet row 2.
pub open spec fn max_rows() -> int {
    u32::MAX - 2
}

/// Plans one run: merges the records into the prior rows by the policy's key
/// fields, resolves the column list from the prior headers and the field
/// names of the merged rows, and plans the cell writes.
///
/// The run is refused when a pattern of the policy cannot be used, whatever
/// the rows are, and otherwise only when the merged table is too large to be
/// addressed.
pub fn plan_update(
    headers: &[String],
    prior: Vec<Row>,
    records: Vec<Row>,
    policy: &ColumnPolicy,
    links: &HyperlinkMap,
) -> (res: Result<Update, UpdateError>)
    ensures
        match res {
            Ok(update) => {
                &&& policy_is_valid(policy@)
                &&& rows_view(update.rows@) == merged(
                    rows_view(prior@),
                    rows_view(records@),
                    policy@.key_fields,
                )
                &&& texts(update.columns@) == resolved_columns(
                    texts(headers@),
                    field_names(rows_view(update.rows@)),
                    policy@,
                )
                &&& writes_view(update.writes@) == planned_writes(
                    texts(update.columns@),
                    rows_view(update.rows@),
                    links@,
                )
                &&& update.columns@.len() <= max_columns()
                &&& update.rows@.len() <= max_rows()
            },
            Err(UpdateError::InvalidPattern(e)) => {
                &&& !policy_is_valid(policy@)
                &&& !pattern_is_valid(e.pattern@)
                &&& offending_pattern(policy@) == Some(e@)
            },
            Err(UpdateError::TooLarge) => {
                let rows = merged(rows_view(prior@), rows_view(records@), policy@.key_fields);
                &&& policy_is_valid(policy@)
                &&& rows.len() > max_rows() || resolved_columns(
                    texts(headers@),
                    field_names(rows),
                    policy@,
                ).len() > max_columns()
            },
        },
{
    match check_policy(policy) {
        Ok(_) => {},
        Err(e) => {
            return Err(UpdateError::InvalidPattern(e));
        },
    }
    let rows = merge_rows(prior, records, policy.key_fields.as_slice());
    let fields = field_union(rows.as_slice());
    let columns = match resolve_columns(headers, fields.as_slice(), policy) {
        Ok(columns) => columns,
        Err(e) => {
            return Err(UpdateError::InvalidPattern(e));
        },
    };
    if columns.len() >= 0xFFFF_FFFF || rows.len() >= 0xFFFF_FFFE {
        return Err(UpdateError::TooLarge);
    }
    let writes = plan_writes(&columns, &rows, links);
    Ok(Update { rows, columns, writes })
}

} // verus!
