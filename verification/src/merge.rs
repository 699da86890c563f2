//! Composite keys and the upsert merge.
//!
//! A row's key joins the string forms of its key fields. New records are
//! merged into the prior rows one by one, in arrival order: a record whose key
//! some row already has replaces the last such row, where that row stands;
//! any other record is appended.

use crate::record::{canonical_text, rows_view, Row, RowView};
use crate::text::texts;
use vstd::hash_map::StringHashMap;
use vstd::prelude::*;
use vstd::string::*;

verus! {

/// The separator between the parts of a key: the unit separator, a control
/// character that field values are taken not to hold.
pub open spec fn key_separator() -> Seq<char> {
    "\u{1F}"@
}

/// Whether the row has a value other than null under each of the first `upto`
/// key fields.
pub open spec fn has_key_values(row: RowView, key_fields: Seq<Seq<char>>, upto: int) -> bool {
    forall|i: int|
        0 <= i < upto ==> row.dom().contains(#[trigger] key_fields[i]) && !(row[key_fields[i]]
            is Null)
}

/// The string forms of the row's values under the first `upto` key fields,
/// joined by the separator.
pub open spec fn joined_key(row: RowView, key_fields: Seq<Seq<char>>, upto: int) -> Seq<char>
    decreases upto,
{
    if upto <= 0 {
        Seq::empty()
    } else if upto == 1 {
        canonical_text(row[key_fields[0]])
    } else {
        joined_key(row, key_fields, upto - 1) + key_separator() + canonical_text(
            row[key_fields[upto - 1]],
        )
    }
}

/// The key of a row: none where no key field is configured, none where the row
/// lacks a key field or holds null under one.
pub open spec fn composite_key(row: RowView, key_fields: Seq<Seq<char>>) -> Option<Seq<char>> {
    if key_fields.len() > 0 && has_key_values(row, key_fields, key_fields.len() as int) {
        Some(joined_key(row, key_fields, key_fields.len() as int))
    } else {
        None
    }
}

/// Builds the key of a row from the configured key fields, in their order.
pub fn composite_pk(row: &Row, pk_cols: &[String]) -> (key: Option<String>)
    ensures
        match key {
            Some(k) => composite_key(row@, texts(pk_cols@)) == Some(k@),
            None => composite_key(row@, texts(pk_cols@)) is None,
        },
{
    let ghost fields = texts(pk_cols@);
    if pk_cols.len() == 0 {
        return None;
    }
    let mut key = String::new();
    let mut i: usize = 0;
    while i < pk_cols.len()
        invariant
            i <= pk_cols.len(),
            fields == texts(pk_cols@),
            has_key_values(row@, fields, i as int),
            key@ == joined_key(row@, fields, i as int),
        decreases pk_cols.len() - i,
    {
        assert(fields[i as int] == pk_cols@[i as int]@);
        match row.get(pk_cols[i].as_str()) {
            None => {
                return None;
            },
            Some(value) => {
                if value.is_null() {
                    return None;
                }
                if i > 0 {
                    key.append("\u{1F}");
                }
                let part = value.canonical();
                key.append(part.as_str());
                assert(key@ =~= joined_key(row@, fields, i + 1));
            },
        }
        i += 1;
    }
    Some(key)
}

/// For each key that some row has, the position of the last row with it.
pub open spec fn key_positions(rows: Seq<RowView>, key_fields: Seq<Seq<char>>) -> Map<
    Seq<char>,
    int,
>
    decreases rows.len(),
{
    if rows.len() == 0 {
        Map::empty()
    } else {
        let before = key_positions(rows.drop_last(), key_fields);
        match composite_key(rows.last(), key_fields) {
            Some(k) => before.insert(k, rows.len() - 1),
            None => before,
        }
    }
}

/// One step of the merge: the record replaces the last row that has its key, or
/// is appended where it has no key or no row has it.
pub open spec fn upsert(rows: Seq<RowView>, record: RowView, key_fields: Seq<Seq<char>>) -> Seq<
    RowView,
> {
    match composite_key(record, key_fields) {
        Some(k) => {
            let index = key_positions(rows, key_fields);
            if index.dom().contains(k) {
                rows.update(index[k], record)
            } else {
                rows.push(record)
            }
        },
        None => rows.push(record),
    }
}

/// The prior rows with the records merged in, one after the other.
pub open spec fn merged(prior: Seq<RowView>, records: Seq<RowView>, key_fields: Seq<Seq<char>>) -> Seq<
    RowView,
>
    decreases records.len(),
{
    if records.len() == 0 {
        prior
    } else {
        upsert(merged(prior, records.drop_last(), key_fields), records.last(), key_fields)
    }
}

/// Every indexed position is that of a row with the indexed key.
proof fn lemma_key_positions(rows: Seq<RowView>, key_fields: Seq<Seq<char>>)
    ensures
        forall|k: Seq<char>| #[trigger]
            key_positions(rows, key_fields).dom().contains(k) ==> {
                let p = key_positions(rows, key_fields)[k];
                0 <= p < rows.len() && composite_key(rows[p], key_fields) == Some(k)
            },
        forall|i: int|
            0 <= i < rows.len() && composite_key(#[trigger] rows[i], key_fields) is Some
                ==> key_positions(rows, key_fields).dom().contains(
                composite_key(rows[i], key_fields)->0,
            ) && key_positions(rows, key_fields)[composite_key(rows[i], key_fields)->0] >= i,
    decreases rows.len(),
{
    if rows.len() > 0 {
        let t = rows.drop_last();
        lemma_key_positions(t, key_fields);
        assert forall|i: int|
            0 <= i < rows.len() && composite_key(
                #[trigger] rows[i],
                key_fields,
            ) is Some implies key_positions(rows, key_fields).dom().contains(
            composite_key(rows[i], key_fields)->0,
        ) && key_positions(rows, key_fields)[composite_key(rows[i], key_fields)->0] >= i by {
            if i < rows.len() - 1 {
                assert(t[i] == rows[i]);
            }
        }
        assert forall|k: Seq<char>| #[trigger]
            key_positions(rows, key_fields).dom().contains(k) implies {
            let p = key_positions(rows, key_fields)[k];
            0 <= p < rows.len() && composite_key(rows[p], key_fields) == Some(k)
        } by {
            let p = key_positions(rows, key_fields)[k];
            if composite_key(rows.last(), key_fields) == Some(k) {
            } else {
                assert(key_positions(t, key_fields).dom().contains(k));
                assert(t[p] == rows[p]);
            }
        }
    }
}

/// Replacing a row by one with the same key leaves every key where it was.
proof fn lemma_key_positions_update(
    rows: Seq<RowView>,
    key_fields: Seq<Seq<char>>,
    p: int,
    record: RowView,
)
    requires
        0 <= p < rows.len(),
        composite_key(record, key_fields) == composite_key(rows[p], key_fields),
    ensures
        key_positions(rows.update(p, record), key_fields) == key_positions(rows, key_fields),
    decreases rows.len(),
{
    let u = rows.update(p, record);
    if p == rows.len() - 1 {
        assert(u.drop_last() =~= rows.drop_last());
    } else {
        lemma_key_positions_update(rows.drop_last(), key_fields, p, record);
        assert(u.drop_last() =~= rows.drop_last().update(p, record));
    }
}

/// Merging keeps the prior rows in place. No row is lost or moved; each keeps
/// its key and is either what it was or a record that replaced it; and what
/// follows the prior rows are records.
pub proof fn merged_keeps_prior_rows(
    prior: Seq<RowView>,
    records: Seq<RowView>,
    key_fields: Seq<Seq<char>>,
)
    ensures
        prior.len() <= merged(prior, records, key_fields).len() <= prior.len() + records.len(),
        forall|p: int|
            0 <= p < prior.len() ==> {
                let row = #[trigger] merged(prior, records, key_fields)[p];
                &&& composite_key(row, key_fields) == composite_key(prior[p], key_fields)
                &&& row == prior[p] || records.contains(row)
            },
        forall|p: int|
            prior.len() <= p < merged(prior, records, key_fields).len() ==> records.contains(
                #[trigger] merged(prior, records, key_fields)[p],
            ),
    decreases records.len(),
{
    if records.len() > 0 {
        let t = records.drop_last();
        let r = records.last();
        let before = merged(prior, t, key_fields);
        let m = merged(prior, records, key_fields);
        merged_keeps_prior_rows(prior, t, key_fields);
        lemma_key_positions(before, key_fields);
        assert(records.contains(r)) by {
            assert(records[records.len() - 1] == r);
        }
        assert forall|x: RowView| t.contains(x) implies records.contains(x) by {
            let j = choose|j: int| 0 <= j < t.len() && t[j] == x;
            assert(records[j] == x);
        }
        assert forall|p: int| 0 <= p < prior.len() implies {
            let row = #[trigger] m[p];
            &&& composite_key(row, key_fields) == composite_key(prior[p], key_fields)
            &&& row == prior[p] || records.contains(row)
        } by {
            let row = before[p];
            assert(row == prior[p] || t.contains(row));
        }
        assert forall|p: int| prior.len() <= p < m.len() implies records.contains(
            #[trigger] m[p],
        ) by {
            if p < before.len() {
                assert(t.contains(before[p]));
            }
        }
    }
}

/// A prior row whose key no record has stays as it is.
pub proof fn merged_leaves_unmatched_row(
    prior: Seq<RowView>,
    records: Seq<RowView>,
    key_fields: Seq<Seq<char>>,
    p: int,
)
    requires
        0 <= p < prior.len(),
        forall|j: int|
            0 <= j < records.len() ==> composite_key(#[trigger] records[j], key_fields) is None
                || composite_key(records[j], key_fields) != composite_key(prior[p], key_fields),
    ensures
        p < merged(prior, records, key_fields).len(),
        merged(prior, records, key_fields)[p] == prior[p],
    decreases records.len(),
{
    if records.len() > 0 {
        let t = records.drop_last();
        let before = merged(prior, t, key_fields);
        assert forall|j: int| 0 <= j < t.len() implies composite_key(
            #[trigger] t[j],
            key_fields,
        ) is None || composite_key(t[j], key_fields) != composite_key(prior[p], key_fields) by {
            assert(t[j] == records[j]);
        }
        merged_leaves_unmatched_row(prior, t, key_fields, p);
        merged_keeps_prior_rows(prior, t, key_fields);
        lemma_key_positions(before, key_fields);
        assert(composite_key(records[records.len() - 1], key_fields) is None || composite_key(
            records[records.len() - 1],
            key_fields,
        ) != composite_key(prior[p], key_fields));
        assert(composite_key(before[p], key_fields) == composite_key(prior[p], key_fields));
    }
}

/// Every record has a key.
pub open spec fn all_keyed(records: Seq<RowView>, key_fields: Seq<Seq<char>>) -> bool {
    forall|j: int| 0 <= j < records.len() ==> composite_key(#[trigger] records[j], key_fields) is Some
}

/// The last of the records that has the key `k`, if any has.
pub open spec fn latest_with_key(records: Seq<RowView>, key_fields: Seq<Seq<char>>, k: Seq<char>) -> Option<
    RowView,
>
    decreases records.len(),
{
    if records.len() == 0 {
        None
    } else if composite_key(records.last(), key_fields) == Some(k) {
        Some(records.last())
    } else {
        latest_with_key(records.drop_last(), key_fields, k)
    }
}

/// Last writer wins: after a merge, the row found under the key of a record
/// is the last record that has this key.
pub proof fn merged_holds_latest_record(
    prior: Seq<RowView>,
    records: Seq<RowView>,
    key_fields: Seq<Seq<char>>,
)
    ensures
        forall|k: Seq<char>| #[trigger]
            latest_with_key(records, key_fields, k) is Some ==> {
                let m = merged(prior, records, key_fields);
                let index = key_positions(m, key_fields);
                index.dom().contains(k) && 0 <= index[k] < m.len() && m[index[k]]
                    == latest_with_key(records, key_fields, k)->0
            },
    decreases records.len(),
{
    if records.len() > 0 {
        let t = records.drop_last();
        let r = records.last();
        let before = merged(prior, t, key_fields);
        let m = merged(prior, records, key_fields);
        merged_holds_latest_record(prior, t, key_fields);
        lemma_key_positions(before, key_fields);
        let old_index = key_positions(before, key_fields);
        match composite_key(r, key_fields) {
            Some(kr) => {
                if old_index.dom().contains(kr) {
                    let p = old_index[kr];
                    lemma_key_positions_update(before, key_fields, p, r);
                    assert forall|k: Seq<char>| #[trigger]
                        latest_with_key(records, key_fields, k) is Some implies {
                        let index = key_positions(m, key_fields);
                        index.dom().contains(k) && 0 <= index[k] < m.len() && m[index[k]]
                            == latest_with_key(records, key_fields, k)->0
                    } by {
                        if k != kr {
                            assert(latest_with_key(t, key_fields, k) is Some);
                            assert(old_index[k] != p);
                        }
                    }
                } else {
                    assert(m.drop_last() =~= before);
                    assert forall|k: Seq<char>| #[trigger]
                        latest_with_key(records, key_fields, k) is Some implies {
                        let index = key_positions(m, key_fields);
                        index.dom().contains(k) && 0 <= index[k] < m.len() && m[index[k]]
                            == latest_with_key(records, key_fields, k)->0
                    } by {
                        if k != kr {
                            assert(latest_with_key(t, key_fields, k) is Some);
                        }
                    }
                }
            },
            None => {
                assert(m.drop_last() =~= before);
                assert forall|k: Seq<char>| #[trigger]
                    latest_with_key(records, key_fields, k) is Some implies {
                    let index = key_positions(m, key_fields);
                    index.dom().contains(k) && 0 <= index[k] < m.len() && m[index[k]]
                        == latest_with_key(records, key_fields, k)->0
                } by {
                    assert(latest_with_key(t, key_fields, k) is Some);
                }
            },
        }
    }
}

/// What a second merge does to rows that already hold every key of the
/// records: nothing is appended, and a row changes only where it is the
/// indexed row of a record's key, to the last record with that key.
proof fn lemma_merge_over_known_keys(
    rows: Seq<RowView>,
    records: Seq<RowView>,
    key_fields: Seq<Seq<char>>,
)
    requires
        all_keyed(records, key_fields),
        forall|k: Seq<char>| #[trigger]
            latest_with_key(records, key_fields, k) is Some ==> key_positions(
                rows,
                key_fields,
            ).dom().contains(k),
    ensures
        merged(rows, records, key_fields).len() == rows.len(),
        key_positions(merged(rows, records, key_fields), key_fields) == key_positions(
            rows,
            key_fields,
        ),
        forall|p: int|
            0 <= p < rows.len() ==> #[trigger] merged(rows, records, key_fields)[p] == {
                let key = composite_key(rows[p], key_fields);
                if key is Some && latest_with_key(records, key_fields, key->0) is Some
                    && key_positions(rows, key_fields)[key->0] == p {
                    latest_with_key(records, key_fields, key->0)->0
                } else {
                    rows[p]
                }
            },
    decreases records.len(),
{
    if records.len() > 0 {
        let t = records.drop_last();
        let r = records.last();
        let before = merged(rows, t, key_fields);
        let m = merged(rows, records, key_fields);
        let index = key_positions(rows, key_fields);
        assert forall|k: Seq<char>| #[trigger]
            latest_with_key(t, key_fields, k) is Some implies index.dom().contains(k) by {
            assert(latest_with_key(records, key_fields, k) is Some);
        }
        assert(all_keyed(t, key_fields)) by {
            assert forall|j: int| 0 <= j < t.len() implies composite_key(
                #[trigger] t[j],
                key_fields,
            ) is Some by {
                assert(t[j] == records[j]);
            }
        }
        lemma_merge_over_known_keys(rows, t, key_fields);
        lemma_key_positions(rows, key_fields);
        assert(composite_key(records[records.len() - 1], key_fields) is Some);
        match composite_key(r, key_fields) {
            Some(kr) => {
                assert(latest_with_key(records, key_fields, kr) is Some);
                let p = index[kr];
                assert(composite_key(rows[p], key_fields) == Some(kr));
                assert(composite_key(before[p], key_fields) == Some(kr)) by {
                    if latest_with_key(t, key_fields, kr) is Some {
                        lemma_latest_has_key(t, key_fields, kr);
                    }
                }
                lemma_key_positions_update(before, key_fields, p, r);
                assert forall|q: int| 0 <= q < rows.len() implies #[trigger] m[q] == {
                    let key = composite_key(rows[q], key_fields);
                    if key is Some && latest_with_key(records, key_fields, key->0) is Some
                        && index[key->0] == q {
                        latest_with_key(records, key_fields, key->0)->0
                    } else {
                        rows[q]
                    }
                } by {
                    if q != p {
                        assert(m[q] == before[q]);
                    }
                }
            },
            None => {},
        }
    }
}

proof fn lemma_latest_has_key(records: Seq<RowView>, key_fields: Seq<Seq<char>>, k: Seq<char>)
    requires
        latest_with_key(records, key_fields, k) is Some,
    ensures
        composite_key(latest_with_key(records, key_fields, k)->0, key_fields) == Some(k),
    decreases records.len(),
{
    if records.len() > 0 && composite_key(records.last(), key_fields) != Some(k) {
        lemma_latest_has_key(records.drop_last(), key_fields, k);
    }
}

/// Upsert is idempotent on keyed records: merging the same records a second
/// time changes nothing, neither the number of rows nor any row.
///
/// The records must each have a key: one without a key is appended by every
/// merge.
pub proof fn merge_is_idempotent(
    prior: Seq<RowView>,
    records: Seq<RowView>,
    key_fields: Seq<Seq<char>>,
)
    requires
        all_keyed(records, key_fields),
    ensures
        merged(merged(prior, records, key_fields), records, key_fields) == merged(
            prior,
            records,
            key_fields,
        ),
{
    let once = merged(prior, records, key_fields);
    let twice = merged(once, records, key_fields);
    merged_holds_latest_record(prior, records, key_fields);
    lemma_merge_over_known_keys(once, records, key_fields);
    assert(twice =~= once);
}

/// The executable index stands for `key_positions` of the rows.
spec fn index_matches(index: Map<Seq<char>, usize>, positions: Map<Seq<char>, int>) -> bool {
    &&& forall|k: Seq<char>| index.dom().contains(k) <==> positions.dom().contains(k)
    &&& forall|k: Seq<char>| index.dom().contains(k) ==> index[k] as int == positions[k]
}

/// Merges new records into the prior rows by composite key.
///
/// Rows that are not matched stay as and where they are; a matched row is
/// replaced whole by the record, at its position; appended records follow the
/// prior rows in arrival order. Of two records with one key the later wins.
pub fn merge_rows(prior: Vec<Row>, records: Vec<Row>, key_fields: &[String]) -> (rows: Vec<Row>)
    ensures
        rows_view(rows@) == merged(rows_view(prior@), rows_view(records@), texts(key_fields@)),
{
    let ghost fields = texts(key_fields@);
    let ghost prior_view = rows_view(prior@);
    let ghost record_views = rows_view(records@);
    let mut rows = prior;
    // key to the position of the last row that has it
    let mut index: StringHashMap<usize> = StringHashMap::new();
    let mut i: usize = 0;
    assert(rows_view(rows@).subrange(0, 0) =~= Seq::<RowView>::empty());
    while i < rows.len()
        invariant
            i <= rows.len(),
            fields == texts(key_fields@),
            rows_view(rows@) == prior_view,
            index_matches(index@, key_positions(rows_view(rows@).subrange(0, i as int), fields)),
        decreases rows.len() - i,
    {
        assert(rows_view(rows@).subrange(0, i + 1).drop_last() == rows_view(rows@).subrange(
            0,
            i as int,
        ));
        assert(rows_view(rows@).subrange(0, i + 1).last() == rows@[i as int]@);
        match composite_pk(&rows[i], key_fields) {
            Some(k) => {
                index.insert(k, i);
            },
            None => {},
        }
        i += 1;
    }
    assert(rows_view(rows@).subrange(0, rows@.len() as int) == rows_view(rows@));
    let mut records = records;
    let total = records.len();
    let mut pending: Vec<Row> = Vec::new();
    // move the records out one by one, first to last
    while records.len() > 0
        invariant
            records@.len() + pending@.len() == total,
            total == record_views.len(),
            forall|j: int|
                0 <= j < records@.len() ==> (#[trigger] records@[j])@ == record_views[j],
            forall|j: int|
                0 <= j < pending@.len() ==> (#[trigger] pending@[j])@ == record_views[total - 1
                    - j],
        decreases records.len(),
    {
        let rec = records.pop().unwrap();
        pending.push(rec);
    }
    let mut done: usize = 0;
    assert(record_views.subrange(0, 0) =~= Seq::<RowView>::empty());
    while pending.len() > 0
        invariant
            done + pending@.len() == total,
            total == record_views.len(),
            fields == texts(key_fields@),
            forall|j: int|
                0 <= j < pending@.len() ==> (#[trigger] pending@[j])@ == record_views[total - 1
                    - j],
            rows_view(rows@) == merged(prior_view, record_views.subrange(0, done as int), fields),
            index_matches(index@, key_positions(rows_view(rows@), fields)),
        decreases pending.len(),
    {
        let rec = pending.pop().unwrap();
        let ghost before = rows@;
        proof {
            assert(rec@ == record_views[done as int]);
            assert(record_views.subrange(0, done + 1).drop_last() == record_views.subrange(
                0,
                done as int,
            ));
            assert(record_views.subrange(0, done + 1).last() == rec@);
            lemma_key_positions(rows_view(before), fields);
        }
        match composite_pk(&rec, key_fields) {
            Some(k) => {
                match index.get(k.as_str()) {
                    Some(p) => {
                        let at = *p;
                        proof {
                            lemma_key_positions_update(rows_view(before), fields, at as int, rec@);
                        }
                        rows.set(at, rec);
                        assert(rows_view(rows@) =~= rows_view(before).update(at as int, rec@));
                    },
                    None => {
                        index.insert(k, rows.len());
                        rows.push(rec);
                        assert(rows_view(rows@) =~= rows_view(before).push(rec@));
                        assert(rows_view(rows@).drop_last() =~= rows_view(before));
                    },
                }
            },
            None => {
                rows.push(rec);
                assert(rows_view(rows@) =~= rows_view(before).push(rec@));
                assert(rows_view(rows@).drop_last() =~= rows_view(before));
            },
        }
        done += 1;
    }
    assert(record_views.subrange(0, total as int) == record_views);
    rows
}

} // verus!
