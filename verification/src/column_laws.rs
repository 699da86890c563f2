//! What holds of every resolved column list: no name twice, every key field
//! present, pinned keys first, nothing that the inclusion predicate refuses.

use crate::columns::{
    absent_from,
    allowed_by,
    field_kept,
    header_kept,
    holding,
    matched_by,
    pinned_keys,
    resolved_columns,
    universe,
    with_exact,
    with_holding,
    with_matched,
    with_names,
    with_rest,
};
use crate::natural::{natural_sorted, natural_sorted_is_ordered_permutation};
use crate::policy::{allowed, PolicyView, RestMode};
use crate::seqs::lemma_filter_members;
use vstd::prelude::*;

verus! {

/// Adding names keeps what is there, in place, adds nothing twice, and ends
/// with exactly the names of both.
proof fn lemma_with_names(columns: Seq<Seq<char>>, names: Seq<Seq<char>>)
    ensures
        columns.no_duplicates() ==> with_names(columns, names).no_duplicates(),
        columns.len() <= with_names(columns, names).len(),
        with_names(columns, names).subrange(0, columns.len() as int) == columns,
        forall|k: Seq<char>| #[trigger]
            with_names(columns, names).contains(k) <==> columns.contains(k) || names.contains(k),
    decreases names.len(),
{
    if names.len() == 0 {
        assert(columns.subrange(0, columns.len() as int) =~= columns);
    } else {
        let t = names.drop_last();
        let before = with_names(columns, t);
        let after = with_names(columns, names);
        lemma_with_names(columns, t);
        assert(after.subrange(0, columns.len() as int) =~= before.subrange(
            0,
            columns.len() as int,
        ));
        assert forall|k: Seq<char>| #[trigger]
            after.contains(k) <==> columns.contains(k) || names.contains(k) by {
            if names.contains(k) {
                let j = choose|j: int| 0 <= j < names.len() && names[j] == k;
                if j < names.len() - 1 {
                    assert(t[j] == k);
                    assert(t.contains(k));
                }
            }
            if t.contains(k) {
                let j = choose|j: int| 0 <= j < t.len() && t[j] == k;
                assert(names[j] == k);
            }
            if before.contains(k) {
                let j = choose|j: int| 0 <= j < before.len() && before[j] == k;
                assert(after[j] == k);
            }
            if !before.contains(names.last()) {
                assert(after[before.len() as int] == names.last());
                if after.contains(k) && k != names.last() {
                    let j = choose|j: int| 0 <= j < after.len() && after[j] == k;
                    assert(before[j] == k);
                }
            }
            assert(names[names.len() - 1] == names.last());
        }
    }
}

/// The column list holds only names of `source` beside those it began with.
spec fn drawn_from(result: Seq<Seq<char>>, columns: Seq<Seq<char>>, source: Seq<Seq<char>>) -> bool {
    &&& columns.no_duplicates() ==> result.no_duplicates()
    &&& columns.len() <= result.len()
    &&& result.subrange(0, columns.len() as int) == columns
    &&& forall|k: Seq<char>| #[trigger] columns.contains(k) ==> result.contains(k)
    &&& forall|k: Seq<char>| #[trigger]
        result.contains(k) ==> columns.contains(k) || source.contains(k)
}

proof fn lemma_with_filtered(
    columns: Seq<Seq<char>>,
    candidates: Seq<Seq<char>>,
    pred: spec_fn(Seq<char>) -> bool,
)
    ensures
        drawn_from(with_names(columns, candidates.filter(pred)), columns, candidates),
        forall|k: Seq<char>| #[trigger]
            with_names(columns, candidates.filter(pred)).contains(k) ==> columns.contains(k)
                || pred(k),
{
    lemma_with_names(columns, candidates.filter(pred));
    lemma_filter_members(candidates, pred);
}

proof fn lemma_drawn_from_chain(
    a: Seq<Seq<char>>,
    b: Seq<Seq<char>>,
    c: Seq<Seq<char>>,
    source: Seq<Seq<char>>,
)
    requires
        drawn_from(b, a, source),
        drawn_from(c, b, source),
    ensures
        drawn_from(c, a, source),
{
    assert(c.subrange(0, a.len() as int) =~= b.subrange(0, a.len() as int));
}

proof fn lemma_with_matched(
    columns: Seq<Seq<char>>,
    candidates: Seq<Seq<char>>,
    patterns: Seq<Seq<char>>,
)
    ensures
        drawn_from(with_matched(columns, candidates, patterns), columns, candidates),
    decreases patterns.len(),
{
    if patterns.len() == 0 {
        assert(columns.subrange(0, columns.len() as int) =~= columns);
    } else {
        let before = with_matched(columns, candidates, patterns.drop_last());
        lemma_with_matched(columns, candidates, patterns.drop_last());
        lemma_with_filtered(before, candidates, matched_by(patterns.last()));
        lemma_drawn_from_chain(
            columns,
            before,
            with_matched(columns, candidates, patterns),
            candidates,
        );
    }
}

proof fn lemma_with_holding(
    columns: Seq<Seq<char>>,
    candidates: Seq<Seq<char>>,
    parts: Seq<Seq<char>>,
)
    ensures
        drawn_from(with_holding(columns, candidates, parts), columns, candidates),
    decreases parts.len(),
{
    if parts.len() == 0 {
        assert(columns.subrange(0, columns.len() as int) =~= columns);
    } else {
        let before = with_holding(columns, candidates, parts.drop_last());
        lemma_with_holding(columns, candidates, parts.drop_last());
        lemma_with_filtered(before, candidates, holding(parts.last()));
        lemma_drawn_from_chain(
            columns,
            before,
            with_holding(columns, candidates, parts),
            candidates,
        );
    }
}

proof fn lemma_sorted_members(s: Seq<Seq<char>>)
    ensures
        forall|k: Seq<char>| #[trigger] natural_sorted(s).contains(k) <==> s.contains(k),
{
    broadcast use vstd::seq_lib::group_to_multiset_ensures;

    natural_sorted_is_ordered_permutation(s);
    assert forall|k: Seq<char>| #[trigger] natural_sorted(s).contains(k) <==> s.contains(k) by {
        assert(natural_sorted(s).to_multiset().count(k) == s.to_multiset().count(k));
    }
}

proof fn lemma_with_rest(columns: Seq<Seq<char>>, candidates: Seq<Seq<char>>, mode: RestMode)
    ensures
        drawn_from(with_rest(columns, candidates, mode), columns, candidates),
{
    let rest = candidates.filter(absent_from(columns));
    lemma_filter_members(candidates, absent_from(columns));
    match mode {
        RestMode::Drop => {
            assert(columns.subrange(0, columns.len() as int) =~= columns);
        },
        RestMode::AlphabeticalNatural => {
            lemma_sorted_members(rest);
            lemma_with_names(columns, natural_sorted(rest));
        },
        RestMode::ExistingOrder => {
            lemma_with_names(columns, rest);
        },
    }
}

proof fn lemma_universe_is_allowed(headers: Seq<Seq<char>>, fields: Seq<Seq<char>>, p: PolicyView)
    ensures
        forall|k: Seq<char>| #[trigger] universe(headers, fields, p).contains(k) ==> allowed(p, k),
{
    let kept = headers.filter(header_kept(p));
    let more = fields.filter(field_kept(p, kept));
    lemma_filter_members(headers, header_kept(p));
    lemma_filter_members(fields, field_kept(p, kept));
    lemma_sorted_members(more);
    let u = universe(headers, fields, p);
    assert forall|k: Seq<char>| #[trigger] u.contains(k) implies allowed(p, k) by {
        let i = choose|i: int| 0 <= i < u.len() && u[i] == k;
        if i < kept.len() {
            assert(kept[i] == k);
            assert(kept.contains(k));
        } else {
            assert(natural_sorted(more)[i - kept.len()] == k);
            assert(natural_sorted(more).contains(k));
        }
    }
}

/// The stages before the key fields are appended at the end.
spec fn before_last_keys(headers: Seq<Seq<char>>, fields: Seq<Seq<char>>, p: PolicyView) -> Seq<
    Seq<char>,
> {
    let candidates = universe(headers, fields, p);
    let pinned = pinned_keys(p);
    with_rest(
        with_holding(
            with_matched(with_exact(pinned, p.order_exact, p), candidates, p.order_regex),
            candidates,
            p.order_substr,
        ),
        candidates,
        p.rest,
    )
}

proof fn lemma_stages(headers: Seq<Seq<char>>, fields: Seq<Seq<char>>, p: PolicyView)
    ensures
        ({
            let pinned = pinned_keys(p);
            let filled = before_last_keys(headers, fields, p);
            &&& pinned.no_duplicates()
            &&& filled.no_duplicates()
            &&& pinned.len() <= filled.len()
            &&& filled.subrange(0, pinned.len() as int) == pinned
            &&& forall|k: Seq<char>| #[trigger] pinned.contains(k) ==> filled.contains(k)
            &&& forall|k: Seq<char>| #[trigger] filled.contains(k) ==> allowed(p, k)
        }),
{
    let candidates = universe(headers, fields, p);
    let none = Seq::<Seq<char>>::empty();
    let pinned = pinned_keys(p);
    lemma_with_names(none, p.key_fields);
    let c1 = with_exact(pinned, p.order_exact, p);
    let c2 = with_matched(c1, candidates, p.order_regex);
    let c3 = with_holding(c2, candidates, p.order_substr);
    let c4 = with_rest(c3, candidates, p.rest);
    lemma_with_filtered(pinned, p.order_exact, allowed_by(p));
    lemma_with_matched(c1, candidates, p.order_regex);
    lemma_with_holding(c2, candidates, p.order_substr);
    lemma_with_rest(c3, candidates, p.rest);
    lemma_universe_is_allowed(headers, fields, p);
    assert(c4.subrange(0, pinned.len() as int) =~= pinned) by {
        assert(c2.subrange(0, pinned.len() as int) =~= c1.subrange(0, pinned.len() as int));
        assert(c3.subrange(0, pinned.len() as int) =~= c2.subrange(0, pinned.len() as int));
        assert(c4.subrange(0, pinned.len() as int) =~= c3.subrange(0, pinned.len() as int));
    }
    assert forall|k: Seq<char>| #[trigger] c4.contains(k) implies allowed(p, k) by {
        if !candidates.contains(k) {
            assert(c3.contains(k));
            assert(c2.contains(k));
            assert(c1.contains(k));
            if pinned.contains(k) {
                assert(p.key_fields.contains(k));
            }
        }
    }
}

/// Uniqueness: the final column list never holds a name twice.
pub proof fn resolved_columns_are_unique(
    headers: Seq<Seq<char>>,
    fields: Seq<Seq<char>>,
    p: PolicyView,
)
    ensures
        resolved_columns(headers, fields, p).no_duplicates(),
{
    lemma_stages(headers, fields, p);
    lemma_with_names(before_last_keys(headers, fields, p), p.key_fields);
}

/// Key exemption: whatever the inclusion filters are, every configured key
/// field is in the final column list, and there once.
pub proof fn resolved_columns_hold_keys(
    headers: Seq<Seq<char>>,
    fields: Seq<Seq<char>>,
    p: PolicyView,
)
    ensures
        forall|k: Seq<char>| #[trigger]
            p.key_fields.contains(k) ==> resolved_columns(headers, fields, p).contains(k),
        resolved_columns(headers, fields, p).no_duplicates(),
{
    lemma_stages(headers, fields, p);
    let pinned = with_names(Seq::<Seq<char>>::empty(), p.key_fields);
    let filled = before_last_keys(headers, fields, p);
    lemma_with_names(Seq::<Seq<char>>::empty(), p.key_fields);
    lemma_with_names(filled, p.key_fields);
    assert forall|k: Seq<char>| #[trigger] p.key_fields.contains(k) implies resolved_columns(
        headers,
        fields,
        p,
    ).contains(k) by {
        if p.pin_first {
            assert(pinned.contains(k));
        } else {
            assert(with_names(filled, p.key_fields).contains(k));
        }
    }
}

/// With the key fields pinned first, the final column list begins with them,
/// in configured order, each at its first mention.
pub proof fn pinned_keys_come_first(
    headers: Seq<Seq<char>>,
    fields: Seq<Seq<char>>,
    p: PolicyView,
)
    requires
        p.pin_first,
    ensures
        with_names(Seq::empty(), p.key_fields).len() <= resolved_columns(headers, fields, p).len(),
        resolved_columns(headers, fields, p).subrange(
            0,
            with_names(Seq::empty(), p.key_fields).len() as int,
        ) == with_names(Seq::empty(), p.key_fields),
{
    lemma_stages(headers, fields, p);
}

/// Nothing but key fields gets past the inclusion predicate: every name of
/// the final column list is allowed by the policy.
pub proof fn resolved_columns_are_allowed(
    headers: Seq<Seq<char>>,
    fields: Seq<Seq<char>>,
    p: PolicyView,
)
    ensures
        forall|k: Seq<char>| #[trigger]
            resolved_columns(headers, fields, p).contains(k) ==> allowed(p, k),
{
    lemma_stages(headers, fields, p);
    lemma_with_names(before_last_keys(headers, fields, p), p.key_fields);
}

} // verus!
