//! The column resolver: which columns the sheet gets, and in what order.
//!
//! The candidates, called the universe, are the prior headers followed by the
//! field names that the headers lack, the latter in natural order. Key fields
//! are no candidates: they are placed on their own, always, first or last.
//! The final list takes, each name once: the key fields if they are pinned
//! first; the names of the explicit order list; the candidates that each
//! order pattern matches; the candidates that hold each order substring; the
//! remaining candidates as the remainder mode says; and the key fields if
//! they are not pinned first.

use crate::column_laws::{resolved_columns_are_allowed, resolved_columns_hold_keys};
use crate::natural::{natural_sorted, sort_natural};
use crate::pattern::{all_patterns_valid, fully_matches, matches_fully, pattern_is_valid};
use crate::policy::{
    allowed,
    check_policy,
    is_allowed,
    name_in,
    offending_pattern,
    policy_is_valid,
    ColumnPolicy,
    InvalidPattern,
    PolicyView,
    RestMode,
};
use crate::seqs::{lemma_filter_next, lemma_filter_start};
use crate::text::{contains_text, is_blank, is_blank_text, occurs_in, texts};
use vstd::hash_set::StringHashSet;
use vstd::prelude::*;

verus! {

/// The inclusion predicate of the policy, as a condition on names.
pub open spec fn allowed_by(p: PolicyView) -> spec_fn(Seq<char>) -> bool {
    |name: Seq<char>| allowed(p, name)
}

/// Which prior headers are candidates: those that are not blank, no key
/// field, and allowed.
pub open spec fn header_kept(p: PolicyView) -> spec_fn(Seq<char>) -> bool {
    |name: Seq<char>| !is_blank(name) && !p.key_fields.contains(name) && allowed(p, name)
}

/// Which field names are candidates beside the kept headers.
pub open spec fn field_kept(p: PolicyView, kept_headers: Seq<Seq<char>>) -> spec_fn(
    Seq<char>,
) -> bool {
    |name: Seq<char>|
        !p.key_fields.contains(name) && allowed(p, name) && !kept_headers.contains(name)
}

/// The names that the pattern matches whole.
pub open spec fn matched_by(pattern: Seq<char>) -> spec_fn(Seq<char>) -> bool {
    |name: Seq<char>| fully_matches(pattern, name)
}

/// The names that hold `part`.
pub open spec fn holding(part: Seq<char>) -> spec_fn(Seq<char>) -> bool {
    |name: Seq<char>| occurs_in(name, part)
}

/// The names that `columns` does not hold.
pub open spec fn absent_from(columns: Seq<Seq<char>>) -> spec_fn(Seq<char>) -> bool {
    |name: Seq<char>| !columns.contains(name)
}

/// The candidates: the kept headers in their order, then the kept field names
/// in natural order.
pub open spec fn universe(headers: Seq<Seq<char>>, fields: Seq<Seq<char>>, p: PolicyView) -> Seq<
    Seq<char>,
> {
    let kept = headers.filter(header_kept(p));
    kept + natural_sorted(fields.filter(field_kept(p, kept)))
}

/// `columns` with `name` at the end, unless it is in there already.
pub open spec fn with_name(columns: Seq<Seq<char>>, name: Seq<char>) -> Seq<Seq<char>> {
    if columns.contains(name) {
        columns
    } else {
        columns.push(name)
    }
}

/// `columns` with each of `names` added in turn, unless it is in there already.
pub open spec fn with_names(columns: Seq<Seq<char>>, names: Seq<Seq<char>>) -> Seq<Seq<char>>
    decreases names.len(),
{
    if names.len() == 0 {
        columns
    } else {
        with_name(with_names(columns, names.drop_last()), names.last())
    }
}

/// The explicit order stage: the listed names that are allowed.
pub open spec fn with_exact(columns: Seq<Seq<char>>, names: Seq<Seq<char>>, p: PolicyView) -> Seq<
    Seq<char>,
> {
    with_names(columns, names.filter(allowed_by(p)))
}

/// The pattern stage: for each pattern in turn, the candidates it matches.
pub open spec fn with_matched(
    columns: Seq<Seq<char>>,
    candidates: Seq<Seq<char>>,
    patterns: Seq<Seq<char>>,
) -> Seq<Seq<char>>
    decreases patterns.len(),
{
    if patterns.len() == 0 {
        columns
    } else {
        with_names(
            with_matched(columns, candidates, patterns.drop_last()),
            candidates.filter(matched_by(patterns.last())),
        )
    }
}

/// The substring stage: for each substring in turn, the candidates that hold it.
pub open spec fn with_holding(
    columns: Seq<Seq<char>>,
    candidates: Seq<Seq<char>>,
    parts: Seq<Seq<char>>,
) -> Seq<Seq<char>>
    decreases parts.len(),
{
    if parts.len() == 0 {
        columns
    } else {
        with_names(
            with_holding(columns, candidates, parts.drop_last()),
            candidates.filter(holding(parts.last())),
        )
    }
}

/// The remainder stage.
pub open spec fn with_rest(columns: Seq<Seq<char>>, candidates: Seq<Seq<char>>, mode: RestMode) -> Seq<
    Seq<char>,
> {
    match mode {
        RestMode::Drop => columns,
        RestMode::AlphabeticalNatural => with_names(
            columns,
            natural_sorted(candidates.filter(absent_from(columns))),
        ),
        RestMode::ExistingOrder => with_names(columns, candidates.filter(absent_from(columns))),
    }
}

/// The key fields that open the list: all of them where they are pinned
/// first, none otherwise.
pub open spec fn pinned_keys(p: PolicyView) -> Seq<Seq<char>> {
    if p.pin_first {
        with_names(Seq::empty(), p.key_fields)
    } else {
        Seq::empty()
    }
}

/// The final column list for the given prior headers, field names and policy.
pub open spec fn resolved_columns(
    headers: Seq<Seq<char>>,
    fields: Seq<Seq<char>>,
    p: PolicyView,
) -> Seq<Seq<char>> {
    let candidates = universe(headers, fields, p);
    let pinned = pinned_keys(p);
    let ordered = with_holding(
        with_matched(with_exact(pinned, p.order_exact, p), candidates, p.order_regex),
        candidates,
        p.order_substr,
    );
    let filled = with_rest(ordered, candidates, p.rest);
    if p.pin_first {
        filled
    } else {
        with_names(filled, p.key_fields)
    }
}

/// A column list in the making: names in order, none of them twice.
pub struct ColumnList {
    names: Vec<String>,
    /// The names held, for a quick look-up.
    seen: StringHashSet,
}

impl View for ColumnList {
    type V = Seq<Seq<char>>;

    closed spec fn view(&self) -> Seq<Seq<char>> {
        texts(self.names@)
    }
}

impl ColumnList {
    #[verifier::type_invariant]
    spec fn holds_each_name_once(self) -> bool {
        &&& texts(self.names@).no_duplicates()
        &&& forall|k: Seq<char>| self.seen@.contains(k) <==> texts(self.names@).contains(k)
    }

    /// The empty list.
    pub fn new() -> (r: Self)
        ensures
            r@ == Seq::<Seq<char>>::empty(),
    {
        let r = ColumnList { names: Vec::new(), seen: StringHashSet::new() };
        assert(texts(r.names@) =~= Seq::<Seq<char>>::empty());
        r
    }

    /// The number of names. No name is in the list twice.
    pub fn len(&self) -> (n: usize)
        ensures
            n == self@.len(),
            self@.no_duplicates(),
    {
        proof {
            use_type_invariant(self);
        }
        self.names.len()
    }

    /// Whether the list holds `name`.
    pub fn contains(&self, name: &str) -> (r: bool)
        ensures
            r == self@.contains(name@),
    {
        proof {
            use_type_invariant(self);
        }
        self.seen.contains(name)
    }

    /// The names, in order.
    pub fn names(&self) -> (r: &Vec<String>)
        ensures
            texts(r@) == self@,
            self@.no_duplicates(),
    {
        proof {
            use_type_invariant(self);
        }
        &self.names
    }

    /// The names, in order, as a list of their own.
    pub fn into_names(self) -> (r: Vec<String>)
        ensures
            texts(r@) == self@,
            self@.no_duplicates(),
    {
        proof {
            use_type_invariant(&self);
        }
        self.names
    }
}

/// Adds `k` at the end of the column list unless the list holds it already.
pub fn push_unique(columns: &mut ColumnList, k: String)
    ensures
        final(columns)@ == with_name(old(columns)@, k@),
{
    proof {
        use_type_invariant(&*columns);
    }
    if columns.seen.contains(k.as_str()) {
        return ;
    }
    let mut taken = ColumnList::new();
    std::mem::swap(columns, &mut taken);
    proof {
        use_type_invariant(&taken);
    }
    let ColumnList { names, seen } = taken;
    let mut names = names;
    let mut seen = seen;
    let ghost before = texts(names@);
    seen.insert(k.clone());
    names.push(k);
    proof {
        let after = texts(names@);
        assert(after =~= before.push(k@));
        assert forall|i: int, j: int| 0 <= i < j < after.len() implies after[i] != after[j] by {
            if j == after.len() - 1 {
                assert(before[i] == after[i]);
                assert(before.contains(after[i]));
            } else {
                assert(before[i] == after[i] && before[j] == after[j]);
            }
        }
        assert forall|x: Seq<char>| seen@.contains(x) <==> after.contains(x) by {
            if before.contains(x) {
                let i = choose|i: int| 0 <= i < before.len() && before[i] == x;
                assert(after[i] == x);
            }
            if after.contains(x) {
                let i = choose|i: int| 0 <= i < after.len() && after[i] == x;
                if i < before.len() {
                    assert(before[i] == x);
                }
            }
            assert(after[before.len() as int] == k@);
        }
    }
    *columns = ColumnList { names, seen };
}

/// Adds each of `names` in turn, unless the list holds it already.
pub fn push_each_unique(columns: &mut ColumnList, names: &[String])
    ensures
        final(columns)@ == with_names(old(columns)@, texts(names@)),
{
    let mut i: usize = 0;
    assert(texts(names@).subrange(0, 0) =~= Seq::<Seq<char>>::empty());
    while i < names.len()
        invariant
            i <= names.len(),
            columns@ == with_names(old(columns)@, texts(names@).subrange(0, i as int)),
        decreases names.len() - i,
    {
        assert(texts(names@).subrange(0, i + 1).drop_last() == texts(names@).subrange(
            0,
            i as int,
        ));
        assert(texts(names@).subrange(0, i + 1).last() == names@[i as int]@);
        push_unique(columns, names[i].clone());
        i += 1;
    }
    assert(texts(names@).subrange(0, names@.len() as int) == texts(names@));
}

/// The explicit order stage: adds the names of `names` that the policy
/// allows, in the order given.
pub fn add_exact(columns: &mut ColumnList, names: &[String], policy: &ColumnPolicy)
    requires
        all_patterns_valid(policy@.include_regex),
    ensures
        final(columns)@ == with_exact(old(columns)@, texts(names@), policy@),
{
    let ghost all = texts(names@);
    let mut chosen: Vec<String> = Vec::new();
    let mut i: usize = 0;
    proof {
        lemma_filter_start(all, allowed_by(policy@));
    }
    while i < names.len()
        invariant
            i <= names.len(),
            all == texts(names@),
            all_patterns_valid(policy@.include_regex),
            texts(chosen@) == all.subrange(0, i as int).filter(allowed_by(policy@)),
        decreases names.len() - i,
    {
        proof {
            lemma_filter_next(all, i as int, allowed_by(policy@));
        }
        if is_allowed(policy, &names[i]) {
            let ghost before = chosen@;
            chosen.push(names[i].clone());
            assert(texts(chosen@) =~= texts(before).push(names@[i as int]@));
        }
        i += 1;
    }
    assert(all.subrange(0, all.len() as int) == all);
    push_each_unique(columns, chosen.as_slice());
}

/// The pattern stage: for each pattern in turn, adds the candidates that it
/// matches, in the order of the universe.
pub fn add_regex(columns: &mut ColumnList, universe: &[String], pats: &[String])
    requires
        all_patterns_valid(texts(pats@)),
    ensures
        final(columns)@ == with_matched(
            old(columns)@,
            texts(universe@),
            texts(pats@),
        ),
{
    let ghost all = texts(universe@);
    let mut p: usize = 0;
    assert(texts(pats@).subrange(0, 0) =~= Seq::<Seq<char>>::empty());
    while p < pats.len()
        invariant
            p <= pats.len(),
            all == texts(universe@),
            all_patterns_valid(texts(pats@)),
            columns@ == with_matched(
                old(columns)@,
                all,
                texts(pats@).subrange(0, p as int),
            ),
        decreases pats.len() - p,
    {
        let pattern = &pats[p];
        assert(texts(pats@)[p as int] == pattern@);
        let mut chosen: Vec<String> = Vec::new();
        let mut i: usize = 0;
        proof {
            lemma_filter_start(all, matched_by(pattern@));
        }
        while i < universe.len()
            invariant
                i <= universe.len(),
                all == texts(universe@),
                pattern_is_valid(pattern@),
                texts(chosen@) == all.subrange(0, i as int).filter(matched_by(pattern@)),
            decreases universe.len() - i,
        {
            proof {
                lemma_filter_next(all, i as int, matched_by(pattern@));
            }
            if matches_fully(pattern.as_str(), universe[i].as_str()) {
                let ghost before = chosen@;
                chosen.push(universe[i].clone());
                assert(texts(chosen@) =~= texts(before).push(universe@[i as int]@));
            }
            i += 1;
        }
        assert(all.subrange(0, all.len() as int) == all);
        assert(texts(pats@).subrange(0, p + 1).drop_last() == texts(pats@).subrange(0, p as int));
        assert(texts(pats@).subrange(0, p + 1).last() == pattern@);
        push_each_unique(columns, chosen.as_slice());
        p += 1;
    }
    assert(texts(pats@).subrange(0, pats@.len() as int) == texts(pats@));
}

/// The substring stage: for each substring in turn, adds the candidates that
/// hold it, in the order of the universe.
pub fn add_substr(columns: &mut ColumnList, universe: &[String], subs: &[String])
    ensures
        final(columns)@ == with_holding(
            old(columns)@,
            texts(universe@),
            texts(subs@),
        ),
{
    let ghost all = texts(universe@);
    let mut p: usize = 0;
    assert(texts(subs@).subrange(0, 0) =~= Seq::<Seq<char>>::empty());
    while p < subs.len()
        invariant
            p <= subs.len(),
            all == texts(universe@),
            columns@ == with_holding(
                old(columns)@,
                all,
                texts(subs@).subrange(0, p as int),
            ),
        decreases subs.len() - p,
    {
        let part = &subs[p];
        assert(texts(subs@)[p as int] == part@);
        let mut chosen: Vec<String> = Vec::new();
        let mut i: usize = 0;
        proof {
            lemma_filter_start(all, holding(part@));
        }
        while i < universe.len()
            invariant
                i <= universe.len(),
                all == texts(universe@),
                texts(chosen@) == all.subrange(0, i as int).filter(holding(part@)),
            decreases universe.len() - i,
        {
            proof {
                lemma_filter_next(all, i as int, holding(part@));
            }
            if contains_text(universe[i].as_str(), part.as_str()) {
                let ghost before = chosen@;
                chosen.push(universe[i].clone());
                assert(texts(chosen@) =~= texts(before).push(universe@[i as int]@));
            }
            i += 1;
        }
        assert(all.subrange(0, all.len() as int) == all);
        assert(texts(subs@).subrange(0, p + 1).drop_last() == texts(subs@).subrange(0, p as int));
        assert(texts(subs@).subrange(0, p + 1).last() == part@);
        push_each_unique(columns, chosen.as_slice());
        p += 1;
    }
    assert(texts(subs@).subrange(0, subs@.len() as int) == texts(subs@));
}

/// The remainder stage: what becomes of the candidates not yet placed.
pub fn add_rest(columns: &mut ColumnList, universe: &[String], mode: RestMode)
    ensures
        final(columns)@ == with_rest(old(columns)@, texts(universe@), mode),
{
    match mode {
        RestMode::Drop => {
            return ;
        },
        _ => {},
    }
    let ghost all = texts(universe@);
    let ghost start = columns@;
    let mut rest: Vec<String> = Vec::new();
    let mut i: usize = 0;
    proof {
        lemma_filter_start(all, absent_from(start));
    }
    while i < universe.len()
        invariant
            i <= universe.len(),
            all == texts(universe@),
            start == columns@,
            texts(rest@) == all.subrange(0, i as int).filter(absent_from(start)),
        decreases universe.len() - i,
    {
        proof {
            lemma_filter_next(all, i as int, absent_from(start));
        }
        if !columns.contains(universe[i].as_str()) {
            let ghost before = rest@;
            rest.push(universe[i].clone());
            assert(texts(rest@) =~= texts(before).push(universe@[i as int]@));
        }
        i += 1;
    }
    assert(all.subrange(0, all.len() as int) == all);
    match mode {
        RestMode::AlphabeticalNatural => {
            let sorted = sort_natural(&rest);
            push_each_unique(columns, sorted.as_slice());
        },
        _ => {
            push_each_unique(columns, rest.as_slice());
        },
    }
}

/// The candidates for the given prior headers and field names.
pub fn column_universe(headers: &[String], fields: &[String], policy: &ColumnPolicy) -> (r: Vec<
    String,
>)
    requires
        all_patterns_valid(policy@.include_regex),
    ensures
        texts(r@) == universe(texts(headers@), texts(fields@), policy@),
{
    let ghost hs = texts(headers@);
    let ghost fs = texts(fields@);
    let mut kept: Vec<String> = Vec::new();
    let mut i: usize = 0;
    proof {
        lemma_filter_start(hs, header_kept(policy@));
    }
    while i < headers.len()
        invariant
            i <= headers.len(),
            hs == texts(headers@),
            all_patterns_valid(policy@.include_regex),
            texts(kept@) == hs.subrange(0, i as int).filter(header_kept(policy@)),
        decreases headers.len() - i,
    {
        proof {
            lemma_filter_next(hs, i as int, header_kept(policy@));
        }
        let h = &headers[i];
        if !is_blank_text(h.as_str()) && !name_in(policy.key_fields.as_slice(), h) && is_allowed(
            policy,
            h,
        ) {
            let ghost before = kept@;
            kept.push(h.clone());
            assert(texts(kept@) =~= texts(before).push(h@));
        }
        i += 1;
    }
    assert(hs.subrange(0, hs.len() as int) == hs);
    let ghost kept_view = texts(kept@);
    let mut more: Vec<String> = Vec::new();
    let mut j: usize = 0;
    proof {
        lemma_filter_start(fs, field_kept(policy@, kept_view));
    }
    while j < fields.len()
        invariant
            j <= fields.len(),
            fs == texts(fields@),
            kept_view == texts(kept@),
            all_patterns_valid(policy@.include_regex),
            texts(more@) == fs.subrange(0, j as int).filter(field_kept(policy@, kept_view)),
        decreases fields.len() - j,
    {
        proof {
            lemma_filter_next(fs, j as int, field_kept(policy@, kept_view));
        }
        let f = &fields[j];
        if !name_in(policy.key_fields.as_slice(), f) && is_allowed(policy, f) && !name_in(
            kept.as_slice(),
            f,
        ) {
            let ghost before = more@;
            more.push(f.clone());
            assert(texts(more@) =~= texts(before).push(f@));
        }
        j += 1;
    }
    assert(fs.subrange(0, fs.len() as int) == fs);
    let mut sorted = sort_natural(&more);
    let ghost sorted_view = texts(sorted@);
    kept.append(&mut sorted);
    assert(texts(kept@) =~= kept_view + sorted_view);
    kept
}

/// Resolves the final column list from the prior headers, the field names of
/// the merged rows and the policy.
///
/// Fails exactly when a pattern of the policy cannot be used. Otherwise the
/// list is `resolved_columns`: it holds no name twice, holds every key field,
/// and holds nothing that the inclusion predicate refuses.
pub fn resolve_columns(headers: &[String], fields: &[String], policy: &ColumnPolicy) -> (res:
    Result<Vec<String>, InvalidPattern>)
    ensures
        res is Ok <==> policy_is_valid(policy@),
        res matches Ok(columns) ==> {
            &&& texts(columns@) == resolved_columns(texts(headers@), texts(fields@), policy@)
            &&& texts(columns@).no_duplicates()
            &&& forall|k: Seq<char>| #[trigger]
                policy@.key_fields.contains(k) ==> texts(columns@).contains(k)
            &&& forall|k: Seq<char>| #[trigger] texts(columns@).contains(k) ==> allowed(policy@, k)
        },
        res matches Err(e) ==> offending_pattern(policy@) == Some(e@) && !pattern_is_valid(
            e.pattern@,
        ),
{
    match check_policy(policy) {
        Ok(_) => {},
        Err(e) => {
            return Err(e);
        },
    }
    let candidates = column_universe(headers, fields, policy);
    let mut columns = ColumnList::new();
    if policy.pin_first {
        push_each_unique(&mut columns, policy.key_fields.as_slice());
    }
    add_exact(&mut columns, policy.order_exact.as_slice(), policy);
    add_regex(&mut columns, candidates.as_slice(), policy.order_regex.as_slice());
    add_substr(&mut columns, candidates.as_slice(), policy.order_substr.as_slice());
    add_rest(&mut columns, candidates.as_slice(), policy.rest);
    if !policy.pin_first {
        push_each_unique(&mut columns, policy.key_fields.as_slice());
    }
    proof {
        resolved_columns_hold_keys(texts(headers@), texts(fields@), policy@);
        resolved_columns_are_allowed(texts(headers@), texts(fields@), policy@);
    }
    Ok(columns.into_names())
}

} // verus!
