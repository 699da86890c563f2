//! The column policy: the key fields, the inclusion filters and the ordering
//! options, and the inclusion predicate that they define.

use crate::pattern::{
    all_patterns_valid,
    check_pattern,
    fully_matches,
    matches_fully,
    pattern_is_valid,
    pattern_refusal,
};
use crate::text::{contains_text, occurs_in, texts};
use vstd::prelude::*;

verus! {

/// What becomes of the candidates that no ordering stage has placed.
#[derive(Clone, Copy, Debug, PartialEq, Eq)]
pub enum RestMode {
    /// They follow in the order of the universe.
    ExistingOrder,
    /// They follow in natural order.
    AlphabeticalNatural,
    /// They are left out.
    Drop,
}

/// The policy that decides which columns appear and in what order.
#[derive(Clone, Debug)]
pub struct ColumnPolicy {
    /// The key fields, in configured order. They are always kept.
    pub key_fields: Vec<String>,
    /// Whether the key fields come first; otherwise they come last.
    pub pin_first: bool,
    /// Whether an inclusion option was supplied at all, be it an empty one.
    pub include_given: bool,
    pub include_exact: Vec<String>,
    pub include_regex: Vec<String>,
    pub include_substr: Vec<String>,
    pub order_exact: Vec<String>,
    pub order_regex: Vec<String>,
    pub order_substr: Vec<String>,
    pub rest: RestMode,
}

/// A column policy, as mathematics.
pub struct PolicyView {
    pub key_fields: Seq<Seq<char>>,
    pub pin_first: bool,
    pub include_given: bool,
    pub include_exact: Seq<Seq<char>>,
    pub include_regex: Seq<Seq<char>>,
    pub include_substr: Seq<Seq<char>>,
    pub order_exact: Seq<Seq<char>>,
    pub order_regex: Seq<Seq<char>>,
    pub order_substr: Seq<Seq<char>>,
    pub rest: RestMode,
}

impl View for ColumnPolicy {
    type V = PolicyView;

    open spec fn view(&self) -> PolicyView {
        PolicyView {
            key_fields: texts(self.key_fields@),
            pin_first: self.pin_first,
            include_given: self.include_given,
            include_exact: texts(self.include_exact@),
            include_regex: texts(self.include_regex@),
            include_substr: texts(self.include_substr@),
            order_exact: texts(self.order_exact@),
            order_regex: texts(self.order_regex@),
            order_substr: texts(self.order_substr@),
            rest: self.rest,
        }
    }
}

/// One of the two pattern lists of a policy.
#[derive(Clone, Copy, Debug, PartialEq, Eq)]
pub enum PatternList {
    /// The inclusion patterns.
    Include,
    /// The order patterns.
    Order,
}

/// A pattern of the policy that the matcher does not accept.
#[derive(Clone, Debug, PartialEq, Eq)]
pub struct InvalidPattern {
    /// The list in which the pattern stands.
    pub list: PatternList,
    /// Its position in that list, from 0.
    pub position: usize,
    /// The pattern as configured.
    pub pattern: String,
    /// What the matcher says is wrong with it.
    pub detail: String,
}

/// An invalid pattern, as mathematics.
pub struct InvalidPatternView {
    pub list: PatternList,
    pub position: int,
    pub pattern: Seq<char>,
    pub detail: Seq<char>,
}

impl View for InvalidPattern {
    type V = InvalidPatternView;

    open spec fn view(&self) -> InvalidPatternView {
        InvalidPatternView {
            list: self.list,
            position: self.position as int,
            pattern: self.pattern@,
            detail: self.detail@,
        }
    }
}

/// Every pattern of the policy can be used.
pub open spec fn policy_is_valid(p: PolicyView) -> bool {
    all_patterns_valid(p.include_regex) && all_patterns_valid(p.order_regex)
}

/// Inclusion filtering is active as soon as any inclusion option was supplied.
pub open spec fn include_active(p: PolicyView) -> bool {
    p.include_given || p.include_exact.len() > 0 || p.include_regex.len() > 0
        || p.include_substr.len() > 0
}

/// Some pattern of the list matches the whole of `name`.
pub open spec fn matches_any(patterns: Seq<Seq<char>>, name: Seq<char>) -> bool {
    exists|i: int| 0 <= i < patterns.len() && fully_matches(#[trigger] patterns[i], name)
}

/// `name` holds some text of the list.
pub open spec fn holds_any(parts: Seq<Seq<char>>, name: Seq<char>) -> bool {
    exists|i: int| 0 <= i < parts.len() && occurs_in(name, #[trigger] parts[i])
}

/// The inclusion predicate. A key field is always allowed. Any other name is
/// allowed when no filtering is active, or when it is in the exact set, or
/// matched by an inclusion pattern, or holds an inclusion substring.
pub open spec fn allowed(p: PolicyView, name: Seq<char>) -> bool {
    ||| p.key_fields.contains(name)
    ||| !include_active(p)
    ||| p.include_exact.contains(name)
    ||| matches_any(p.include_regex, name)
    ||| holds_any(p.include_substr, name)
}

/// Whether `name` is one of `list`.
pub fn name_in(list: &[String], name: &String) -> (r: bool)
    ensures
        r == texts(list@).contains(name@),
{
    let mut i: usize = 0;
    while i < list.len()
        invariant
            i <= list.len(),
            forall|j: int| 0 <= j < i ==> texts(list@)[j] != name@,
        decreases list.len() - i,
    {
        if list[i] == *name {
            assert(texts(list@)[i as int] == name@);
            return true;
        }
        i += 1;
    }
    false
}

fn matches_any_pattern(patterns: &[String], name: &str) -> (r: bool)
    requires
        all_patterns_valid(texts(patterns@)),
    ensures
        r == matches_any(texts(patterns@), name@),
{
    let mut i: usize = 0;
    while i < patterns.len()
        invariant
            i <= patterns.len(),
            all_patterns_valid(texts(patterns@)),
            forall|j: int| 0 <= j < i ==> !fully_matches(#[trigger] texts(patterns@)[j], name@),
        decreases patterns.len() - i,
    {
        assert(texts(patterns@)[i as int] == patterns@[i as int]@);
        if matches_fully(patterns[i].as_str(), name) {
            return true;
        }
        i += 1;
    }
    false
}

fn holds_any_part(parts: &[String], name: &str) -> (r: bool)
    ensures
        r == holds_any(texts(parts@), name@),
{
    let mut i: usize = 0;
    while i < parts.len()
        invariant
            i <= parts.len(),
            forall|j: int| 0 <= j < i ==> !occurs_in(name@, #[trigger] texts(parts@)[j]),
        decreases parts.len() - i,
    {
        assert(texts(parts@)[i as int] == parts@[i as int]@);
        if contains_text(name, parts[i].as_str()) {
            return true;
        }
        i += 1;
    }
    false
}

/// The inclusion predicate of the policy.
pub fn is_allowed(policy: &ColumnPolicy, name: &String) -> (r: bool)
    requires
        all_patterns_valid(policy@.include_regex),
    ensures
        r == allowed(policy@, name@),
{
    if name_in(policy.key_fields.as_slice(), name) {
        return true;
    }
    let active = policy.include_given || policy.include_exact.len() > 0
        || policy.include_regex.len() > 0 || policy.include_substr.len() > 0;
    if !active {
        return true;
    }
    name_in(policy.include_exact.as_slice(), name) || matches_any_pattern(
        policy.include_regex.as_slice(),
        name.as_str(),
    ) || holds_any_part(policy.include_substr.as_slice(), name.as_str())
}

/// The position of the first pattern of the list that cannot be used, or the
/// length of the list where every pattern can.
pub open spec fn first_invalid_at(patterns: Seq<Seq<char>>) -> int
    decreases patterns.len(),
{
    if patterns.len() == 0 {
        0
    } else if !pattern_is_valid(patterns[0]) {
        0
    } else {
        1 + first_invalid_at(patterns.drop_first())
    }
}

/// What a check of one list stumbles over: its first pattern that cannot be
/// used, with its position and the matcher's words against it.
pub open spec fn offence_in(patterns: Seq<Seq<char>>, list: PatternList) -> Option<
    InvalidPatternView,
> {
    let at = first_invalid_at(patterns);
    if 0 <= at < patterns.len() {
        Some(
            InvalidPatternView {
                list,
                position: at,
                pattern: patterns[at],
                detail: pattern_refusal(patterns[at])->0,
            },
        )
    } else {
        None
    }
}

/// What a check of the policy stumbles over: the first pattern that cannot be
/// used, the inclusion patterns before the order patterns.
pub open spec fn offending_pattern(p: PolicyView) -> Option<InvalidPatternView> {
    if offence_in(p.include_regex, PatternList::Include) is Some {
        offence_in(p.include_regex, PatternList::Include)
    } else {
        offence_in(p.order_regex, PatternList::Order)
    }
}

proof fn lemma_first_invalid_at(patterns: Seq<Seq<char>>, i: int)
    requires
        0 <= i <= patterns.len(),
        forall|j: int| 0 <= j < i ==> pattern_is_valid(#[trigger] patterns[j]),
        i == patterns.len() || !pattern_is_valid(patterns[i]),
    ensures
        first_invalid_at(patterns) == i,
    decreases i,
{
    if i > 0 {
        let t = patterns.drop_first();
        assert forall|j: int| 0 <= j < i - 1 implies pattern_is_valid(#[trigger] t[j]) by {
            assert(t[j] == patterns[j + 1]);
        }
        lemma_first_invalid_at(t, i - 1);
    }
}

/// Checks the patterns of one list, in order.
fn check_patterns(patterns: &[String], list: PatternList) -> (res: Result<(), InvalidPattern>)
    ensures
        res is Ok <==> all_patterns_valid(texts(patterns@)),
        match res {
            Ok(_) => offence_in(texts(patterns@), list) is None,
            Err(e) => offence_in(texts(patterns@), list) == Some(e@) && !pattern_is_valid(
                e.pattern@,
            ),
        },
{
    let ghost all = texts(patterns@);
    let mut i: usize = 0;
    while i < patterns.len()
        invariant
            i <= patterns.len(),
            all == texts(patterns@),
            forall|j: int| 0 <= j < i ==> pattern_is_valid(#[trigger] all[j]),
        decreases patterns.len() - i,
    {
        assert(all[i as int] == patterns@[i as int]@);
        match check_pattern(patterns[i].as_str()) {
            Ok(_) => {},
            Err(detail) => {
                proof {
                    lemma_first_invalid_at(all, i as int);
                }
                return Err(
                    InvalidPattern { list, position: i, pattern: patterns[i].clone(), detail },
                );
            },
        }
        i += 1;
    }
    proof {
        lemma_first_invalid_at(all, all.len() as int);
    }
    Ok(())
}

/// Checks every pattern of the policy. The first one that cannot be used, the
/// inclusion patterns before the order patterns, comes back as the error, with
/// its list, its position there and the matcher's words against it.
pub fn check_policy(policy: &ColumnPolicy) -> (res: Result<(), InvalidPattern>)
    ensures
        res is Ok <==> policy_is_valid(policy@),
        match res {
            Ok(_) => offending_pattern(policy@) is None,
            Err(e) => offending_pattern(policy@) == Some(e@) && !pattern_is_valid(e.pattern@),
        },
{
    match check_patterns(policy.include_regex.as_slice(), PatternList::Include) {
        Ok(_) => {},
        Err(e) => {
            return Err(e);
        },
    }
    check_patterns(policy.order_regex.as_slice(), PatternList::Order)
}

} // verus!
