//! The natural order on names: runs of digits compare as numbers, everything
//! else as text, so that `col2` comes before `col10`.
//!
//! A name is cut into alternating maximal runs of digits and of other
//! characters. Two names compare run by run: two digit runs by the numbers
//! they spell (of any size, leading zeros ignored), two text runs character
//! by character, a digit run before a text run. Where one name's runs are a
//! prefix of the other's, the shorter name comes first.

use crate::text::{chars_of, text_of, texts};
use std::cmp::Ordering;
use vstd::prelude::*;

verus! {

/// -1, 0 or 1 as `x` is negative, zero or positive.
pub open spec fn sign(x: int) -> int {
    if x < 0 {
        -1
    } else if x == 0 {
        0
    } else {
        1
    }
}

/// The ASCII digits `0` to `9`; no other character counts as a digit.
pub open spec fn is_digit(c: char) -> bool {
    '0' <= c && c <= '9'
}

/// Every character of `s` is a digit.
pub open spec fn all_digits(s: Seq<char>) -> bool {
    forall|i: int| 0 <= i < s.len() ==> is_digit(#[trigger] s[i])
}

/// The number that a digit spells.
pub open spec fn digit_value(c: char) -> nat {
    (c as u32 - '0' as u32) as nat
}

/// The number that a run of decimal digits spells.
pub open spec fn digits_value(s: Seq<char>) -> nat
    decreases s.len(),
{
    if s.len() == 0 {
        0
    } else {
        digits_value(s.drop_last()) * 10 + digit_value(s.last())
    }
}

/// One run of a name, as mathematics.
pub enum PartView {
    /// A digit run, by the number it spells.
    Num(nat),
    /// A run without digits.
    Txt(Seq<char>),
}

/// The length of the longest prefix of `s` whose characters are all digits
/// (`digit` true) or all other characters (`digit` false).
pub open spec fn run_len(s: Seq<char>, digit: bool) -> nat
    decreases s.len(),
{
    if s.len() > 0 && is_digit(s[0]) == digit {
        1 + run_len(s.drop_first(), digit)
    } else {
        0
    }
}

proof fn lemma_run_len_bound(s: Seq<char>, digit: bool)
    ensures
        run_len(s, digit) <= s.len(),
        s.len() > 0 && is_digit(s[0]) == digit ==> run_len(s, digit) >= 1,
    decreases s.len(),
{
    if s.len() > 0 && is_digit(s[0]) == digit {
        lemma_run_len_bound(s.drop_first(), digit);
    }
}

/// The runs of a name, in order.
pub open spec fn natural_parts_of(s: Seq<char>) -> Seq<PartView>
    decreases s.len(),
    via natural_parts_of_decreases
{
    if s.len() == 0 {
        Seq::empty()
    } else {
        let digit = is_digit(s[0]);
        let n = run_len(s, digit);
        let run = s.subrange(0, n as int);
        let part = if digit {
            PartView::Num(digits_value(run))
        } else {
            PartView::Txt(run)
        };
        seq![part] + natural_parts_of(s.subrange(n as int, s.len() as int))
    }
}

#[via_fn]
proof fn natural_parts_of_decreases(s: Seq<char>) {
    if s.len() > 0 {
        lemma_run_len_bound(s, is_digit(s[0]));
    }
}

/// Characters compare by code point.
pub open spec fn char_order(a: char, b: char) -> int {
    if a < b {
        -1
    } else if a == b {
        0
    } else {
        1
    }
}

/// The lexical order on texts: by the first character that differs, a proper
/// prefix before the longer text.
pub open spec fn lex_order(a: Seq<char>, b: Seq<char>) -> int
    decreases a.len(),
{
    if a.len() == 0 || b.len() == 0 {
        sign(a.len() - b.len())
    } else if a[0] != b[0] {
        char_order(a[0], b[0])
    } else {
        lex_order(a.drop_first(), b.drop_first())
    }
}

/// The order on single runs: numbers by value, texts lexically, a number
/// before a text.
pub open spec fn part_order(x: PartView, y: PartView) -> int {
    match (x, y) {
        (PartView::Num(a), PartView::Num(b)) => sign(a - b),
        (PartView::Txt(a), PartView::Txt(b)) => lex_order(a, b),
        (PartView::Num(_), PartView::Txt(_)) => -1,
        (PartView::Txt(_), PartView::Num(_)) => 1,
    }
}

/// The order on sequences of runs: by the first run that differs, a proper
/// prefix before the longer sequence.
pub open spec fn parts_order(p: Seq<PartView>, q: Seq<PartView>) -> int
    decreases p.len(),
{
    if p.len() == 0 || q.len() == 0 {
        sign(p.len() - q.len())
    } else if part_order(p[0], q[0]) != 0 {
        part_order(p[0], q[0])
    } else {
        parts_order(p.drop_first(), q.drop_first())
    }
}

/// The natural order on names: negative when `a` comes first, zero when the two
/// have the same runs, positive when `b` comes first.
pub open spec fn natural_order(a: Seq<char>, b: Seq<char>) -> int {
    parts_order(natural_parts_of(a), natural_parts_of(b))
}

/// Swapping the two texts negates the lexical order, which is -1, 0 or 1.
pub proof fn lemma_lex_order_flip(a: Seq<char>, b: Seq<char>)
    ensures
        lex_order(a, b) == -lex_order(b, a),
        -1 <= lex_order(a, b) <= 1,
    decreases a.len(),
{
    if a.len() == 0 || b.len() == 0 {
    } else if a[0] != b[0] {
    } else {
        lemma_lex_order_flip(a.drop_first(), b.drop_first());
    }
}

/// Two texts compare equal lexically exactly when they are the same text.
pub proof fn lemma_lex_order_zero(a: Seq<char>, b: Seq<char>)
    ensures
        lex_order(a, b) == 0 <==> a == b,
    decreases a.len(),
{
    if a.len() == 0 || b.len() == 0 {
        if a.len() == 0 && b.len() == 0 {
            assert(a =~= b);
        }
    } else if a[0] != b[0] {
    } else {
        lemma_lex_order_zero(a.drop_first(), b.drop_first());
        if a.drop_first() == b.drop_first() {
            assert(a =~= seq![a[0]] + a.drop_first());
            assert(b =~= seq![b[0]] + b.drop_first());
        }
    }
}

/// The lexical order is transitive, strictly so when either step is strict.
pub proof fn lemma_lex_order_chain(a: Seq<char>, b: Seq<char>, c: Seq<char>)
    requires
        lex_order(a, b) <= 0,
        lex_order(b, c) <= 0,
    ensures
        lex_order(a, c) <= 0,
        lex_order(a, b) < 0 || lex_order(b, c) < 0 ==> lex_order(a, c) < 0,
    decreases a.len(),
{
    if a.len() == 0 || b.len() == 0 || c.len() == 0 {
    } else if a[0] != b[0] || b[0] != c[0] {
    } else {
        lemma_lex_order_chain(a.drop_first(), b.drop_first(), c.drop_first());
    }
}

proof fn lemma_part_order_flip(x: PartView, y: PartView)
    ensures
        part_order(x, y) == -part_order(y, x),
        -1 <= part_order(x, y) <= 1,
{
    match (x, y) {
        (PartView::Txt(a), PartView::Txt(b)) => {
            lemma_lex_order_flip(a, b);
        },
        _ => {},
    }
}

proof fn lemma_part_order_zero(x: PartView, y: PartView)
    ensures
        part_order(x, y) == 0 <==> x == y,
{
    match (x, y) {
        (PartView::Txt(a), PartView::Txt(b)) => {
            lemma_lex_order_zero(a, b);
        },
        _ => {},
    }
}

proof fn lemma_part_order_chain(x: PartView, y: PartView, z: PartView)
    requires
        part_order(x, y) <= 0,
        part_order(y, z) <= 0,
    ensures
        part_order(x, z) <= 0,
        part_order(x, y) < 0 || part_order(y, z) < 0 ==> part_order(x, z) < 0,
{
    match (x, y, z) {
        (PartView::Txt(a), PartView::Txt(b), PartView::Txt(c)) => {
            lemma_lex_order_chain(a, b, c);
        },
        _ => {},
    }
}

proof fn lemma_parts_order_flip(p: Seq<PartView>, q: Seq<PartView>)
    ensures
        parts_order(p, q) == -parts_order(q, p),
        -1 <= parts_order(p, q) <= 1,
    decreases p.len(),
{
    if p.len() == 0 || q.len() == 0 {
    } else {
        lemma_part_order_flip(p[0], q[0]);
        if part_order(p[0], q[0]) == 0 {
            lemma_parts_order_flip(p.drop_first(), q.drop_first());
        }
    }
}

proof fn lemma_parts_order_zero(p: Seq<PartView>, q: Seq<PartView>)
    ensures
        parts_order(p, q) == 0 <==> p == q,
    decreases p.len(),
{
    if p.len() == 0 || q.len() == 0 {
        if p.len() == 0 && q.len() == 0 {
            assert(p =~= q);
        }
    } else {
        lemma_part_order_zero(p[0], q[0]);
        if part_order(p[0], q[0]) == 0 {
            lemma_parts_order_zero(p.drop_first(), q.drop_first());
            if p.drop_first() == q.drop_first() {
                assert(p =~= seq![p[0]] + p.drop_first());
                assert(q =~= seq![q[0]] + q.drop_first());
            }
        }
    }
}

proof fn lemma_parts_order_chain(p: Seq<PartView>, q: Seq<PartView>, r: Seq<PartView>)
    requires
        parts_order(p, q) <= 0,
        parts_order(q, r) <= 0,
    ensures
        parts_order(p, r) <= 0,
        parts_order(p, q) < 0 || parts_order(q, r) < 0 ==> parts_order(p, r) < 0,
    decreases p.len(),
{
    if p.len() == 0 || q.len() == 0 || r.len() == 0 {
    } else {
        lemma_part_order_flip(p[0], q[0]);
        lemma_part_order_flip(q[0], r[0]);
        lemma_part_order_flip(p[0], r[0]);
        lemma_part_order_chain(p[0], q[0], r[0]);
        lemma_part_order_zero(p[0], q[0]);
        lemma_part_order_zero(q[0], r[0]);
        lemma_part_order_zero(p[0], r[0]);
        if part_order(p[0], q[0]) == 0 && part_order(q[0], r[0]) == 0 {
            lemma_parts_order_chain(p.drop_first(), q.drop_first(), r.drop_first());
        }
    }
}

/// The natural order is consistent with its own inverse: swapping the two
/// names negates the result, which is always -1, 0 or 1.
pub proof fn natural_order_antisymmetric(a: Seq<char>, b: Seq<char>)
    ensures
        natural_order(a, b) == -natural_order(b, a),
        -1 <= natural_order(a, b) <= 1,
{
    lemma_parts_order_flip(natural_parts_of(a), natural_parts_of(b));
}

/// Two names compare equal exactly when they have the same runs; in
/// particular every name compares equal to itself.
pub proof fn natural_order_equal(a: Seq<char>, b: Seq<char>)
    ensures
        natural_order(a, b) == 0 <==> natural_parts_of(a) == natural_parts_of(b),
        natural_order(a, a) == 0,
{
    lemma_parts_order_zero(natural_parts_of(a), natural_parts_of(b));
    lemma_parts_order_zero(natural_parts_of(a), natural_parts_of(a));
}

/// The natural order is transitive: from `a <= b` and `b <= c` follows
/// `a <= c`, strictly so when either step is strict.
pub proof fn natural_order_transitive(a: Seq<char>, b: Seq<char>, c: Seq<char>)
    requires
        natural_order(a, b) <= 0,
        natural_order(b, c) <= 0,
    ensures
        natural_order(a, c) <= 0,
        natural_order(a, b) < 0 || natural_order(b, c) < 0 ==> natural_order(a, c) < 0,
{
    lemma_parts_order_chain(natural_parts_of(a), natural_parts_of(b), natural_parts_of(c));
}

proof fn lemma_prefix_comes_first(p: Seq<PartView>, q: Seq<PartView>)
    requires
        p.len() < q.len(),
        p == q.subrange(0, p.len() as int),
    ensures
        parts_order(p, q) == -1,
    decreases p.len(),
{
    if p.len() > 0 {
        assert(p[0] == q[0]);
        lemma_part_order_zero(p[0], q[0]);
        assert(p.drop_first() =~= q.drop_first().subrange(0, p.len() - 1));
        lemma_prefix_comes_first(p.drop_first(), q.drop_first());
    }
}

/// A name whose runs are the first runs of another name, which has more, comes
/// before that name.
pub proof fn fewer_runs_come_first(a: Seq<char>, b: Seq<char>)
    requires
        natural_parts_of(a).len() < natural_parts_of(b).len(),
        natural_parts_of(a) == natural_parts_of(b).subrange(0, natural_parts_of(a).len() as int),
    ensures
        natural_order(a, b) == -1,
{
    lemma_prefix_comes_first(natural_parts_of(a), natural_parts_of(b));
}

/// The empty name comes before every other name.
pub proof fn empty_name_comes_first(b: Seq<char>)
    requires
        b.len() > 0,
    ensures
        natural_order(Seq::empty(), b) == -1,
{
    assert(natural_parts_of(Seq::<char>::empty()).len() == 0);
    assert(natural_parts_of(b).len() > 0);
}

/// One run of a name.
#[derive(Clone, Debug, PartialEq, Eq)]
pub enum NatPart {
    /// A run without digits.
    Txt(String),
    /// A run of digits, as written.
    Num(String),
}

impl View for NatPart {
    type V = PartView;

    open spec fn view(&self) -> PartView {
        match self {
            NatPart::Txt(t) => PartView::Txt(t@),
            NatPart::Num(d) => PartView::Num(digits_value(d@)),
        }
    }
}

impl NatPart {
    /// A digit run holds nothing but digits.
    pub open spec fn wf(&self) -> bool {
        match self {
            NatPart::Txt(_) => true,
            NatPart::Num(d) => all_digits(d@),
        }
    }
}

/// The views of a sequence of runs.
pub open spec fn parts_view(p: Seq<NatPart>) -> Seq<PartView> {
    p.map_values(|x: NatPart| x@)
}

/// Every digit run of `p` holds nothing but digits.
pub open spec fn parts_wf(p: Seq<NatPart>) -> bool {
    forall|i: int| 0 <= i < p.len() ==> (#[trigger] p[i]).wf()
}

/// Whether `c` is one of the digits `0` to `9`.
pub fn is_digit_char(c: char) -> (r: bool)
    ensures
        r == is_digit(c),
{
    c >= '0' && c <= '9'
}

proof fn lemma_run_len_is(s: Seq<char>, digit: bool, k: int)
    requires
        0 <= k <= s.len(),
        forall|t: int| 0 <= t < k ==> is_digit(s[t]) == digit,
        k == s.len() || is_digit(s[k]) != digit,
    ensures
        run_len(s, digit) == k,
    decreases k,
{
    if k > 0 {
        lemma_run_len_is(s.drop_first(), digit, k - 1);
    }
}

/// Cuts a name into its runs.
pub fn natural_parts(s: &str) -> (parts: Vec<NatPart>)
    ensures
        parts_view(parts@) == natural_parts_of(s@),
        parts_wf(parts@),
{
    let chars = chars_of(s);
    let n = chars.len();
    let mut parts: Vec<NatPart> = Vec::new();
    let mut i: usize = 0;
    assert(chars@.subrange(0, n as int) == chars@);
    assert(parts_view(parts@) + natural_parts_of(chars@) =~= natural_parts_of(chars@));
    while i < n
        invariant
            i <= n,
            n == chars.len(),
            parts_wf(parts@),
            parts_view(parts@) + natural_parts_of(chars@.subrange(i as int, n as int))
                == natural_parts_of(chars@),
        decreases n - i,
    {
        let digit = is_digit_char(chars[i]);
        let mut j: usize = i + 1;
        while j < n && is_digit_char(chars[j]) == digit
            invariant
                i < j <= n,
                n == chars.len(),
                forall|t: int| i <= t < j ==> is_digit(chars@[t]) == digit,
            decreases n - j,
        {
            j += 1;
        }
        let ghost rest = chars@.subrange(i as int, n as int);
        proof {
            lemma_run_len_is(rest, digit, j - i);
            assert(rest.subrange(0, j - i) =~= chars@.subrange(i as int, j as int));
            assert(rest.subrange(j - i, rest.len() as int) =~= chars@.subrange(
                j as int,
                n as int,
            ));
        }
        let run = text_of(&chars, i, j);
        let part = if digit {
            NatPart::Num(run)
        } else {
            NatPart::Txt(run)
        };
        let ghost before = parts@;
        parts.push(part);
        proof {
            assert(parts_view(parts@) =~= parts_view(before).push(part@));
            assert(natural_parts_of(rest) == seq![part@] + natural_parts_of(
                chars@.subrange(j as int, n as int),
            ));
            assert(parts_view(before).push(part@) + natural_parts_of(
                chars@.subrange(j as int, n as int),
            ) =~= parts_view(before) + natural_parts_of(rest));
        }
        i = j;
    }
    assert(parts_view(parts@) + natural_parts_of(chars@.subrange(n as int, n as int)) =~= parts_view(
        parts@,
    ));
    parts
}

/// Compares two texts character by character.
pub fn lexical_sign(a: &Vec<char>, b: &Vec<char>) -> (r: i8)
    ensures
        r == lex_order(a@, b@),
{
    let la = a.len();
    let lb = b.len();
    let mut i: usize = 0;
    assert(a@.subrange(0, la as int) == a@);
    assert(b@.subrange(0, lb as int) == b@);
    while i < la && i < lb
        invariant
            i <= la,
            i <= lb,
            la == a.len(),
            lb == b.len(),
            lex_order(a@, b@) == lex_order(
                a@.subrange(i as int, la as int),
                b@.subrange(i as int, lb as int),
            ),
        decreases la - i,
    {
        assert(a@.subrange(i as int, la as int).drop_first() == a@.subrange(i + 1, la as int));
        assert(b@.subrange(i as int, lb as int).drop_first() == b@.subrange(i + 1, lb as int));
        if a[i] != b[i] {
            return if a[i] < b[i] {
                -1
            } else {
                1
            };
        }
        i += 1;
    }
    if la < lb {
        -1
    } else if la == lb {
        0
    } else {
        1
    }
}

proof fn lemma_zeros_value(s: Seq<char>, k: int)
    requires
        0 <= k <= s.len(),
        forall|t: int| 0 <= t < k ==> s[t] == '0',
    ensures
        digits_value(s) == digits_value(s.subrange(k, s.len() as int)),
    decreases s.len(),
{
    if k == 0 {
        assert(s.subrange(0, s.len() as int) =~= s);
    } else if k == s.len() {
        lemma_zeros_value(s.drop_last(), k - 1);
        assert(s.drop_last().subrange(k - 1, s.len() - 1) =~= Seq::<char>::empty());
        assert(s.subrange(k, s.len() as int) =~= Seq::<char>::empty());
    } else {
        lemma_zeros_value(s.drop_last(), k);
        assert(s.subrange(k, s.len() as int).drop_last() =~= s.drop_last().subrange(
            k,
            s.len() - 1,
        ));
    }
}

proof fn lemma_leading_digit(s: Seq<char>)
    requires
        all_digits(s),
        s.len() > 0,
        s[0] != '0',
    ensures
        digits_value(s) >= 1,
    decreases s.len(),
{
    if s.len() > 1 {
        lemma_leading_digit(s.drop_last());
    } else {
        assert(s.drop_last().len() == 0);
        assert(is_digit(s[0]));
    }
}

proof fn lemma_shorter_is_less(a: Seq<char>, b: Seq<char>)
    requires
        all_digits(a),
        all_digits(b),
        a.len() == 0 || a[0] != '0',
        b.len() == 0 || b[0] != '0',
        a.len() < b.len(),
    ensures
        digits_value(a) < digits_value(b),
    decreases a.len(),
{
    if a.len() == 0 {
        lemma_leading_digit(b);
    } else {
        lemma_shorter_is_less(a.drop_last(), b.drop_last());
        assert(is_digit(a.last()));
        assert(is_digit(b.last()));
    }
}

proof fn lemma_first_difference(a: Seq<char>, b: Seq<char>, i: int)
    requires
        all_digits(a),
        all_digits(b),
        a.len() == b.len(),
        0 <= i < a.len(),
        forall|t: int| 0 <= t < i ==> a[t] == b[t],
        a[i] < b[i],
    ensures
        digits_value(a) < digits_value(b),
    decreases a.len(),
{
    assert(is_digit(a.last()));
    assert(is_digit(b.last()));
    if i == a.len() - 1 {
        assert(a.drop_last() =~= b.drop_last());
        assert(is_digit(a[i]) && is_digit(b[i]));
    } else {
        lemma_first_difference(a.drop_last(), b.drop_last(), i);
    }
}

fn skip_zeros(d: &Vec<char>) -> (k: usize)
    ensures
        k <= d.len(),
        forall|t: int| 0 <= t < k ==> d@[t] == '0',
        k == d.len() || d@[k as int] != '0',
{
    let mut k: usize = 0;
    while k < d.len() && d[k] == '0'
        invariant
            k <= d.len(),
            forall|t: int| 0 <= t < k ==> d@[t] == '0',
        decreases d.len() - k,
    {
        k += 1;
    }
    k
}

/// Compares two digit runs by the numbers they spell, whatever their size.
pub fn digits_sign(a: &Vec<char>, b: &Vec<char>) -> (r: i8)
    requires
        all_digits(a@),
        all_digits(b@),
    ensures
        r == sign(digits_value(a@) - digits_value(b@)),
{
    let ia = skip_zeros(a);
    let ib = skip_zeros(b);
    let la = a.len() - ia;
    let lb = b.len() - ib;
    let ghost x = a@.subrange(ia as int, a@.len() as int);
    let ghost y = b@.subrange(ib as int, b@.len() as int);
    proof {
        lemma_zeros_value(a@, ia as int);
        lemma_zeros_value(b@, ib as int);
    }
    if la < lb {
        proof {
            lemma_shorter_is_less(x, y);
        }
        return -1;
    }
    if la > lb {
        proof {
            lemma_shorter_is_less(y, x);
        }
        return 1;
    }
    let mut t: usize = 0;
    while t < la
        invariant
            t <= la,
            la == lb,
            ia + la == a.len(),
            ib + lb == b.len(),
            x == a@.subrange(ia as int, a@.len() as int),
            y == b@.subrange(ib as int, b@.len() as int),
            all_digits(x),
            all_digits(y),
            digits_value(a@) == digits_value(x),
            digits_value(b@) == digits_value(y),
            forall|u: int| 0 <= u < t ==> x[u] == y[u],
        decreases la - t,
    {
        let ca = a[ia + t];
        let cb = b[ib + t];
        assert(ca == x[t as int] && cb == y[t as int]);
        if ca != cb {
            if ca < cb {
                proof {
                    lemma_first_difference(x, y, t as int);
                }
                return -1;
            } else {
                proof {
                    lemma_first_difference(y, x, t as int);
                }
                return 1;
            }
        }
        t += 1;
    }
    assert(x =~= y);
    0
}

/// Compares two runs.
pub fn part_sign(x: &NatPart, y: &NatPart) -> (r: i8)
    requires
        x.wf(),
        y.wf(),
    ensures
        r == part_order(x@, y@),
{
    match (x, y) {
        (NatPart::Num(a), NatPart::Num(b)) => {
            let ca = chars_of(a.as_str());
            let cb = chars_of(b.as_str());
            digits_sign(&ca, &cb)
        },
        (NatPart::Txt(a), NatPart::Txt(b)) => {
            let ca = chars_of(a.as_str());
            let cb = chars_of(b.as_str());
            lexical_sign(&ca, &cb)
        },
        (NatPart::Num(_), NatPart::Txt(_)) => -1,
        (NatPart::Txt(_), NatPart::Num(_)) => 1,
    }
}

/// Compares two sequences of runs.
pub fn parts_sign(p: &Vec<NatPart>, q: &Vec<NatPart>) -> (r: i8)
    requires
        parts_wf(p@),
        parts_wf(q@),
    ensures
        r == parts_order(parts_view(p@), parts_view(q@)),
{
    let lp = p.len();
    let lq = q.len();
    let ghost pv = parts_view(p@);
    let ghost qv = parts_view(q@);
    let mut i: usize = 0;
    assert(pv.subrange(0, lp as int) == pv);
    assert(qv.subrange(0, lq as int) == qv);
    while i < lp && i < lq
        invariant
            i <= lp,
            i <= lq,
            lp == p.len(),
            lq == q.len(),
            pv == parts_view(p@),
            qv == parts_view(q@),
            parts_wf(p@),
            parts_wf(q@),
            parts_order(pv, qv) == parts_order(
                pv.subrange(i as int, lp as int),
                qv.subrange(i as int, lq as int),
            ),
        decreases lp - i,
    {
        assert(pv.subrange(i as int, lp as int).drop_first() == pv.subrange(i + 1, lp as int));
        assert(qv.subrange(i as int, lq as int).drop_first() == qv.subrange(i + 1, lq as int));
        assert(pv[i as int] == p@[i as int]@);
        assert(qv[i as int] == q@[i as int]@);
        let c = part_sign(&p[i], &q[i]);
        if c != 0 {
            return c;
        }
        i += 1;
    }
    if lp < lq {
        -1
    } else if lp == lq {
        0
    } else {
        1
    }
}

/// Compares two names in the natural order: -1, 0 or 1.
pub fn natural_sign(a: &str, b: &str) -> (r: i8)
    ensures
        r == natural_order(a@, b@),
{
    let pa = natural_parts(a);
    let pb = natural_parts(b);
    parts_sign(&pa, &pb)
}

/// The `Ordering` that a sign stands for.
pub open spec fn ordering_of(c: int) -> Ordering {
    if c < 0 {
        Ordering::Less
    } else if c == 0 {
        Ordering::Equal
    } else {
        Ordering::Greater
    }
}

/// Compares two names in the natural order.
pub fn natural_cmp_str(a: &str, b: &str) -> (ord: Ordering)
    ensures
        ord == ordering_of(natural_order(a@, b@)),
{
    let c: i8 = natural_sign(a, b);
    if c < 0 {
        Ordering::Less
    } else if c == 0 {
        Ordering::Equal
    } else {
        Ordering::Greater
    }
}

/// Compares two names in the natural order.
pub fn natural_cmp(a: &String, b: &String) -> (ord: Ordering)
    ensures
        ord == ordering_of(natural_order(a@, b@)),
{
    natural_cmp_str(a.as_str(), b.as_str())
}

/// `s`, already in order, with `x` put behind the last name that does not come
/// after it.
pub open spec fn sorted_insert(s: Seq<Seq<char>>, x: Seq<char>) -> Seq<Seq<char>>
    decreases s.len(),
{
    if s.len() > 0 && natural_order(s.last(), x) > 0 {
        sorted_insert(s.drop_last(), x).push(s.last())
    } else {
        s.push(x)
    }
}

/// The names of `s` in natural order. Names that compare equal keep the order
/// they had in `s`.
pub open spec fn natural_sorted(s: Seq<Seq<char>>) -> Seq<Seq<char>>
    decreases s.len(),
{
    if s.len() == 0 {
        s
    } else {
        sorted_insert(natural_sorted(s.drop_last()), s.last())
    }
}

/// No name of `s` comes after a later one.
pub open spec fn in_natural_order(s: Seq<Seq<char>>) -> bool {
    forall|i: int, j: int| 0 <= i < j < s.len() ==> natural_order(s[i], s[j]) <= 0
}

proof fn lemma_sorted_insert_at(s: Seq<Seq<char>>, x: Seq<char>, j: int)
    requires
        0 <= j <= s.len(),
        forall|t: int| j <= t < s.len() ==> natural_order(s[t], x) > 0,
        j == 0 || natural_order(s[j - 1], x) <= 0,
    ensures
        sorted_insert(s, x) == s.insert(j, x),
    decreases s.len() - j,
{
    if j == s.len() {
        assert(s.push(x) =~= s.insert(j, x));
    } else {
        lemma_sorted_insert_at(s.drop_last(), x, j);
        assert(s.drop_last().insert(j, x).push(s.last()) =~= s.insert(j, x));
    }
}

proof fn lemma_sorted_insert(s: Seq<Seq<char>>, x: Seq<char>)
    requires
        in_natural_order(s),
    ensures
        in_natural_order(sorted_insert(s, x)),
        sorted_insert(s, x).to_multiset() == s.to_multiset().insert(x),
        sorted_insert(s, x).len() == s.len() + 1,
    decreases s.len(),
{
    broadcast use vstd::seq_lib::group_to_multiset_ensures;

    let r = sorted_insert(s, x);
    if s.len() > 0 && natural_order(s.last(), x) > 0 {
        let t = s.drop_last();
        let u = sorted_insert(t, x);
        assert forall|i: int, j: int| 0 <= i < j < t.len() implies natural_order(t[i], t[j])
            <= 0 by {
            assert(t[i] == s[i] && t[j] == s[j]);
        }
        lemma_sorted_insert(t, x);
        assert(s =~= t.push(s.last()));
        assert(r.to_multiset() =~= s.to_multiset().insert(x));
        assert forall|i: int, j: int| 0 <= i < j < r.len() implies natural_order(r[i], r[j])
            <= 0 by {
            if j == r.len() - 1 {
                // r[i] lies in u, whose names are those of t and x
                assert(u.to_multiset().count(u[i]) > 0);
                if u[i] == x {
                    natural_order_antisymmetric(s.last(), x);
                } else {
                    assert(t.to_multiset().count(u[i]) > 0);
                    assert(t.contains(u[i]));
                    let k = choose|k: int| 0 <= k < t.len() && t[k] == u[i];
                    assert(natural_order(s[k], s[s.len() - 1]) <= 0);
                }
            }
        }
    } else {
        assert(r.to_multiset() =~= s.to_multiset().insert(x));
        assert forall|i: int, j: int| 0 <= i < j < r.len() implies natural_order(r[i], r[j])
            <= 0 by {
            if j == r.len() - 1 {
                let last = s.len() - 1;
                natural_order_antisymmetric(s[last], x);
                if i < last {
                    natural_order_transitive(s[i], s[last], x);
                }
            }
        }
    }
}

/// Sorting puts the names in natural order and neither adds nor loses one.
pub proof fn natural_sorted_is_ordered_permutation(s: Seq<Seq<char>>)
    ensures
        in_natural_order(natural_sorted(s)),
        natural_sorted(s).to_multiset() == s.to_multiset(),
        natural_sorted(s).len() == s.len(),
    decreases s.len(),
{
    broadcast use vstd::seq_lib::group_to_multiset_ensures;

    if s.len() > 0 {
        natural_sorted_is_ordered_permutation(s.drop_last());
        lemma_sorted_insert(natural_sorted(s.drop_last()), s.last());
        assert(s =~= s.drop_last().push(s.last()));
    }
}

/// Sorts names in the natural order. The sort is stable: names that compare
/// equal stay in the order in which they were given.
pub fn sort_natural(names: &Vec<String>) -> (sorted: Vec<String>)
    ensures
        texts(sorted@) == natural_sorted(texts(names@)),
{
    let mut out: Vec<String> = Vec::new();
    let mut i: usize = 0;
    assert(texts(names@).subrange(0, 0) =~= Seq::<Seq<char>>::empty());
    assert(texts(out@) =~= Seq::<Seq<char>>::empty());
    while i < names.len()
        invariant
            i <= names.len(),
            texts(out@) == natural_sorted(texts(names@).subrange(0, i as int)),
        decreases names.len() - i,
    {
        let x = &names[i];
        let mut j: usize = out.len();
        while j > 0 && natural_sign(out[j - 1].as_str(), x.as_str()) > 0
            invariant
                j <= out.len(),
                forall|t: int| j <= t < out@.len() ==> natural_order(texts(out@)[t], x@) > 0,
            decreases j,
        {
            j -= 1;
        }
        proof {
            assert(texts(names@).subrange(0, i + 1).drop_last() == texts(names@).subrange(
                0,
                i as int,
            ));
            assert(texts(names@).subrange(0, i + 1).last() == x@);
            lemma_sorted_insert_at(texts(out@), x@, j as int);
        }
        let ghost before = out@;
        out.insert(j, x.clone());
        assert(texts(out@) =~= texts(before).insert(j as int, x@));
        i += 1;
    }
    assert(texts(names@).subrange(0, names@.len() as int) == texts(names@));
    out
}

} // verus!
