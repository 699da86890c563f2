//! The field names of a set of rows: every name that some row has, each once,
//! in lexical order.

use crate::natural::{
    lemma_lex_order_chain,
    lemma_lex_order_flip,
    lemma_lex_order_zero,
    lex_order,
    lexical_sign,
};
use crate::record::{rows_view, Row, RowView};
use crate::text::{chars_of, texts};
use vstd::prelude::*;

verus! {

/// Each name comes lexically before the next: the names are in order and no
/// name is there twice.
pub open spec fn strictly_lexical(s: Seq<Seq<char>>) -> bool {
    forall|i: int, j: int| 0 <= i < j < s.len() ==> lex_order(s[i], s[j]) < 0
}

/// Some row has a value, null included, under `name`.
pub open spec fn is_field_of(rows: Seq<RowView>, name: Seq<char>) -> bool {
    exists|r: int| 0 <= r < rows.len() && (#[trigger] rows[r]).dom().contains(name)
}

/// `s` lists the field names of the rows: in lexical order, each once.
pub open spec fn lists_fields_of(s: Seq<Seq<char>>, rows: Seq<RowView>) -> bool {
    &&& strictly_lexical(s)
    &&& forall|k: Seq<char>| #[trigger] s.contains(k) <==> is_field_of(rows, k)
}

/// The field names of the rows: every name that some row has a value under,
/// each once, in lexical order.
pub open spec fn field_names(rows: Seq<RowView>) -> Seq<Seq<char>> {
    choose|s: Seq<Seq<char>>| lists_fields_of(s, rows)
}

proof fn lemma_first_not_later(a: Seq<Seq<char>>)
    requires
        strictly_lexical(a),
        a.len() > 0,
    ensures
        strictly_lexical(a.drop_first()),
        forall|k: Seq<char>| #[trigger] a.drop_first().contains(k) <==> a.contains(k) && k != a[0],
{
    let t = a.drop_first();
    assert forall|i: int, j: int| 0 <= i < j < t.len() implies lex_order(t[i], t[j]) < 0 by {
        assert(t[i] == a[i + 1] && t[j] == a[j + 1]);
    }
    assert forall|k: Seq<char>| #[trigger] t.contains(k) <==> a.contains(k) && k != a[0] by {
        if t.contains(k) {
            let m = choose|m: int| 0 <= m < t.len() && t[m] == k;
            assert(a[m + 1] == k);
            assert(lex_order(a[0], a[m + 1]) < 0);
            lemma_lex_order_zero(a[0], k);
        }
        if a.contains(k) && k != a[0] {
            let m = choose|m: int| 0 <= m < a.len() && a[m] == k;
            assert(t[m - 1] == k);
        }
    }
}

/// Two lists in strict lexical order with the same names are the same list.
pub proof fn lemma_ordered_names_unique(a: Seq<Seq<char>>, b: Seq<Seq<char>>)
    requires
        strictly_lexical(a),
        strictly_lexical(b),
        forall|k: Seq<char>| a.contains(k) <==> b.contains(k),
    ensures
        a == b,
    decreases a.len(),
{
    if a.len() == 0 {
        if b.len() > 0 {
            assert(b.contains(b[0]));
            assert(a.contains(b[0]));
        }
        assert(a =~= b);
    } else {
        assert(a.contains(a[0]));
        assert(b.contains(a[0]));
        assert(b.contains(b[0]));
        assert(a.contains(b[0]));
        let i = choose|i: int| 0 <= i < a.len() && a[i] == b[0];
        let j = choose|j: int| 0 <= j < b.len() && b[j] == a[0];
        if i > 0 && j > 0 {
            assert(lex_order(a[0], a[i]) < 0);
            assert(lex_order(b[0], b[j]) < 0);
            lemma_lex_order_flip(a[0], b[0]);
        }
        assert(a[0] == b[0]);
        lemma_first_not_later(a);
        lemma_first_not_later(b);
        assert forall|k: Seq<char>| a.drop_first().contains(k) <==> b.drop_first().contains(
            k,
        ) by {
            assert(a.contains(k) <==> b.contains(k));
        }
        lemma_ordered_names_unique(a.drop_first(), b.drop_first());
        assert(a =~= seq![a[0]] + a.drop_first());
        assert(b =~= seq![b[0]] + b.drop_first());
    }
}

/// Puts `name` at its place in the ordered list, unless it is there already.
pub fn insert_ordered(names: &mut Vec<String>, name: &String)
    requires
        strictly_lexical(texts(old(names)@)),
    ensures
        strictly_lexical(texts(final(names)@)),
        forall|k: Seq<char>| #[trigger]
            texts(final(names)@).contains(k) <==> texts(old(names)@).contains(k) || k == name@,
{
    let ghost before = texts(names@);
    let wanted = chars_of(name.as_str());
    let mut i: usize = 0;
    while i < names.len()
        invariant_except_break
            forall|j: int| 0 <= j < i ==> lex_order(before[j], name@) < 0,
        invariant
            i <= names.len(),
            before == texts(names@),
            names@ == old(names)@,
            strictly_lexical(before),
            wanted@ == name@,
        ensures
            forall|j: int| 0 <= j < i ==> lex_order(before[j], name@) < 0,
            i == names.len() || lex_order(before[i as int], name@) > 0,
        decreases names.len() - i,
    {
        let here = chars_of(names[i].as_str());
        assert(before[i as int] == here@);
        let c = lexical_sign(&here, &wanted);
        if c == 0 {
            proof {
                lemma_lex_order_zero(here@, wanted@);
                assert(before[i as int] == name@);
            }
            return ;
        }
        if c > 0 {
            break ;
        }
        i += 1;
    }
    names.insert(i, name.clone());
    let ghost after = texts(names@);
    proof {
        assert(after =~= before.insert(i as int, name@));
        assert forall|a: int, b: int| 0 <= a < b < after.len() implies lex_order(
            after[a],
            after[b],
        ) < 0 by {
            if b < i {
                assert(after[a] == before[a] && after[b] == before[b]);
            } else if b == i {
                assert(after[a] == before[a]);
            } else if a == i {
                // name before[i] <= before[b - 1]
                lemma_lex_order_flip(before[i as int], name@);
                if b - 1 > i {
                    lemma_lex_order_chain(name@, before[i as int], before[b - 1]);
                }
            } else if a < i {
                assert(after[a] == before[a] && after[b] == before[b - 1]);
                lemma_lex_order_flip(before[i as int], name@);
                if b - 1 > i {
                    lemma_lex_order_chain(name@, before[i as int], before[b - 1]);
                }
                lemma_lex_order_chain(before[a], name@, before[b - 1]);
            } else {
                assert(after[a] == before[a - 1] && after[b] == before[b - 1]);
            }
        }
        assert forall|k: Seq<char>| after.contains(k) <==> before.contains(k) || k == name@ by {
            if after.contains(k) {
                let j = choose|j: int| 0 <= j < after.len() && after[j] == k;
                if j < i {
                    assert(before[j] == k);
                } else if j > i {
                    assert(before[j - 1] == k);
                }
            }
            if before.contains(k) {
                let j = choose|j: int| 0 <= j < before.len() && before[j] == k;
                if j < i {
                    assert(after[j] == k);
                } else {
                    assert(after[j + 1] == k);
                }
            }
            if k == name@ {
                assert(after[i as int] == k);
            }
        }
    }
}

/// The names that the rows have values under: each once, in lexical order.
pub fn field_union(rows: &[Row]) -> (names: Vec<String>)
    ensures
        texts(names@) == field_names(rows_view(rows@)),
        lists_fields_of(texts(names@), rows_view(rows@)),
{
    let ghost all = rows_view(rows@);
    let mut names: Vec<String> = Vec::new();
    let mut r: usize = 0;
    while r < rows.len()
        invariant
            r <= rows.len(),
            all == rows_view(rows@),
            strictly_lexical(texts(names@)),
            forall|k: Seq<char>| #[trigger]
                texts(names@).contains(k) <==> is_field_of(all.subrange(0, r as int), k),
        decreases rows.len() - r,
    {
        let row = &rows[r];
        assert(all[r as int] == row@);
        let n = row.len();
        let ghost start = texts(names@);
        let mut i: usize = 0;
        while i < n
            invariant
                i <= n,
                n == row.names().len(),
                strictly_lexical(texts(names@)),
                forall|k: Seq<char>| #[trigger]
                    texts(names@).contains(k) <==> start.contains(k) || row.names().subrange(
                        0,
                        i as int,
                    ).contains(k),
                forall|k: Seq<char>| #[trigger]
                    start.contains(k) <==> is_field_of(all.subrange(0, r as int), k),
                forall|k: Seq<char>| row@.dom().contains(k) <==> row.names().contains(k),
            decreases n - i,
        {
            let ghost before = texts(names@);
            insert_ordered(&mut names, row.name_at(i));
            proof {
                let seen = row.names().subrange(0, i as int);
                let next = row.names().subrange(0, i + 1);
                assert(next =~= seen.push(row.names()[i as int]));
                assert forall|k: Seq<char>| #[trigger]
                    texts(names@).contains(k) <==> start.contains(k) || next.contains(k) by {
                    assert(before.contains(k) <==> start.contains(k) || seen.contains(k));
                    if seen.contains(k) {
                        let j = choose|j: int| 0 <= j < seen.len() && seen[j] == k;
                        assert(next[j] == k);
                    }
                    if next.contains(k) {
                        let j = choose|j: int| 0 <= j < next.len() && next[j] == k;
                        if j < i {
                            assert(seen[j] == k);
                        }
                    }
                    assert(next[i as int] == row.names()[i as int]);
                }
            }
            i += 1;
        }
        proof {
            assert(row.names().subrange(0, n as int) =~= row.names());
            let seen = all.subrange(0, r as int);
            let next = all.subrange(0, r + 1);
            assert forall|k: Seq<char>| #[trigger]
                texts(names@).contains(k) <==> is_field_of(next, k) by {
                assert(start.contains(k) <==> is_field_of(seen, k));
                assert(row@.dom().contains(k) <==> row.names().contains(k));
                assert(next[r as int] == row@);
                if is_field_of(seen, k) {
                    let q = choose|q: int| 0 <= q < seen.len() && (#[trigger] seen[q]).dom().contains(k);
                    assert(next[q].dom().contains(k));
                }
                if row.names().contains(k) {
                    assert(next[r as int].dom().contains(k));
                }
                if is_field_of(next, k) {
                    let q = choose|q: int| 0 <= q < next.len() && (#[trigger] next[q]).dom().contains(k);
                    if q < r {
                        assert(seen[q].dom().contains(k));
                    } else {
                        assert(row@.dom().contains(k));
                    }
                }
            }
        }
        r += 1;
    }
    assert(all.subrange(0, rows@.len() as int) == all);
    proof {
        assert(lists_fields_of(texts(names@), all));
        let chosen = field_names(all);
        assert(lists_fields_of(chosen, all));
        assert forall|k: Seq<char>| texts(names@).contains(k) <==> chosen.contains(k) by {
            assert(texts(names@).contains(k) <==> is_field_of(all, k));
            assert(chosen.contains(k) <==> is_field_of(all, k));
        }
        lemma_ordered_names_unique(texts(names@), chosen);
    }
    names
}

} // verus!
