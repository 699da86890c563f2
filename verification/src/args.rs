//! Reading options out of a list of command-line words.

use crate::text::{csv_entries, first_index_of, split_csv, split_once_eq, texts, trimmed};
use crate::writeback::HyperlinkMap;
use vstd::prelude::*;

verus! {

/// The first position at which `flag` stands in `args`, or the length of
/// `args` where it stands nowhere.
pub open spec fn first_position(args: Seq<Seq<char>>, flag: Seq<char>) -> int
    decreases args.len(),
{
    if args.len() == 0 {
        0
    } else if args[0] == flag {
        0
    } else {
        1 + first_position(args.drop_first(), flag)
    }
}

proof fn lemma_first_position(args: Seq<Seq<char>>, flag: Seq<char>, i: int)
    requires
        0 <= i <= args.len(),
        forall|j: int| 0 <= j < i ==> args[j] != flag,
        i == args.len() || args[i] == flag,
    ensures
        first_position(args, flag) == i,
    decreases i,
{
    if i > 0 {
        assert forall|j: int| 0 <= j < i - 1 implies args.drop_first()[j] != flag by {
            assert(args.drop_first()[j] == args[j + 1]);
        }
        lemma_first_position(args.drop_first(), flag, i - 1);
    }
}

fn position_of(args: &[String], flag: &String) -> (i: usize)
    ensures
        i == first_position(texts(args@), flag@),
        i <= args.len(),
        i < args.len() <==> texts(args@).contains(flag@),
{
    let mut i: usize = 0;
    while i < args.len() && !(args[i] == *flag)
        invariant
            i <= args.len(),
            forall|j: int| 0 <= j < i ==> texts(args@)[j] != flag@,
        decreases args.len() - i,
    {
        i += 1;
    }
    proof {
        lemma_first_position(texts(args@), flag@, i as int);
        if i < args.len() {
            assert(texts(args@)[i as int] == flag@);
        }
    }
    i
}

/// Whether `flag` is one of the words.
pub fn has_flag(args: &[String], flag: &str) -> (r: bool)
    ensures
        r == texts(args@).contains(flag@),
{
    let wanted = flag.to_owned();
    position_of(args, &wanted) < args.len()
}

/// The word that follows the first occurrence of `flag`, if there is one.
pub fn get_arg_value(args: &[String], flag: &str) -> (r: Option<String>)
    ensures
        match r {
            Some(value) => first_position(texts(args@), flag@) + 1 < args@.len() && value@
                == texts(args@)[first_position(texts(args@), flag@) + 1],
            None => first_position(texts(args@), flag@) + 1 >= args@.len(),
        },
{
    let wanted = flag.to_owned();
    let i = position_of(args, &wanted);
    if i < args.len() && i + 1 < args.len() {
        assert(texts(args@)[i + 1] == args@[i + 1]@);
        Some(args[i + 1].clone())
    } else {
        None
    }
}

/// What a list of `name=base` entries does to a link map, entry by entry: an
/// entry with a `=` sets the base of its column, any other is passed over.
pub open spec fn with_link_entries(links: Map<Seq<char>, Seq<char>>, entries: Seq<Seq<char>>) -> Map<
    Seq<char>,
    Seq<char>,
>
    decreases entries.len(),
{
    if entries.len() == 0 {
        links
    } else {
        let before = with_link_entries(links, entries.drop_last());
        let entry = entries.last();
        if entry.contains('=') {
            let at = first_index_of(entry, '=');
            before.insert(
                trimmed(entry.subrange(0, at)),
                trimmed(entry.subrange(at + 1, entry.len() as int)),
            )
        } else {
            before
        }
    }
}

/// The entries that hold no `=`, in order.
pub open spec fn malformed_entries(entries: Seq<Seq<char>>) -> Seq<Seq<char>>
    decreases entries.len(),
{
    if entries.len() == 0 {
        entries
    } else if entries.last().contains('=') {
        malformed_entries(entries.drop_last())
    } else {
        malformed_entries(entries.drop_last()).push(entries.last())
    }
}

/// Adds the links of a comma-separated list of `name=base` entries to the
/// map. Entries without a `=` are not applied; they come back, in order, so
/// that the caller can warn of them.
pub fn add_links(links: &mut HyperlinkMap, list: &str) -> (skipped: Vec<String>)
    ensures
        final(links)@ == with_link_entries(old(links)@, csv_entries(list@)),
        texts(skipped@) == malformed_entries(csv_entries(list@)),
{
    let entries = split_csv(list);
    let ghost all = texts(entries@);
    let mut skipped: Vec<String> = Vec::new();
    let mut i: usize = 0;
    assert(all.subrange(0, 0) =~= Seq::<Seq<char>>::empty());
    assert(texts(skipped@) =~= Seq::<Seq<char>>::empty());
    while i < entries.len()
        invariant
            i <= entries.len(),
            all == texts(entries@),
            links@ == with_link_entries(old(links)@, all.subrange(0, i as int)),
            texts(skipped@) == malformed_entries(all.subrange(0, i as int)),
        decreases entries.len() - i,
    {
        assert(all.subrange(0, i + 1).drop_last() == all.subrange(0, i as int));
        assert(all.subrange(0, i + 1).last() == entries@[i as int]@);
        match split_once_eq(entries[i].as_str()) {
            Some((name, base)) => {
                links.insert(name.to_owned(), base.to_owned());
            },
            None => {
                let ghost before = skipped@;
                skipped.push(entries[i].clone());
                assert(texts(skipped@) =~= texts(before).push(entries@[i as int]@));
            },
        }
        i += 1;
    }
    assert(all.subrange(0, all.len() as int) == all);
    skipped
}

} // verus!
