//! Ascending listings: sequences of topics in listing order, each topic
//! at most once.

use crate::order::{
    lemma_precedes_asymmetric, lemma_precedes_irreflexive, lemma_precedes_total,
    lemma_precedes_transitive, precedes, rank, Rank,
};
use vstd::prelude::*;

verus! {

/// Every entry of `list` is listed strictly before all later entries.
pub open spec fn strictly_ascending(list: Seq<Seq<char>>) -> bool {
    forall|i: int, j: int|
        0 <= i < j < list.len() ==> precedes(#[trigger] list[i], #[trigger] list[j])
}

/// `part` is what is left of `whole` after leaving some entries out: the
/// entries of `part` occur in `whole`, in the same order.
pub open spec fn is_subsequence(part: Seq<Seq<char>>, whole: Seq<Seq<char>>) -> bool
    decreases whole.len(),
{
    if part.len() == 0 {
        true
    } else if whole.len() == 0 {
        false
    } else {
        ||| part.last() == whole.last() && is_subsequence(part.drop_last(), whole.drop_last())
        ||| is_subsequence(part, whole.drop_last())
    }
}

/// The number of leading entries of `list` that are listed before `topic`.
pub open spec fn slot(list: Seq<Seq<char>>, topic: Seq<char>) -> int
    decreases list.len(),
{
    if list.len() == 0 {
        0
    } else if precedes(list.last(), topic) {
        list.len() as int
    } else {
        slot(list.drop_last(), topic)
    }
}

/// The listing of the topics in `topics`: the one strictly ascending
/// sequence whose entries are exactly the members of the set.
pub open spec fn ascending_list(topics: Set<Seq<char>>) -> Seq<Seq<char>> {
    choose|list: Seq<Seq<char>>| strictly_ascending(list) && list.to_set() == topics
}

/// `picks` names, in ascending order, one place in `whole` for each entry
/// of `part`, where `whole` holds that entry.
pub open spec fn picks_out(picks: Seq<int>, part: Seq<Seq<char>>, whole: Seq<Seq<char>>) -> bool {
    &&& picks.len() == part.len()
    &&& forall|i: int|
        0 <= i < part.len() ==> 0 <= #[trigger] picks[i] < whole.len() && whole[picks[i]] == part[i]
    &&& forall|i: int, j: int|
        0 <= i < j < part.len() ==> #[trigger] picks[i] < #[trigger] picks[j]
}

/// The entries of a subsequence stand in the whole at ascending places.
pub proof fn lemma_subsequence_picks(part: Seq<Seq<char>>, whole: Seq<Seq<char>>)
    requires
        is_subsequence(part, whole),
    ensures
        exists|picks: Seq<int>| picks_out(picks, part, whole),
    decreases whole.len(),
{
    if part.len() == 0 {
        assert(picks_out(Seq::<int>::empty(), part, whole));
    } else {
        let shorter = whole.drop_last();
        if part.last() == whole.last() && is_subsequence(part.drop_last(), shorter) {
            let rest = part.drop_last();
            lemma_subsequence_picks(rest, shorter);
            let before = choose|picks: Seq<int>| picks_out(picks, rest, shorter);
            let picks = before.push(whole.len() - 1);
            assert forall|i: int| 0 <= i < part.len() implies 0 <= #[trigger] picks[i] < whole.len()
                && whole[picks[i]] == part[i] by {
                if i < rest.len() {
                    assert(picks[i] == before[i]);
                    assert(shorter[before[i]] == rest[i]);
                }
            }
            assert forall|i: int, j: int| 0 <= i < j < part.len() implies #[trigger] picks[i]
                < #[trigger] picks[j] by {
                assert(picks[i] == before[i]);
                if j < rest.len() {
                    assert(picks[j] == before[j]);
                }
            }
            assert(picks_out(picks, part, whole));
        } else {
            lemma_subsequence_picks(part, shorter);
            let picks = choose|picks: Seq<int>| picks_out(picks, part, shorter);
            assert forall|i: int| 0 <= i < part.len() implies 0 <= #[trigger] picks[i] < whole.len()
                && whole[picks[i]] == part[i] by {
                assert(shorter[picks[i]] == part[i]);
            }
            assert(picks_out(picks, part, whole));
        }
    }
}

/// An ascending listing holds no topic twice.
pub proof fn lemma_ascending_no_duplicates(list: Seq<Seq<char>>)
    requires
        strictly_ascending(list),
    ensures
        list.no_duplicates(),
{
    assert forall|i: int, j: int| 0 <= i < list.len() && 0 <= j < list.len() && i != j implies list[i]
        != list[j] by {
        lemma_precedes_irreflexive(list[i]);
        if i < j {
            assert(precedes(list[i], list[j]));
        } else {
            assert(precedes(list[j], list[i]));
        }
    }
}

/// Two ascending listings of the same topics are the same sequence.
pub proof fn lemma_ascending_unique(first: Seq<Seq<char>>, second: Seq<Seq<char>>)
    requires
        strictly_ascending(first),
        strictly_ascending(second),
        first.to_set() == second.to_set(),
    ensures
        first == second,
    decreases first.len(),
{
    if first.len() == 0 {
        if second.len() > 0 {
            assert(second.to_set().contains(second[0]));
            assert(first.contains(second[0]));
        }
        assert(first =~= second);
    } else if second.len() == 0 {
        assert(first.to_set().contains(first[0]));
        assert(second.contains(first[0]));
    } else {
        // The last entry of each listing is the greatest topic of the set.
        let a = first.last();
        let b = second.last();
        assert(first.to_set().contains(a));
        assert(second.to_set().contains(b));
        let i = choose|i: int| 0 <= i < second.len() && second[i] == a;
        let j = choose|j: int| 0 <= j < first.len() && first[j] == b;
        if a != b {
            assert(precedes(a, b));
            assert(precedes(b, a));
            lemma_precedes_asymmetric(a, b);
        }
        lemma_ascending_no_duplicates(first);
        lemma_ascending_no_duplicates(second);
        let first_rest = first.drop_last();
        let second_rest = second.drop_last();
        assert forall|t: Seq<char>| first_rest.to_set().contains(t) == second_rest.to_set().contains(
            t,
        ) by {
            if first_rest.contains(t) {
                let k = choose|k: int| 0 <= k < first_rest.len() && first_rest[k] == t;
                assert(first[k] == t);
                assert(first.to_set().contains(t));
                let m = choose|m: int| 0 <= m < second.len() && second[m] == t;
                assert(second_rest[m] == t);
            }
            if second_rest.contains(t) {
                let k = choose|k: int| 0 <= k < second_rest.len() && second_rest[k] == t;
                assert(second[k] == t);
                assert(second.to_set().contains(t));
                let m = choose|m: int| 0 <= m < first.len() && first[m] == t;
                assert(first_rest[m] == t);
            }
        }
        assert(first_rest.to_set() =~= second_rest.to_set());
        lemma_ascending_unique(first_rest, second_rest);
        assert(first =~= first_rest.push(a));
        assert(second =~= second_rest.push(b));
    }
}

/// In an ascending listing the entries before `slot` are listed before
/// `topic`, and no entry from `slot` on is.
pub proof fn lemma_slot_splits(list: Seq<Seq<char>>, topic: Seq<char>)
    requires
        strictly_ascending(list),
    ensures
        0 <= slot(list, topic) <= list.len(),
        forall|i: int| 0 <= i < slot(list, topic) ==> precedes(#[trigger] list[i], topic),
        forall|i: int| slot(list, topic) <= i < list.len() ==> !precedes(#[trigger] list[i], topic),
    decreases list.len(),
{
    if list.len() > 0 {
        if precedes(list.last(), topic) {
            assert forall|i: int| 0 <= i < list.len() implies precedes(#[trigger] list[i], topic) by {
                if i < list.len() - 1 {
                    assert(precedes(list[i], list[list.len() - 1]));
                    lemma_precedes_transitive(list[i], list.last(), topic);
                }
            }
        } else {
            let rest = list.drop_last();
            assert forall|i: int, j: int| 0 <= i < j < rest.len() implies precedes(
                #[trigger] rest[i],
                #[trigger] rest[j],
            ) by {
                assert(precedes(list[i], list[j]));
            }
            lemma_slot_splits(rest, topic);
            assert forall|i: int| 0 <= i < slot(list, topic) implies precedes(
                #[trigger] list[i],
                topic,
            ) by {
                assert(rest[i] == list[i]);
            }
            assert forall|i: int| slot(list, topic) <= i < list.len() implies !precedes(
                #[trigger] list[i],
                topic,
            ) by {
                if i < rest.len() {
                    assert(rest[i] == list[i]);
                }
            }
        }
    }
}

/// The place that splits an ascending listing into the entries listed
/// before `topic` and the rest is `slot`.
pub proof fn lemma_slot_is(list: Seq<Seq<char>>, topic: Seq<char>, at: int)
    requires
        strictly_ascending(list),
        0 <= at <= list.len(),
        forall|i: int| 0 <= i < at ==> precedes(#[trigger] list[i], topic),
        forall|i: int| at <= i < list.len() ==> !precedes(#[trigger] list[i], topic),
    ensures
        at == slot(list, topic),
{
    lemma_slot_splits(list, topic);
    let found = slot(list, topic);
    if at < found {
        assert(precedes(list[at], topic));
    } else if found < at {
        assert(precedes(list[found], topic));
    }
}

/// Putting a new topic in at the place where the entries stop being listed
/// before it keeps a listing ascending and adds just that topic.
pub proof fn lemma_insert_ascending(list: Seq<Seq<char>>, at: int, topic: Seq<char>)
    requires
        strictly_ascending(list),
        !list.contains(topic),
        0 <= at <= list.len(),
        forall|i: int| 0 <= i < at ==> precedes(#[trigger] list[i], topic),
        forall|i: int| at <= i < list.len() ==> !precedes(#[trigger] list[i], topic),
    ensures
        strictly_ascending(list.insert(at, topic)),
        list.insert(at, topic).to_set() == list.to_set().insert(topic),
{
    let grown = list.insert(at, topic);
    assert forall|i: int, j: int| 0 <= i < j < grown.len() implies precedes(
        #[trigger] grown[i],
        #[trigger] grown[j],
    ) by {
        if j < at {
            assert(precedes(list[i], list[j]));
        } else if j == at {
            assert(precedes(list[i], topic));
        } else if i == at {
            assert(!precedes(list[j - 1], topic));
            assert(list.contains(list[j - 1]));
            lemma_precedes_total(list[j - 1], topic);
        } else if i < at {
            assert(precedes(list[i], list[j - 1]));
        } else {
            assert(precedes(list[i - 1], list[j - 1]));
        }
    }
    assert forall|t: Seq<char>| grown.to_set().contains(t) == list.to_set().insert(topic).contains(
        t,
    ) by {
        if grown.contains(t) {
            let k = choose|k: int| 0 <= k < grown.len() && grown[k] == t;
            if k < at {
                assert(list[k] == t);
            } else if k > at {
                assert(list[k - 1] == t);
            }
        }
        if t == topic {
            assert(grown[at] == t);
        } else if list.contains(t) {
            let k = choose|k: int| 0 <= k < list.len() && list[k] == t;
            if k < at {
                assert(grown[k] == t);
            } else {
                assert(grown[k + 1] == t);
            }
        }
    }
    assert(grown.to_set() =~= list.to_set().insert(topic));
}

/// Every finite set of topics has an ascending listing, and
/// `ascending_list` is that listing.
pub proof fn lemma_ascending_list(topics: Set<Seq<char>>)
    requires
        topics.finite(),
    ensures
        strictly_ascending(ascending_list(topics)),
        ascending_list(topics).to_set() == topics,
    decreases topics.len(),
{
    if topics.len() == 0 {
        let empty = Seq::<Seq<char>>::empty();
        assert(topics =~= Set::empty());
        assert(empty.to_set() =~= topics);
        assert(strictly_ascending(empty) && empty.to_set() == topics);
    } else {
        let topic = topics.choose();
        let others = topics.remove(topic);
        lemma_ascending_list(others);
        let list = ascending_list(others);
        lemma_slot_splits(list, topic);
        lemma_insert_ascending(list, slot(list, topic), topic);
        let grown = list.insert(slot(list, topic), topic);
        assert(others.insert(topic) =~= topics);
        assert(strictly_ascending(grown) && grown.to_set() == topics);
    }
}

/// An ascending listing is the listing of the set of its own entries.
pub proof fn lemma_ascending_list_is(list: Seq<Seq<char>>)
    requires
        strictly_ascending(list),
    ensures
        ascending_list(list.to_set()) == list,
{
    let chosen = ascending_list(list.to_set());
    assert(strictly_ascending(chosen) && chosen.to_set() == list.to_set());
    lemma_ascending_unique(chosen, list);
}

/// An ascending listing of topics.
pub struct Listing<'a> {
    entries: Vec<&'a str>,
}

impl<'a> View for Listing<'a> {
    type V = Seq<Seq<char>>;

    closed spec fn view(&self) -> Seq<Seq<char>> {
        self.entries.deep_view()
    }
}

impl<'a> Listing<'a> {
    #[verifier::type_invariant]
    spec fn ascending(self) -> bool {
        strictly_ascending(self.entries.deep_view())
    }

    /// The listing without entries.
    pub fn new() -> (listing: Self)
        ensures
            listing@ == Seq::<Seq<char>>::empty(),
    {
        let listing = Listing { entries: Vec::new() };
        assert(listing.entries.deep_view() =~= Seq::<Seq<char>>::empty());
        listing
    }

    /// Finds by bisection where `topic` stands: the number of entries
    /// listed before it, and whether the entry there is `topic` itself.
    pub fn locate(&self, topic: &str) -> (place: (usize, bool))
        ensures
            strictly_ascending(self@),
            place.0 <= self@.len(),
            place.0 == slot(self@, topic@),
            place.1 == self@.contains(topic@),
            place.1 ==> place.0 < self@.len() && self@[place.0 as int] == topic@,
    {
        let ghost entries = self.entries.deep_view();
        let mut low: usize = 0;
        let mut high: usize = self.entries.len();
        proof {
            use_type_invariant(self);
            lemma_slot_splits(entries, topic@);
        }
        while low < high
            invariant
                entries == self.entries.deep_view(),
                strictly_ascending(entries),
                0 <= low <= high <= self.entries.len(),
                forall|i: int| 0 <= i < low ==> precedes(#[trigger] entries[i], topic@),
                forall|i: int| high <= i < entries.len() ==> precedes(topic@, #[trigger] entries[i]),
            decreases high - low,
        {
            let middle = low + (high - low) / 2;
            assert(entries[middle as int] == self.entries[middle as int]@);
            match rank(self.entries[middle], topic) {
                Rank::Before => {
                    proof {
                        assert forall|i: int| 0 <= i < middle + 1 implies precedes(
                            #[trigger] entries[i],
                            topic@,
                        ) by {
                            if i < middle {
                                assert(precedes(entries[i], entries[middle as int]));
                                lemma_precedes_transitive(
                                    entries[i],
                                    entries[middle as int],
                                    topic@,
                                );
                            }
                        }
                    }
                    low = middle + 1;
                },
                Rank::Same => {
                    proof {
                        lemma_precedes_irreflexive(topic@);
                        assert forall|i: int| 0 <= i < middle implies precedes(
                            #[trigger] entries[i],
                            topic@,
                        ) by {
                            assert(precedes(entries[i], entries[middle as int]));
                        }
                        assert forall|i: int| middle <= i < entries.len() implies !precedes(
                            #[trigger] entries[i],
                            topic@,
                        ) by {
                            if middle < i {
                                assert(precedes(entries[middle as int], entries[i]));
                                lemma_precedes_asymmetric(topic@, entries[i]);
                            }
                        }
                        lemma_slot_is(entries, topic@, middle as int);
                    }
                    return (middle, true);
                },
                Rank::After => {
                    proof {
                        lemma_precedes_total(entries[middle as int], topic@);
                        assert forall|i: int| middle <= i < entries.len() implies precedes(
                            topic@,
                            #[trigger] entries[i],
                        ) by {
                            if middle < i {
                                assert(precedes(entries[middle as int], entries[i]));
                                lemma_precedes_transitive(
                                    topic@,
                                    entries[middle as int],
                                    entries[i],
                                );
                            }
                        }
                    }
                    high = middle;
                },
            }
        }
        proof {
            lemma_precedes_irreflexive(topic@);
            assert forall|i: int| low <= i < entries.len() implies !precedes(
                #[trigger] entries[i],
                topic@,
            ) by {
                lemma_precedes_asymmetric(topic@, entries[i]);
            }
            lemma_slot_is(entries, topic@, low as int);
            if entries.contains(topic@) {
                let i = choose|i: int| 0 <= i < entries.len() && entries[i] == topic@;
                assert(precedes(entries[i], topic@) || precedes(topic@, entries[i]));
            }
        }
        (low, false)
    }

    /// The listing with `topic` put in at its place; the same listing if
    /// it holds `topic` already.
    pub fn with(self, topic: &'a str) -> (grown: Self)
        ensures
            strictly_ascending(grown@),
            grown@.to_set() == self@.to_set().insert(topic@),
            grown@ == (if self@.contains(topic@) {
                self@
            } else {
                self@.insert(slot(self@, topic@), topic@)
            }),
    {
        let ghost before = self.entries.deep_view();
        let (at, found) = self.locate(topic);
        if found {
            assert(before.to_set().insert(topic@) =~= before.to_set());
            self
        } else {
            let mut entries = self.entries;
            entries.insert(at, topic);
            proof {
                assert(entries.deep_view() =~= before.insert(at as int, topic@));
                lemma_slot_splits(before, topic@);
                lemma_insert_ascending(before, at as int, topic@);
            }
            Listing { entries }
        }
    }

    /// The entries, in order.
    pub fn into_entries(self) -> (entries: Vec<&'a str>)
        ensures
            entries.deep_view() == self@,
            strictly_ascending(entries.deep_view()),
    {
        proof {
            use_type_invariant(&self);
        }
        self.entries
    }
}

} // verus!
