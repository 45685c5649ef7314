//! Topic names and their ancestors.

use vstd::prelude::*;

verus! {

/// The character that separates the levels of a topic.
pub const SEPARATOR: char = '/';

/// The ancestors of `topic`, outermost first: one prefix for every
/// separator in it, ending just before that separator.
///
/// Every separator is structural. A leading separator therefore yields the
/// empty string as outermost ancestor, and a doubled separator yields an
/// ancestor that ends in a separator.
pub open spec fn parents_of(topic: Seq<char>) -> Seq<Seq<char>>
    decreases topic.len(),
{
    if topic.len() == 0 {
        Seq::empty()
    } else if topic.last() == SEPARATOR {
        parents_of(topic.drop_last()).push(topic.drop_last())
    } else {
        parents_of(topic.drop_last())
    }
}

/// The ancestors of `topic` are its prefixes that end just before a
/// separator, and no others.
pub proof fn lemma_parents_are_cuts(topic: Seq<char>, parent: Seq<char>)
    ensures
        parents_of(topic).contains(parent) <==> exists|at: int|
            0 <= at < topic.len() && #[trigger] topic[at] == SEPARATOR && parent == topic.take(at),
    decreases topic.len(),
{
    if topic.len() > 0 {
        let shorter = topic.drop_last();
        let cut = topic.len() - 1;
        lemma_parents_are_cuts(shorter, parent);
        assert(topic.take(cut) =~= shorter);
        if parents_of(topic).contains(parent) {
            let i = choose|i: int| 0 <= i < parents_of(topic).len() && parents_of(topic)[i] == parent;
            if i < parents_of(shorter).len() {
                assert(parents_of(shorter)[i] == parent);
                let at = choose|at: int|
                    0 <= at < shorter.len() && #[trigger] shorter[at] == SEPARATOR && parent
                        == shorter.take(at);
                assert(shorter.take(at) =~= topic.take(at));
                assert(topic[at] == SEPARATOR);
            } else {
                assert(topic[cut] == SEPARATOR);
            }
        }
        if exists|at: int|
            0 <= at < topic.len() && #[trigger] topic[at] == SEPARATOR && parent == topic.take(at) {
            let at = choose|at: int|
                0 <= at < topic.len() && #[trigger] topic[at] == SEPARATOR && parent == topic.take(
                    at,
                );
            if at < cut {
                assert(shorter.take(at) =~= topic.take(at));
                assert(shorter[at] == SEPARATOR);
                let i = choose|i: int|
                    0 <= i < parents_of(shorter).len() && parents_of(shorter)[i] == parent;
                assert(parents_of(topic)[i] == parent);
            } else {
                assert(parents_of(topic).last() == parent);
            }
        }
    }
}

/// A topic has as many ancestors as it has separators.
pub proof fn lemma_parents_count(topic: Seq<char>)
    ensures
        parents_of(topic).len() == topic.filter(|c: char| c == SEPARATOR).len(),
    decreases topic.len(),
{
    reveal(Seq::filter);
    if topic.len() > 0 {
        lemma_parents_count(topic.drop_last());
    }
}

/// Each ancestor is a proper prefix of the topic, and the topic has a
/// separator right behind it.
pub proof fn lemma_parent_is_prefix(topic: Seq<char>, i: int)
    requires
        0 <= i < parents_of(topic).len(),
    ensures
        parents_of(topic)[i].len() < topic.len(),
        parents_of(topic)[i] == topic.take(parents_of(topic)[i].len() as int),
        topic[parents_of(topic)[i].len() as int] == SEPARATOR,
{
    let parent = parents_of(topic)[i];
    lemma_parents_are_cuts(topic, parent);
    let at = choose|at: int|
        0 <= at < topic.len() && #[trigger] topic[at] == SEPARATOR && parent == topic.take(at);
    assert(parent.len() == at);
}

/// The ancestors of an ancestor are the ancestors that come before it:
/// ancestors are listed outermost first, and none is left out.
pub proof fn lemma_parents_of_parent(topic: Seq<char>, i: int)
    requires
        0 <= i < parents_of(topic).len(),
    ensures
        parents_of(parents_of(topic)[i]) == parents_of(topic).take(i),
    decreases topic.len(),
{
    let shorter = topic.drop_last();
    if i < parents_of(shorter).len() {
        lemma_parents_of_parent(shorter, i);
        assert(parents_of(shorter).take(i) =~= parents_of(topic).take(i));
    } else {
        assert(parents_of(topic).take(i) =~= parents_of(shorter));
    }
}

/// A string has at most as many characters as its encoding has bytes.
proof fn lemma_chars_fit(chars: Seq<char>)
    ensures
        chars.len() <= vstd::utf8::encode_utf8(chars).len(),
    decreases chars.len(),
{
    if chars.len() > 0 {
        lemma_chars_fit(chars.drop_first());
    }
}

/// All ancestors of `topic`, outermost first. A topic without separator,
/// the empty topic among them, has none.
pub fn get_all_parents<'a>(topic: &'a str) -> (parents: Vec<&'a str>)
    ensures
        parents.deep_view() == parents_of(topic@),
{
    let bytes = topic.as_bytes().len();
    proof {
        lemma_chars_fit(topic@);
    }
    let mut parents: Vec<&'a str> = Vec::new();
    let mut i: usize = 0;
    for c in it: topic.chars()
        invariant
            topic@.len() <= bytes,
            i == it.index(),
            it.seq() == topic@,
            parents.deep_view() == parents_of(topic@.take(i as int)),
    {
        let ghost before = parents.deep_view();
        if c == SEPARATOR {
            let parent = topic.substring_char(0, i);
            parents.push(parent);
            assert(parents.deep_view() =~= before.push(parent@));
        }
        assert(topic@.take(i + 1).drop_last() =~= topic@.take(i as int));
        i += 1;
    }
    assert(topic@.take(i as int) =~= topic@);
    parents
}

} // verus!
