//! Which topics the tree view lists.
//!
//! The known topics imply the nodes of the tree: every topic and every
//! ancestor of a topic. A node is shown when all its ancestors are opened.

use crate::listing::{
    ascending_list, is_subsequence, lemma_ascending_list, lemma_ascending_list_is,
    lemma_ascending_no_duplicates, strictly_ascending, Listing,
};
use crate::order::{lemma_prefix_precedes, precedes};
use crate::topic::{
    get_all_parents, lemma_parent_is_prefix, lemma_parents_of_parent, parents_of,
};
use std::collections::HashSet;
use vstd::prelude::*;

verus! {

/// `node` is `topic` itself or one of its ancestors.
pub open spec fn is_node_of(node: Seq<char>, topic: Seq<char>) -> bool {
    node == topic || parents_of(topic).contains(node)
}

/// The nodes of the tree that `topics` imply.
pub open spec fn node_set(topics: Seq<Seq<char>>) -> Set<Seq<char>> {
    Set::new(
        |node: Seq<char>|
            exists|i: int| 0 <= i < topics.len() && is_node_of(node, #[trigger] topics[i]),
    )
}

/// The nodes of the tree that `topics` imply, in listing order, each once.
pub open spec fn tree_nodes(topics: Seq<Seq<char>>) -> Seq<Seq<char>> {
    ascending_list(node_set(topics))
}

/// All ancestors of `topic` are opened. A topic without ancestors is
/// always shown.
pub open spec fn is_shown(topic: Seq<char>, opened: Set<Seq<char>>) -> bool {
    forall|i: int|
        0 <= i < parents_of(topic).len() ==> opened.contains(#[trigger] parents_of(topic)[i])
}

/// The entries of `nodes` that are shown, in their order in `nodes`.
pub open spec fn shown_topics(nodes: Seq<Seq<char>>, opened: Set<Seq<char>>) -> Seq<Seq<char>> {
    nodes.filter(|node: Seq<char>| is_shown(node, opened))
}

/// One more topic adds itself and its ancestors to the nodes.
pub proof fn lemma_node_set_push(topics: Seq<Seq<char>>, topic: Seq<char>)
    ensures
        node_set(topics.push(topic)) == node_set(topics).union(parents_of(topic).to_set()).insert(
            topic,
        ),
{
    let more = topics.push(topic);
    let expected = node_set(topics).union(parents_of(topic).to_set()).insert(topic);
    assert forall|node: Seq<char>| node_set(more).contains(node) == expected.contains(node) by {
        if node_set(more).contains(node) {
            let i = choose|i: int| 0 <= i < more.len() && is_node_of(node, #[trigger] more[i]);
            if i < topics.len() {
                assert(is_node_of(node, topics[i]));
            }
        }
        if node_set(topics).contains(node) {
            let i = choose|i: int| 0 <= i < topics.len() && is_node_of(node, #[trigger] topics[i]);
            assert(is_node_of(node, more[i]));
        }
        if is_node_of(node, topic) {
            assert(is_node_of(node, more[topics.len() as int]));
        }
    }
    assert(node_set(more) =~= expected);
}

/// Only finitely many nodes are implied by a sequence of topics.
pub proof fn lemma_node_set_finite(topics: Seq<Seq<char>>)
    ensures
        node_set(topics).finite(),
    decreases topics.len(),
{
    if topics.len() == 0 {
        assert(node_set(topics) =~= Set::empty());
    } else {
        let rest = topics.drop_last();
        lemma_node_set_finite(rest);
        lemma_node_set_push(rest, topics.last());
        assert(rest.push(topics.last()) =~= topics);
        vstd::seq_lib::seq_to_set_is_finite(parents_of(topics.last()));
    }
}

/// The listing of the nodes is sorted, holds no node twice, and holds
/// exactly the nodes that the topics imply.
pub proof fn lemma_tree_nodes_listing(topics: Seq<Seq<char>>)
    ensures
        strictly_ascending(tree_nodes(topics)),
        tree_nodes(topics).no_duplicates(),
        tree_nodes(topics).to_set() == node_set(topics),
{
    lemma_node_set_finite(topics);
    lemma_ascending_list(node_set(topics));
    lemma_ascending_no_duplicates(tree_nodes(topics));
}

/// The nodes depend on which topics are known, not on their order nor on
/// how often each one occurs.
pub proof fn lemma_tree_nodes_same_topics(first: Seq<Seq<char>>, second: Seq<Seq<char>>)
    requires
        first.to_set() == second.to_set(),
    ensures
        tree_nodes(first) == tree_nodes(second),
{
    assert forall|node: Seq<char>| node_set(first).contains(node) == node_set(second).contains(
        node,
    ) by {
        if node_set(first).contains(node) {
            let i = choose|i: int| 0 <= i < first.len() && is_node_of(node, #[trigger] first[i]);
            assert(first.to_set().contains(first[i]));
            let j = choose|j: int| 0 <= j < second.len() && second[j] == first[i];
            assert(is_node_of(node, second[j]));
        }
        if node_set(second).contains(node) {
            let i = choose|i: int| 0 <= i < second.len() && is_node_of(node, #[trigger] second[i]);
            assert(second.to_set().contains(second[i]));
            let j = choose|j: int| 0 <= j < first.len() && first[j] == second[i];
            assert(is_node_of(node, first[j]));
        }
    }
    assert(node_set(first) =~= node_set(second));
}

/// Every ancestor of a node is a node.
pub proof fn lemma_nodes_hold_their_parents(topics: Seq<Seq<char>>, node: Seq<char>, i: int)
    requires
        node_set(topics).contains(node),
        0 <= i < parents_of(node).len(),
    ensures
        node_set(topics).contains(parents_of(node)[i]),
{
    let k = choose|k: int| 0 <= k < topics.len() && is_node_of(node, #[trigger] topics[k]);
    let parent = parents_of(node)[i];
    if node != topics[k] {
        let at = choose|at: int|
            0 <= at < parents_of(topics[k]).len() && parents_of(topics[k])[at] == node;
        lemma_parents_of_parent(topics[k], at);
        assert(parents_of(topics[k])[i] == parents_of(topics[k]).take(at)[i]);
    }
    assert(parents_of(topics[k]).contains(parent));
    assert(is_node_of(parent, topics[k]));
}

/// Taking the nodes for topics makes nothing new: the nodes imply no
/// nodes but themselves.
pub proof fn lemma_tree_nodes_idempotent(topics: Seq<Seq<char>>)
    ensures
        tree_nodes(tree_nodes(topics)) == tree_nodes(topics),
{
    let nodes = tree_nodes(topics);
    lemma_tree_nodes_listing(topics);
    assert forall|node: Seq<char>| node_set(nodes).contains(node) == node_set(topics).contains(
        node,
    ) by {
        if node_set(nodes).contains(node) {
            let i = choose|i: int| 0 <= i < nodes.len() && is_node_of(node, #[trigger] nodes[i]);
            assert(nodes.to_set().contains(nodes[i]));
            if node != nodes[i] {
                let at = choose|at: int|
                    0 <= at < parents_of(nodes[i]).len() && parents_of(nodes[i])[at] == node;
                lemma_nodes_hold_their_parents(topics, nodes[i], at);
            }
        }
        if node_set(topics).contains(node) {
            assert(nodes.to_set().contains(node));
            let i = choose|i: int| 0 <= i < nodes.len() && nodes[i] == node;
            assert(is_node_of(node, nodes[i]));
        }
    }
    assert(node_set(nodes) =~= node_set(topics));
}

/// A node stands after each of its ancestors in the listing order.
pub proof fn lemma_parent_precedes(topic: Seq<char>, i: int)
    requires
        0 <= i < parents_of(topic).len(),
    ensures
        precedes(parents_of(topic)[i], topic),
{
    lemma_parent_is_prefix(topic, i);
    lemma_prefix_precedes(parents_of(topic)[i], topic);
}

/// What is shown is a subsequence of the nodes.
pub proof fn lemma_shown_is_subsequence(nodes: Seq<Seq<char>>, opened: Set<Seq<char>>)
    ensures
        is_subsequence(shown_topics(nodes, opened), nodes),
    decreases nodes.len(),
{
    reveal(Seq::filter);
    if nodes.len() > 0 {
        let rest = nodes.drop_last();
        lemma_shown_is_subsequence(rest, opened);
        if is_shown(nodes.last(), opened) {
            assert(shown_topics(rest, opened).push(nodes.last()).drop_last() =~= shown_topics(
                rest,
                opened,
            ));
        }
    }
}

/// Opening more nodes hides nothing: what is shown with fewer nodes
/// opened is still shown, in the same order, with more nodes opened.
pub proof fn lemma_shown_monotonic(
    nodes: Seq<Seq<char>>,
    fewer: Set<Seq<char>>,
    more: Set<Seq<char>>,
)
    requires
        fewer.subset_of(more),
    ensures
        is_subsequence(shown_topics(nodes, fewer), shown_topics(nodes, more)),
    decreases nodes.len(),
{
    reveal(Seq::filter);
    if nodes.len() > 0 {
        let rest = nodes.drop_last();
        let node = nodes.last();
        lemma_shown_monotonic(rest, fewer, more);
        let part = shown_topics(rest, fewer);
        let whole = shown_topics(rest, more);
        if is_shown(node, fewer) {
            assert(is_shown(node, more));
            assert(part.push(node).drop_last() =~= part);
            assert(whole.push(node).drop_last() =~= whole);
        } else if is_shown(node, more) {
            assert(whole.push(node).drop_last() =~= whole);
        }
    }
}

/// With nothing opened, the nodes without ancestors are shown and no
/// others.
pub proof fn lemma_shown_with_none_opened(nodes: Seq<Seq<char>>)
    ensures
        shown_topics(nodes, Set::empty()) == nodes.filter(
            |node: Seq<char>| parents_of(node).len() == 0,
        ),
    decreases nodes.len(),
{
    reveal(Seq::filter);
    if nodes.len() > 0 {
        lemma_shown_with_none_opened(nodes.drop_last());
        let node = nodes.last();
        if parents_of(node).len() > 0 {
            assert(!Set::<Seq<char>>::empty().contains(parents_of(node)[0]));
        }
    }
}

/// A shown node has all its ancestors shown.
pub proof fn lemma_shown_parents(topic: Seq<char>, opened: Set<Seq<char>>, i: int)
    requires
        is_shown(topic, opened),
        0 <= i < parents_of(topic).len(),
    ensures
        is_shown(parents_of(topic)[i], opened),
{
    lemma_parents_of_parent(topic, i);
    let parent = parents_of(topic)[i];
    assert forall|k: int| 0 <= k < parents_of(parent).len() implies opened.contains(
        #[trigger] parents_of(parent)[k],
    ) by {
        assert(parents_of(parent)[k] == parents_of(topic)[k]);
    }
}

/// The nodes of the tree, sorted and without repeats: every known topic and
/// every ancestor of one.
pub fn build_all_tree_variants<'a>(existing: &'a [String]) -> (nodes: Vec<&'a str>)
    ensures
        nodes.deep_view() == tree_nodes(existing.deep_view()),
        strictly_ascending(nodes.deep_view()),
        nodes.deep_view().no_duplicates(),
        nodes.deep_view().to_set() == node_set(existing.deep_view()),
{
    let ghost topics = existing.deep_view();
    let mut listing = Listing::new();
    assert(listing@.to_set() =~= node_set(topics.take(0)));
    for i in 0..existing.len()
        invariant
            topics == existing.deep_view(),
            listing@.to_set() == node_set(topics.take(i as int)),
    {
        let entry: &'a str = existing[i].as_str();
        let parents = get_all_parents(entry);
        let ghost seen = node_set(topics.take(i as int));
        let ghost ancestors = parents.deep_view();
        assert(seen.union(ancestors.take(0).to_set()) =~= seen);
        for j in 0..parents.len()
            invariant
                ancestors == parents.deep_view(),
                listing@.to_set() == seen.union(ancestors.take(j as int).to_set()),
        {
            listing = listing.with(parents[j]);
            proof {
                assert(ancestors.take(j + 1) =~= ancestors.take(j as int).push(ancestors[j as int]));
                ancestors.take(j as int).lemma_push_to_set_commute(ancestors[j as int]);
                assert(seen.union(ancestors.take(j as int).to_set()).insert(ancestors[j as int])
                    =~= seen.union(ancestors.take(j + 1).to_set()));
            }
        }
        listing = listing.with(entry);
        proof {
            assert(ancestors.take(parents.len() as int) =~= ancestors);
            assert(topics.take(i + 1) =~= topics.take(i as int).push(entry@));
            lemma_node_set_push(topics.take(i as int), entry@);
        }
    }
    let nodes = listing.into_entries();
    proof {
        assert(topics.take(existing.len() as int) =~= topics);
        lemma_ascending_list_is(nodes.deep_view());
        lemma_ascending_no_duplicates(nodes.deep_view());
    }
    nodes
}

/// `HashSet::contains` on a set of strings, asked with a string slice:
/// whether some member of the set has the same characters as `name`.
#[verifier::external_body]
fn holds(opened: &HashSet<String>, name: &str) -> (found: bool)
    ensures
        found == opened.deep_view().contains(name@),
{
    opened.contains(name)
}

/// Whether `topic` is shown: whether all its ancestors are opened.
pub fn is_topic_opened(opened: &HashSet<String>, topic: &str) -> (shown: bool)
    ensures
        shown == is_shown(topic@, opened.deep_view()),
{
    let parents = get_all_parents(topic);
    for i in 0..parents.len()
        invariant
            parents.deep_view() == parents_of(topic@),
            forall|k: int| 0 <= k < i ==> opened.deep_view().contains(#[trigger] parents_of(topic@)[k]),
    {
        if !holds(opened, parents[i]) {
            assert(!opened.deep_view().contains(parents_of(topic@)[i as int]));
            return false;
        }
    }
    true
}

/// The entries of `all` that are shown, in their order in `all`.
pub fn filter_topics_by_opened<'a>(
    all: &[&'a str],
    opened: &HashSet<String>,
) -> (shown: Vec<&'a str>)
    ensures
        shown.deep_view() == shown_topics(all.deep_view(), opened.deep_view()),
{
    let ghost nodes = all.deep_view();
    let ghost is_shown_node = |node: Seq<char>| is_shown(node, opened.deep_view());
    let mut shown: Vec<&'a str> = Vec::new();
    proof {
        reveal(Seq::filter);
        assert(nodes.take(0).filter(is_shown_node) =~= shown.deep_view());
    }
    for i in 0..all.len()
        invariant
            nodes == all.deep_view(),
            is_shown_node == |node: Seq<char>| is_shown(node, opened.deep_view()),
            shown.deep_view() == nodes.take(i as int).filter(is_shown_node),
    {
        let entry: &'a str = all[i];
        let ghost before = shown.deep_view();
        proof {
            assert(nodes.take(i + 1) =~= nodes.take(i as int).push(entry@));
            nodes.take(i as int).lemma_filter_push(entry@, is_shown_node);
        }
        if is_topic_opened(opened, entry) {
            shown.push(entry);
            assert(shown.deep_view() =~= before.push(entry@));
        }
    }
    assert(nodes.take(all.len() as int) =~= nodes);
    shown
}

/// The topics to draw: the nodes of the tree that `existing` implies, sorted
/// and without repeats, as far as all their ancestors are opened.
pub fn get_shown_topics<'a>(
    existing: &'a [String],
    opened: &HashSet<String>,
) -> (shown: Vec<&'a str>)
    ensures
        shown.deep_view() == shown_topics(tree_nodes(existing.deep_view()), opened.deep_view()),
{
    let all = build_all_tree_variants(existing);
    filter_topics_by_opened(all.as_slice(), opened)
}

} // verus!
