use mqttui::listing::Listing;
use mqttui::order::{rank, Rank};
use mqttui::topic::{get_all_parents, SEPARATOR};

#[test]
fn the_separator_is_a_slash() {
    assert_eq!(SEPARATOR, '/');
}

#[test]
fn parents_of_a_topic_without_separator() {
    assert!(get_all_parents("foo").is_empty());
    assert!(get_all_parents("").is_empty());
}

#[test]
fn parents_come_outermost_first() {
    assert_eq!(get_all_parents("a/b"), ["a"]);
    assert_eq!(get_all_parents("a/b/c"), ["a", "a/b"]);
    assert_eq!(get_all_parents("e/f/g/h/i"), ["e", "e/f", "e/f/g", "e/f/g/h"]);
    assert_eq!(get_all_parents("foo/bar/test"), ["foo", "foo/bar"]);
}

#[test]
fn parents_one_for_each_separator() {
    assert_eq!(get_all_parents("/").len(), 1);
    assert_eq!(get_all_parents("a/b/c/d/e/f").len(), 5);
    assert_eq!(get_all_parents("///").len(), 3);
    assert_eq!(get_all_parents("no separator here").len(), 0);
}

#[test]
fn parents_keep_every_separator() {
    assert_eq!(get_all_parents("/a"), [""]);
    assert_eq!(get_all_parents("a/"), ["a"]);
    assert_eq!(get_all_parents("a//b"), ["a", "a/"]);
    assert_eq!(get_all_parents("/"), [""]);
    assert_eq!(get_all_parents("//"), ["", "/"]);
}

#[test]
fn parents_of_topics_beyond_ascii() {
    assert_eq!(get_all_parents("é/ü/x"), ["é", "é/ü"]);
    assert_eq!(get_all_parents("日本/語"), ["日本"]);
    assert_eq!(get_all_parents("a\u{10348}/b"), ["a\u{10348}"]);
}

#[test]
fn parents_are_prefixes_of_the_topic() {
    let topic = "home/living room/lamp/state";
    for parent in get_all_parents(topic) {
        assert!(topic.starts_with(parent));
        assert_eq!(&topic[parent.len()..parent.len() + 1], "/");
    }
}

#[test]
fn parents_of_a_parent_are_the_parents_before_it() {
    let parents = get_all_parents("a/b/c/d");
    for (i, parent) in parents.iter().enumerate() {
        assert_eq!(get_all_parents(parent), parents[..i]);
    }
}

#[test]
fn rank_of_equal_topics() {
    assert_eq!(rank("", ""), Rank::Same);
    assert_eq!(rank("a/b", "a/b"), Rank::Same);
    assert_eq!(rank("日本", "日本"), Rank::Same);
}

#[test]
fn rank_by_the_first_difference() {
    assert_eq!(rank("a", "b"), Rank::Before);
    assert_eq!(rank("b", "a"), Rank::After);
    assert_eq!(rank("ab", "b"), Rank::Before);
    assert_eq!(rank("a/b", "a/c"), Rank::Before);
    assert_eq!(rank("a/c", "a/b/d"), Rank::After);
    assert_eq!(rank("a-b", "a/b"), Rank::Before);
    assert_eq!(rank("Z", "a"), Rank::Before);
}

#[test]
fn rank_of_a_prefix() {
    assert_eq!(rank("", "a"), Rank::Before);
    assert_eq!(rank("a", ""), Rank::After);
    assert_eq!(rank("a", "a/b"), Rank::Before);
    assert_eq!(rank("a/b", "a"), Rank::After);
}

#[test]
fn rank_agrees_with_the_order_of_strings() {
    let topics = ["", "a", "a/b", "a-b", "Z", "z", "é", "é/ü", "日本", "~", "\u{10348}", "\u{ffff}"];
    for a in topics {
        for b in topics {
            let expected = if a < b {
                Rank::Before
            } else if a == b {
                Rank::Same
            } else {
                Rank::After
            };
            assert_eq!(rank(a, b), expected);
        }
    }
}

#[test]
fn a_topic_ranks_after_its_parents() {
    for topic in ["a/b/c", "/", "x//y", "é/ü/x"] {
        for parent in get_all_parents(topic) {
            assert_eq!(rank(parent, topic), Rank::Before);
        }
    }
}

fn listing_of<'a>(topics: &[&'a str]) -> Listing<'a> {
    let mut listing = Listing::new();
    for topic in topics {
        listing = listing.with(topic);
    }
    listing
}

#[test]
fn a_new_listing_is_empty() {
    assert!(Listing::new().into_entries().is_empty());
}

#[test]
fn locate_in_an_empty_listing() {
    assert_eq!(Listing::new().locate("a"), (0, false));
}

#[test]
fn locate_finds_an_entry() {
    let listing = listing_of(&["a", "a/b", "c", "e", "e/f"]);
    assert_eq!(listing.locate("a"), (0, true));
    assert_eq!(listing.locate("a/b"), (1, true));
    assert_eq!(listing.locate("c"), (2, true));
    assert_eq!(listing.locate("e"), (3, true));
    assert_eq!(listing.locate("e/f"), (4, true));
}

#[test]
fn locate_counts_the_entries_before_a_new_topic() {
    let listing = listing_of(&["a", "a/b", "c", "e", "e/f"]);
    assert_eq!(listing.locate(""), (0, false));
    assert_eq!(listing.locate("a/a"), (1, false));
    assert_eq!(listing.locate("b"), (2, false));
    assert_eq!(listing.locate("d"), (3, false));
    assert_eq!(listing.locate("e/e"), (4, false));
    assert_eq!(listing.locate("f"), (5, false));
}

#[test]
fn a_listing_takes_a_new_topic_in_at_its_place() {
    let listing = listing_of(&["a", "c", "e"]).with("d");
    let listing = listing.with("");
    let listing = listing.with("z");
    assert_eq!(listing.into_entries(), ["", "a", "c", "d", "e", "z"]);
}

#[test]
fn a_listing_holds_a_topic_once() {
    let listing = listing_of(&["a", "c", "e"]).with("c").with("a").with("e");
    assert_eq!(listing.into_entries(), ["a", "c", "e"]);
}

#[test]
fn a_listing_is_in_order_however_it_was_filled() {
    let listing = listing_of(&["e", "a/b", "c", "a", "e/f", "c", "a"]);
    assert_eq!(listing.into_entries(), ["a", "a/b", "c", "e", "e/f"]);
}
