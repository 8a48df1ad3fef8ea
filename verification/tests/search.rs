use bestlogs::logs::fuzzy::Matcher;
use bestlogs::logs::channels::InstanceChannels;
use bestlogs::logs::search::{SearchIndex, SearchIndexBuilder, MAX_RESULTS};
use bestlogs::logs::Channel;

fn index(entries: &[(&str, &str)]) -> SearchIndex {
    let mut builder = SearchIndexBuilder::with_capacity(entries.len());
    for (login, id) in entries {
        builder.push(login, id);
    }
    builder.finish()
}

fn names(found: &[Channel]) -> Vec<String> {
    found.iter().map(|c| c.name.clone()).collect()
}

fn sample() -> SearchIndex {
    index(&[
        ("forsen", "22484632"),
        ("forsenbajs", "1"),
        ("xqc", "71092938"),
        ("nymn", "62300805"),
        ("fors", "5"),
    ])
}

#[test]
fn search_ranks_exact_then_prefix_by_length() {
    let found = sample().search("fors", MAX_RESULTS);
    assert_eq!(names(&found), vec!["fors", "forsen", "forsenbajs"]);
    assert_eq!(found[1].user_id, "22484632");
}

#[test]
fn search_prefix_shortcut_keeps_the_shortest() {
    let found = sample().search("fors", 2);
    assert_eq!(names(&found), vec!["fors", "forsen"]);
}

#[test]
fn search_fuzzy_match_inside_login() {
    let found = sample().search("fsn", MAX_RESULTS);
    assert_eq!(names(&found), vec!["forsen", "forsenbajs"]);
}

#[test]
fn search_exact_match() {
    let found = sample().search("xqc", MAX_RESULTS);
    assert_eq!(names(&found), vec!["xqc"]);
    assert_eq!(found[0].user_id, "71092938");
}

#[test]
fn search_rejects_empty_long_and_zero_limit() {
    let idx = sample();
    assert!(idx.search("", MAX_RESULTS).is_empty());
    assert!(idx.search("abcdefghijklmnopqrstuvwxyz", MAX_RESULTS).is_empty());
    assert!(idx.search("fors", 0).is_empty());
    assert!(SearchIndex::empty().search("fors", MAX_RESULTS).is_empty());
}

#[test]
fn search_no_match() {
    assert!(sample().search("zzz", MAX_RESULTS).is_empty());
}

#[test]
fn search_index_counts_entries() {
    let idx = sample();
    assert_eq!(idx.len(), 5);
    assert_eq!(SearchIndex::empty().len(), 0);
    assert!(idx.footprint_bytes() > SearchIndex::empty().footprint_bytes());
}

#[test]
fn search_earlier_match_ranks_first() {
    let idx = index(&[("bbb", "2"), ("aab", "1"), ("abb", "3")]);
    let found = idx.search("b", MAX_RESULTS);
    assert_eq!(names(&found), vec!["bbb", "abb", "aab"]);
}

#[test]
fn search_alphabetical_tie_break() {
    let idx = index(&[("yab", "2"), ("xab", "1"), ("ab", "3")]);
    let found = idx.search("ab", MAX_RESULTS);
    assert_eq!(names(&found), vec!["ab", "xab", "yab"]);
}

#[test]
fn instance_channels_lookup_by_name_and_id() {
    let channels = InstanceChannels::new(vec![
        Channel { name: "xqc".to_string(), user_id: "71092938".to_string() },
        Channel { name: "forsen".to_string(), user_id: "22484632".to_string() },
    ]);
    assert_eq!(channels.len(), 2);
    assert!(!channels.is_empty());
    assert!(channels.contains("forsen"));
    assert!(channels.contains("71092938"));
    assert!(!channels.contains("nymn"));
    assert!(!channels.contains("Forsen"));
    let empty = InstanceChannels::empty();
    assert!(empty.is_empty());
    assert!(!empty.contains(""));
}

#[test]
fn instance_channels_sorted_for_binary_search() {
    let names = ["e", "d", "c", "b", "a"];
    let ids = ["10", "2", "33", "4", "0"];
    let channels = InstanceChannels::new(
        names
            .iter()
            .zip(ids.iter())
            .map(|(n, i)| Channel { name: n.to_string(), user_id: i.to_string() })
            .collect(),
    );
    for n in names {
        assert!(channels.contains(n));
    }
    for i in ids {
        assert!(channels.contains(i));
    }
    assert!(!channels.contains("f"));
    assert!(!channels.contains("1"));
    let listed: Vec<&str> = channels.channels().iter().map(|c| c.name.as_str()).collect();
    assert_eq!(listed, vec!["a", "b", "c", "d", "e"]);
}

#[test]
fn matcher_score_meaning() {
    let m = Matcher::new(b"fo");
    let exact = m.score(b"fo").unwrap();
    assert_eq!((exact.rank, exact.len), (0, 2));
    let prefix = m.score(b"forsen").unwrap();
    assert_eq!((prefix.rank, prefix.span, prefix.offset, prefix.len), (1, 2, 0, 6));
    let inside = m.score(b"xfxo").unwrap();
    assert_eq!((inside.rank, inside.span, inside.offset, inside.len), (2, 3, 1, 4));
    assert!(m.score(b"of").is_none());
}
