use diary::entry::DiaryEntry;
use diary::session::{action_for_key, Action};
use diary::state::DiaryState;
use diary::text::{first_line, split_tags};

fn cv(s: &str) -> Vec<char> {
    s.chars().collect()
}

fn sv(v: &Vec<char>) -> String {
    v.iter().collect()
}

fn tag_strings(tags: &Vec<Vec<char>>) -> Vec<String> {
    tags.iter().map(|t| t.iter().collect()).collect()
}

#[test]
fn create_assigns_sequential_ids() {
    let mut store = DiaryState::new();
    assert_eq!(store.next_id(), 1);
    store.add_entry(DiaryEntry::new(0, cv("first"), vec![cv("a")]));
    store.add_entry(DiaryEntry::new(77, cv("second"), vec![]));
    store.add_entry(DiaryEntry::new(0, cv("third"), vec![]));
    let entries = store.get_entries();
    assert_eq!(entries.len(), 3);
    assert_eq!(entries[0].id, 1);
    assert_eq!(entries[1].id, 2);
    assert_eq!(entries[2].id, 3);
    assert_eq!(store.next_id(), 4);
    assert_eq!(sv(&entries[0].content), "first");
    assert_eq!(sv(&entries[1].content), "second");
}

#[test]
fn create_returns_the_stored_entry() {
    let mut store = DiaryState::new();
    let stored = store.add_entry(DiaryEntry::new(0, cv("hello"), vec![cv("x")]));
    assert_eq!(stored.id, 1);
    assert_eq!(sv(&stored.content), "hello");
    let in_store = &store.get_entries()[0];
    assert_eq!(in_store.id, stored.id);
    assert_eq!(in_store.timestamp, stored.timestamp);
    assert_eq!(in_store.tags, stored.tags);
}

#[test]
fn create_after_delete_never_reuses_id() {
    let mut store = DiaryState::new();
    store.add_entry(DiaryEntry::new(0, cv("one"), vec![]));
    store.add_entry(DiaryEntry::new(0, cv("two"), vec![]));
    store.delete_entry(2);
    assert_eq!(store.get_entries().len(), 1);
    store.add_entry(DiaryEntry::new(0, cv("three"), vec![]));
    let entries = store.get_entries();
    assert_eq!(entries.len(), 2);
    assert_eq!(entries[0].id, 1);
    assert_eq!(entries[1].id, 3);
}

#[test]
fn ids_stay_increasing_through_interleaved_deletes() {
    let mut store = DiaryState::new();
    for _ in 0..4 {
        store.add_entry(DiaryEntry::new(0, cv("x"), vec![]));
    }
    store.delete_entry(1);
    store.delete_entry(3);
    store.add_entry(DiaryEntry::new(0, cv("y"), vec![]));
    let ids: Vec<u64> = store.get_entries().iter().map(|e| e.id).collect();
    assert_eq!(ids, vec![2, 4, 5]);
    for w in ids.windows(2) {
        assert!(w[0] < w[1]);
    }
}

#[test]
fn delete_absent_id_is_noop() {
    let mut store = DiaryState::new();
    store.add_entry(DiaryEntry::new(0, cv("keep"), vec![]));
    let before = store.save();
    store.delete_entry(99);
    assert_eq!(store.save(), before);
    assert_eq!(store.get_entries().len(), 1);
}

#[test]
fn update_replaces_matching_entry() {
    let mut store = DiaryState::new();
    store.add_entry(DiaryEntry::new(0, cv("draft"), vec![cv("old")]));
    let stored = &store.get_entries()[0];
    let updated = DiaryEntry {
        id: stored.id,
        timestamp: stored.timestamp.clone(),
        content: cv("final text"),
        tags: vec![cv("new")],
    };
    let old_timestamp = stored.timestamp.clone();
    store.update_entry(updated);
    let entries = store.get_entries();
    assert_eq!(entries.len(), 1);
    assert_eq!(entries[0].id, 1);
    assert_eq!(sv(&entries[0].content), "final text");
    assert_eq!(tag_strings(&entries[0].tags), vec!["new".to_string()]);
    assert_eq!(entries[0].timestamp, old_timestamp);
}

#[test]
fn update_absent_id_leaves_store_unchanged() {
    let mut store = DiaryState::new();
    store.add_entry(DiaryEntry::new(0, cv("original"), vec![cv("t")]));
    let before = store.save();
    let stray = DiaryEntry {
        id: 42,
        timestamp: cv("2024-01-01T00:00:00+00:00"),
        content: cv("never stored"),
        tags: vec![],
    };
    store.update_entry(stray);
    assert_eq!(store.save(), before);
    assert_eq!(sv(&store.get_entries()[0].content), "original");
}

#[test]
fn search_empty_query_returns_all_in_order() {
    let mut store = DiaryState::new();
    store.add_entry(DiaryEntry::new(0, cv("alpha"), vec![]));
    store.add_entry(DiaryEntry::new(0, cv("beta"), vec![]));
    store.add_entry(DiaryEntry::new(0, cv("gamma"), vec![]));
    let found = store.search_entries(&cv(""));
    assert_eq!(found.len(), 3);
    assert_eq!(sv(&found[0].content), "alpha");
    assert_eq!(sv(&found[1].content), "beta");
    assert_eq!(sv(&found[2].content), "gamma");
}

#[test]
fn search_is_case_insensitive_on_content() {
    let mut store = DiaryState::new();
    store.add_entry(DiaryEntry::new(0, cv("Hello World"), vec![]));
    store.add_entry(DiaryEntry::new(0, cv("nothing here"), vec![]));
    let found = store.search_entries(&cv("WORLD"));
    assert_eq!(found.len(), 1);
    assert_eq!(sv(&found[0].content), "Hello World");
    let found = store.search_entries(&cv("hello w"));
    assert_eq!(found.len(), 1);
}

#[test]
fn search_matches_any_tag() {
    let mut store = DiaryState::new();
    store.add_entry(DiaryEntry::new(0, cv("no match in content"), vec![cv("Work"), cv("ideas")]));
    store.add_entry(DiaryEntry::new(0, cv("also nothing"), vec![cv("home")]));
    let found = store.search_entries(&cv("wOrK"));
    assert_eq!(found.len(), 1);
    assert_eq!(found[0].id, 1);
}

#[test]
fn search_without_match_returns_empty() {
    let mut store = DiaryState::new();
    store.add_entry(DiaryEntry::new(0, cv("something"), vec![cv("tag")]));
    let found = store.search_entries(&cv("absent"));
    assert!(found.is_empty());
}

#[test]
fn search_keeps_insertion_order() {
    let mut store = DiaryState::new();
    store.add_entry(DiaryEntry::new(0, cv("shared token one"), vec![]));
    store.add_entry(DiaryEntry::new(0, cv("unrelated"), vec![]));
    store.add_entry(DiaryEntry::new(0, cv("shared token two"), vec![]));
    let found = store.search_entries(&cv("shared token"));
    assert_eq!(found.len(), 2);
    assert_eq!(found[0].id, 1);
    assert_eq!(found[1].id, 3);
}

#[test]
fn split_tags_trims_and_keeps_empty_pieces() {
    let tags = split_tags(&cv("work, ideas ,  "));
    assert_eq!(tag_strings(&tags), vec!["work".to_string(), "ideas".to_string(), "".to_string()]);
}

#[test]
fn split_tags_of_empty_string_yields_one_empty_tag() {
    let tags = split_tags(&cv(""));
    assert_eq!(tag_strings(&tags), vec!["".to_string()]);
}

#[test]
fn split_tags_single_word() {
    let tags = split_tags(&cv("  journal  "));
    assert_eq!(tag_strings(&tags), vec!["journal".to_string()]);
}

#[test]
fn first_line_stops_at_newline() {
    assert_eq!(sv(&first_line(&cv("title\nbody"))), "title");
    assert_eq!(sv(&first_line(&cv("no newline"))), "no newline");
    assert_eq!(sv(&first_line(&cv(""))), "");
}

#[test]
fn duplicate_copies_every_field() {
    let e = DiaryEntry {
        id: 9,
        timestamp: cv("2024-05-06T07:08:09+00:00"),
        content: cv("body\nwith lines"),
        tags: vec![cv("a"), cv("b")],
    };
    let d = e.duplicate();
    assert_eq!(d.id, e.id);
    assert_eq!(d.timestamp, e.timestamp);
    assert_eq!(d.content, e.content);
    assert_eq!(d.tags, e.tags);
}

#[test]
fn action_for_key_write_and_quit_always_available() {
    assert_eq!(action_for_key('w', false), Some(Action::Write));
    assert_eq!(action_for_key('q', false), Some(Action::Quit));
    assert_eq!(action_for_key('w', true), Some(Action::Write));
}

#[test]
fn action_for_key_browsing_needs_entries() {
    assert_eq!(action_for_key('v', false), None);
    assert_eq!(action_for_key('e', false), None);
    assert_eq!(action_for_key('d', false), None);
    assert_eq!(action_for_key('s', false), None);
    assert_eq!(action_for_key('v', true), Some(Action::View));
    assert_eq!(action_for_key('e', true), Some(Action::Edit));
    assert_eq!(action_for_key('d', true), Some(Action::Delete));
    assert_eq!(action_for_key('s', true), Some(Action::Search));
}

#[test]
fn action_for_key_other_keys_do_nothing() {
    assert_eq!(action_for_key('x', true), None);
    assert_eq!(action_for_key(' ', false), None);
}
