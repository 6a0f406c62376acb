use koe_core::dict::{insert, Dictionary, InsertOption};
use koe_core::normalize::{
    build_author_name, build_read_text, remove_url, should_handle_message,
    should_read_author_name, MessageRecord, NormalizationRequest,
};
use koe_core::subst::replace_words_on_dict;

fn dict_of(pairs: &[(&str, &str)]) -> Dictionary {
    let mut d = Dictionary::new();
    for (word, read_as) in pairs {
        insert(
            &mut d,
            InsertOption {
                guild_id: "1".to_string(),
                word: word.to_string(),
                read_as: read_as.to_string(),
            },
        );
    }
    d
}

fn request(content: &str) -> NormalizationRequest {
    NormalizationRequest {
        author_id: 10,
        timestamp_ms: 1_000_000,
        author_name: "alice".to_string(),
        content: content.to_string(),
        // The same author spoke just before, so no name prefix is added.
        last_message: Some(MessageRecord {
            author_id: 10,
            timestamp_ms: 999_000,
        }),
    }
}

#[test]
fn longest_match_wins_at_same_start() {
    let d = dict_of(&[("東京", "とうきょう"), ("東京都", "とうきょうと")]);
    let out = replace_words_on_dict(&d, "東京都に住む").unwrap();
    assert_eq!(out, "とうきょうとに住む");
}

#[test]
fn earliest_match_wins_and_overlaps_are_skipped() {
    let d = dict_of(&[("ab", "X"), ("bc", "Y")]);
    let out = replace_words_on_dict(&d, "abc").unwrap();
    assert_eq!(out, "Xc");
}

#[test]
fn empty_dictionary_passes_text_through() {
    let d = Dictionary::new();
    let out = replace_words_on_dict(&d, "そのままのテキスト").unwrap();
    assert_eq!(out, "そのままのテキスト");
}

#[test]
fn empty_word_never_matches() {
    let d = dict_of(&[("", "X")]);
    let out = replace_words_on_dict(&d, "abc").unwrap();
    assert_eq!(out, "abc");
}

#[test]
fn leftmost_match_beats_longer_later_match() {
    let d = dict_of(&[("bcd", "Z"), ("ab", "X")]);
    let out = replace_words_on_dict(&d, "abcd").unwrap();
    assert_eq!(out, "Xcd");
}

#[test]
fn adjacent_matches_are_all_replaced() {
    let d = dict_of(&[("ab", "X")]);
    let out = replace_words_on_dict(&d, "abab").unwrap();
    assert_eq!(out, "XX");
}

#[test]
fn replacements_are_not_rescanned() {
    let d = dict_of(&[("a", "aa")]);
    let out = replace_words_on_dict(&d, "aa").unwrap();
    assert_eq!(out, "aaaa");
}

#[test]
fn url_is_replaced_by_separator() {
    let out = remove_url("see https://example.com/x for info");
    assert_eq!(out, "see 、 for info");
}

#[test]
fn plain_http_url_is_replaced_too() {
    assert_eq!(remove_url("http://a.example/b?q=1 end"), "、 end");
    assert_eq!(remove_url("no urls here"), "no urls here");
}

#[test]
fn url_stops_at_non_ascii_text() {
    assert_eq!(remove_url("読むhttps://a.example/c終"), "読む、終");
}

#[test]
fn url_after_other_text_is_scrubbed() {
    assert_eq!(remove_url("xhttp://a b"), "x、 b");
    assert_eq!(remove_url("https://one.example http://two.example"), "、 、");
}

#[test]
fn truncation_over_budget() {
    let d = Dictionary::new();
    let long = "a".repeat(61);
    let out = build_read_text(&d, &request(&long)).unwrap();
    let expected = format!("{}、以下 略", "a".repeat(55));
    assert_eq!(out, expected);
    assert_eq!(out.chars().count(), 60);
}

#[test]
fn no_truncation_at_budget() {
    let d = Dictionary::new();
    let exact = "b".repeat(60);
    let out = build_read_text(&d, &request(&exact)).unwrap();
    assert_eq!(out, exact);
}

#[test]
fn same_author_within_window_is_not_announced() {
    let d = Dictionary::new();
    let mut req = request("hello");
    // 5 seconds after the previous message by the same author.
    req.timestamp_ms = 999_000 + 5_000;
    let out = build_read_text(&d, &req).unwrap();
    assert_eq!(out, "hello");
}

#[test]
fn same_author_after_long_pause_is_announced() {
    let d = Dictionary::new();
    let mut req = request("hello");
    // 15 seconds after the previous message by the same author.
    req.timestamp_ms = 999_000 + 15_000;
    let out = build_read_text(&d, &req).unwrap();
    assert_eq!(out, "alice。hello");
}

#[test]
fn different_author_is_always_announced() {
    let d = Dictionary::new();
    let mut req = request("hi");
    req.last_message = Some(MessageRecord {
        author_id: 11,
        timestamp_ms: req.timestamp_ms,
    });
    let out = build_read_text(&d, &req).unwrap();
    assert_eq!(out, "alice。hi");
}

#[test]
fn first_message_is_announced() {
    let d = Dictionary::new();
    let mut req = request("first");
    req.last_message = None;
    let out = build_read_text(&d, &req).unwrap();
    assert_eq!(out, "alice。first");
}

#[test]
fn announcement_decision_matches_heuristic() {
    let last = Some(MessageRecord {
        author_id: 10,
        timestamp_ms: 0,
    });
    assert!(!should_read_author_name(10, 5_000, &last));
    assert!(!should_read_author_name(10, 10_000, &last));
    assert!(should_read_author_name(10, 10_001, &last));
    assert!(should_read_author_name(11, 5_000, &last));
    assert!(should_read_author_name(10, 5_000, &None));
}

#[test]
fn markup_is_stripped_to_plain_text() {
    let d = Dictionary::new();
    let out = build_read_text(&d, &request("this is *italic* and `code`")).unwrap();
    assert_eq!(out, "this is italic and code");
}

#[test]
fn url_in_author_name_is_scrubbed() {
    let d = Dictionary::new();
    let mut req = request("text");
    req.author_name = "bob https://spam.example/z".to_string();
    req.last_message = None;
    let out = build_read_text(&d, &req).unwrap();
    assert_eq!(out, "bob 、。text");
}

#[test]
fn dictionary_applies_to_author_name_and_body() {
    let d = dict_of(&[("alice", "アリス")]);
    let mut req = request("alice said hi");
    req.last_message = None;
    let out = build_read_text(&d, &req).unwrap();
    assert_eq!(out, "アリス。アリス said hi");
}

#[test]
fn author_name_prefers_nickname() {
    let name = build_author_name(Some("nick".to_string()), "global".to_string());
    assert_eq!(name, "nick");
    let fallback = build_author_name(None, "global".to_string());
    assert_eq!(fallback, "global");
}

#[test]
fn message_gates() {
    // All gates pass.
    assert!(should_handle_message(true, 1, 2, "hello", 7, 7));
    // No active voice connection.
    assert!(!should_handle_message(false, 1, 2, "hello", 7, 7));
    // The bot's own message.
    assert!(!should_handle_message(true, 2, 2, "hello", 7, 7));
    // The ignore prefix.
    assert!(!should_handle_message(true, 1, 2, ";hello", 7, 7));
    // A different channel than the bound one.
    assert!(!should_handle_message(true, 1, 2, "hello", 8, 7));
}
