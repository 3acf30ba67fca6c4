use oc_sessions::fuzzy::{filter_sessions, rank_entries};
use oc_sessions::session::{ScoredSession, Session};
use oc_sessions::sorting::{is_text_less, sort_by_key_desc, sort_by_text_asc, strip_keys};

fn session(id: &str, title: &str, directory: &str, time_created: i64) -> Session {
    Session {
        id: id.to_string(),
        title: title.to_string(),
        directory: directory.to_string(),
        time_created,
        parent_id: None,
        last_input: String::new(),
    }
}

fn ids(scored: &[ScoredSession]) -> Vec<String> {
    scored.iter().map(|s| s.session.id.clone()).collect()
}

#[test]
fn filter_drops_sessions_that_do_not_match() {
    let sessions = vec![
        session("a", "fix parser bug", "/home/u/parser", 1),
        session("b", "write docs", "/home/u/docs", 2),
    ];
    let r = filter_sessions(sessions, "parser", true, true);
    assert_eq!(ids(&r), vec!["a".to_string()]);
    assert!(r[0].score > 0);
}

#[test]
fn filter_with_empty_query_keeps_nothing() {
    let sessions = vec![session("a", "alpha", "/x", 1), session("b", "beta", "/y", 2)];
    let r = filter_sessions(sessions, "", true, true);
    assert!(r.is_empty());
}

#[test]
fn filter_query_longer_than_fields_keeps_nothing() {
    let sessions = vec![session("a", "ab", "/c", 1)];
    let r = filter_sessions(sessions, "abcdefgh", true, true);
    assert!(r.is_empty());
}

#[test]
fn filter_orders_best_match_first() {
    let sessions = vec![
        session("scattered", "a_p_p_l_e", "/x", 1),
        session("exact", "apple", "/y", 2),
    ];
    let r = filter_sessions(sessions, "apple", true, false);
    assert_eq!(r.len(), 2);
    assert_eq!(r[0].session.id, "exact");
    assert!(r[0].score >= r[1].score);
}

#[test]
fn filter_keeps_input_order_for_equal_scores() {
    let sessions = vec![
        session("first", "same title", "/a", 1),
        session("second", "same title", "/b", 2),
        session("third", "same title", "/c", 3),
    ];
    let r = filter_sessions(sessions, "same", true, false);
    assert_eq!(ids(&r), vec!["first".to_string(), "second".to_string(), "third".to_string()]);
    assert_eq!(r[0].score, r[1].score);
}

#[test]
fn filter_title_only_ignores_directory() {
    let sessions = vec![session("a", "unrelated", "/home/u/parser", 1)];
    let r = filter_sessions(sessions, "parser", true, false);
    assert!(r.is_empty());
}

#[test]
fn filter_directory_only_ignores_title() {
    let sessions = vec![
        session("a", "parser", "/tmp", 1),
        session("b", "other", "/src/parser", 2),
    ];
    let r = filter_sessions(sessions, "parser", false, true);
    assert_eq!(ids(&r), vec!["b".to_string()]);
}

#[test]
fn filter_score_is_the_better_field() {
    let one = filter_sessions(vec![session("a", "parser", "/tmp", 1)], "parser", true, false);
    let both = filter_sessions(vec![session("a", "parser", "/tmp", 1)], "parser", true, true);
    assert_eq!(one[0].score, both[0].score);
}

#[test]
fn key_sort_is_descending_and_stable() {
    let items = vec![(1i64, "a"), (3, "b"), (1, "c"), (3, "d"), (2, "e")];
    let sorted = sort_by_key_desc(items);
    assert_eq!(sorted, vec![(3, "b"), (3, "d"), (2, "e"), (1, "a"), (1, "c")]);
}

#[test]
fn text_sort_is_ascending_and_stable() {
    let key = |s: &str| s.chars().collect::<Vec<char>>();
    let items = vec![(key("pear"), 1), (key("apple"), 2), (key("pear"), 3), (key("app"), 4)];
    let sorted = strip_keys(sort_by_text_asc(items));
    assert_eq!(sorted, vec![4, 2, 1, 3]);
}

#[test]
fn text_less_compares_by_code_point() {
    let v = |s: &str| s.chars().collect::<Vec<char>>();
    assert!(is_text_less(&v("Zebra"), &v("apple")));
    assert!(is_text_less(&v("ab"), &v("abc")));
    assert!(!is_text_less(&v("abc"), &v("abc")));
    assert!(!is_text_less(&v("b"), &v("abc")));
    assert!(is_text_less(&v("z"), &v("\u{e9}")));
}

#[test]
fn rank_entries_by_score_then_by_date() {
    let entries = vec![
        ScoredSession { session: session("a", "t", "/", 10), score: 5 },
        ScoredSession { session: session("b", "t", "/", 30), score: 9 },
        ScoredSession { session: session("c", "t", "/", 20), score: 5 },
    ];
    let by_score = rank_entries(entries.clone(), false);
    assert_eq!(ids(&by_score), vec!["b".to_string(), "a".to_string(), "c".to_string()]);
    let by_date = rank_entries(entries, true);
    assert_eq!(ids(&by_date), vec!["b".to_string(), "c".to_string(), "a".to_string()]);
}

#[test]
fn rank_entries_keeps_every_entry() {
    let entries: Vec<ScoredSession> = (0..7)
        .map(|i| ScoredSession { session: session(&i.to_string(), "t", "/", i), score: (i % 3) as i64 })
        .collect();
    let ranked = rank_entries(entries, false);
    let mut got = ids(&ranked);
    assert_eq!(got, vec!["2", "5", "1", "4", "0", "3", "6"]);
    got.sort();
    assert_eq!(got, vec!["0", "1", "2", "3", "4", "5", "6"]);
}

#[test]
fn filter_by_title_does_not_depend_on_directories() {
    let a = vec![
        session("a", "parser work", "/home/u/one", 1),
        session("b", "docs", "/home/u/parser", 2),
    ];
    let b = vec![
        session("a", "parser work", "/elsewhere/parser", 1),
        session("b", "docs", "/tmp", 2),
    ];
    let ra = filter_sessions(a, "parser", true, false);
    let rb = filter_sessions(b, "parser", true, false);
    assert_eq!(ids(&ra), ids(&rb));
    assert_eq!(ra.len(), 1);
    assert_eq!(ra[0].score, rb[0].score);
}

#[test]
fn filter_by_directory_does_not_depend_on_titles() {
    let a = vec![session("a", "parser", "/src/lexer", 1), session("b", "x", "/src/parser", 2)];
    let b = vec![session("a", "lexer", "/src/lexer", 1), session("b", "parser", "/src/parser", 2)];
    let ra = filter_sessions(a, "lexer", false, true);
    let rb = filter_sessions(b, "lexer", false, true);
    assert_eq!(ids(&ra), ids(&rb));
    assert_eq!(ids(&ra), vec!["a".to_string()]);
    assert_eq!(ra[0].score, rb[0].score);
}

#[test]
fn filtering_a_result_again_gives_it_back() {
    let sessions = vec![
        session("a", "a_p_p_l_e", "/x", 1),
        session("b", "banana", "/y", 2),
        session("c", "apple pie", "/z", 3),
        session("d", "apple", "/w", 4),
    ];
    let first = filter_sessions(sessions, "apple", true, true);
    let again_input: Vec<Session> = first.iter().map(|e| e.session.clone()).collect();
    let again = filter_sessions(again_input, "apple", true, true);
    assert_eq!(ids(&first), ids(&again));
    let s1: Vec<i64> = first.iter().map(|e| e.score).collect();
    let s2: Vec<i64> = again.iter().map(|e| e.score).collect();
    assert_eq!(s1, s2);
}

#[test]
fn both_fields_list_the_union_with_the_better_score() {
    let sessions = vec![
        session("t", "parser", "/tmp", 1),
        session("d", "notes", "/src/parser", 2),
        session("n", "notes", "/tmp", 3),
        session("x", "parser", "/src/parser", 4),
    ];
    let title = filter_sessions(sessions.clone(), "parser", true, false);
    let dir = filter_sessions(sessions.clone(), "parser", false, true);
    let both = filter_sessions(sessions, "parser", true, true);
    let mut got = ids(&both);
    got.sort();
    assert_eq!(got, vec!["d".to_string(), "t".to_string(), "x".to_string()]);
    for e in &both {
        let t = title.iter().find(|s| s.session.id == e.session.id).map_or(0, |s| s.score);
        let d = dir.iter().find(|s| s.session.id == e.session.id).map_or(0, |s| s.score);
        assert_eq!(e.score, t.max(d));
    }
}
