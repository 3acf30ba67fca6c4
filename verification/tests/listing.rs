use oc_sessions::cli::{narrow, order_sessions, select_sessions, sort_field_named, SortField};
use oc_sessions::db::sessions_query;
use oc_sessions::session::Session;

fn session(id: &str, title: &str, directory: &str, time_created: i64) -> Session {
    Session {
        id: id.to_string(),
        title: title.to_string(),
        directory: directory.to_string(),
        time_created,
        parent_id: None,
        last_input: String::new(),
    }
}

fn ids(sessions: &[Session]) -> Vec<&str> {
    sessions.iter().map(|s| s.id.as_str()).collect()
}

fn sample() -> Vec<Session> {
    vec![
        session("s1", "beta task", "/work/zeta", 200),
        session("s2", "Alpha task", "/work/Alpha", 300),
        session("s3", "gamma", "/home/eta", 100),
        session("s4", "alpha notes", "/work/beta", 300),
    ]
}

#[test]
fn sort_field_names() {
    assert_eq!(sort_field_named("title"), SortField::Title);
    assert_eq!(sort_field_named("dir"), SortField::Dir);
    assert_eq!(sort_field_named("date"), SortField::Date);
    assert_eq!(sort_field_named("Title"), SortField::Date);
    assert_eq!(sort_field_named(""), SortField::Date);
}

#[test]
fn order_by_date_is_newest_first_and_stable() {
    let r = order_sessions(sample(), SortField::Date);
    assert_eq!(ids(&r), vec!["s2", "s4", "s1", "s3"]);
}

#[test]
fn order_by_title_ignores_case() {
    let r = order_sessions(sample(), SortField::Title);
    assert_eq!(ids(&r), vec!["s4", "s2", "s1", "s3"]);
}

#[test]
fn order_by_dir_ignores_case() {
    let r = order_sessions(sample(), SortField::Dir);
    assert_eq!(ids(&r), vec!["s3", "s2", "s4", "s1"]);
}

#[test]
fn select_without_queries_sorts_and_limits() {
    let r = select_sessions(sample(), &None, &None, &None, 2, SortField::Date);
    assert_eq!(ids(&r), vec!["s2", "s4"]);
}

#[test]
fn select_limit_larger_than_list_keeps_all() {
    let r = select_sessions(sample(), &None, &None, &None, 20, SortField::Date);
    assert_eq!(r.len(), 4);
}

#[test]
fn select_limit_zero_lists_nothing() {
    let r = select_sessions(sample(), &None, &None, &None, 0, SortField::Title);
    assert!(r.is_empty());
}

#[test]
fn select_with_title_query_keeps_matches() {
    let r = select_sessions(sample(), &None, &Some("alpha".to_string()), &None, 20, SortField::Date);
    // Both are dated 300: the better match (no case mismatch) stays first.
    assert_eq!(ids(&r), vec!["s4", "s2"]);
}

#[test]
fn select_with_dir_query_keeps_matches() {
    let r = select_sessions(sample(), &None, &None, &Some("work".to_string()), 20, SortField::Dir);
    assert_eq!(ids(&r), vec!["s2", "s4", "s1"]);
}

#[test]
fn select_filters_apply_in_turn() {
    let r = select_sessions(
        sample(),
        &Some("task".to_string()),
        &Some("alpha".to_string()),
        &Some("work".to_string()),
        20,
        SortField::Date,
    );
    assert_eq!(ids(&r), vec!["s2"]);
}

#[test]
fn select_with_empty_query_lists_nothing() {
    let r = select_sessions(sample(), &Some(String::new()), &None, &None, 20, SortField::Date);
    assert!(r.is_empty());
}

#[test]
fn query_excludes_subagents_unless_asked() {
    assert_eq!(
        sessions_query(false),
        "SELECT id, title, directory, time_created, parent_id FROM session WHERE parent_id IS NULL ORDER BY time_created DESC"
    );
    assert_eq!(
        sessions_query(true),
        "SELECT id, title, directory, time_created, parent_id FROM session ORDER BY time_created DESC"
    );
}

#[test]
fn narrow_without_query_keeps_sessions() {
    let r = narrow(sample(), &None, true, true);
    assert_eq!(ids(&r), vec!["s1", "s2", "s3", "s4"]);
}

#[test]
fn narrow_with_query_ranks_matches() {
    let r = narrow(sample(), &Some("gam".to_string()), true, false);
    assert_eq!(ids(&r), vec!["s3"]);
}
