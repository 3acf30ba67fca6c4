use oc_sessions::app::{App, AppResult, LoadMsg, PollProgress, Received};
use oc_sessions::search::{parse_query, rank_view, SearchScope};
use oc_sessions::session::Session;

fn session(id: &str, title: &str, directory: &str, time_created: i64) -> Session {
    Session {
        id: id.to_string(),
        title: title.to_string(),
        directory: directory.to_string(),
        time_created,
        parent_id: None,
        last_input: String::new(),
    }
}

fn loaded(sessions: Vec<Session>) -> App {
    let mut app = App::new();
    let mut progress = PollProgress::new();
    assert!(app.take_message(&mut progress, Received::Message(LoadMsg::Batch(sessions))));
    assert!(!app.take_message(&mut progress, Received::Empty));
    assert!(app.finish_poll(progress));
    app
}

fn listed_ids(app: &App) -> Vec<&str> {
    app.filtered.iter().map(|s| s.session.id.as_str()).collect()
}

#[test]
fn new_app_is_loading_and_empty() {
    let app = App::new();
    assert!(app.loading);
    assert!(!app.loading_messages);
    assert!(app.sessions.is_empty());
    assert!(app.filtered.is_empty());
    assert_eq!(app.selected, 0);
    assert_eq!(app.table_selected, Some(0));
    assert!(!app.should_exit());
    assert_eq!(app.sort_label(), "score");
}

#[test]
fn batch_then_finish_lists_all_for_empty_query() {
    let app = loaded(vec![session("a", "one", "/x", 1), session("b", "two", "/y", 2)]);
    assert_eq!(listed_ids(&app), vec!["a", "b"]);
    assert_eq!(app.selected, 0);
}

#[test]
fn empty_poll_needs_no_redraw() {
    let mut app = App::new();
    let mut progress = PollProgress::new();
    assert!(!app.take_message(&mut progress, Received::Empty));
    assert!(!app.finish_poll(progress));
    assert!(app.loading);
}

#[test]
fn loader_messages_update_loading_state() {
    let mut app = App::new();
    let mut progress = PollProgress::new();
    assert!(app.take_message(&mut progress, Received::Message(LoadMsg::SessionsDone)));
    assert!(!app.loading);
    assert!(app.loading_messages);
    assert!(!app.take_message(&mut progress, Received::Message(LoadMsg::Done(Some("boom".to_string())))));
    assert!(!app.loading_messages);
    assert_eq!(app.load_error, Some("boom".to_string()));
    assert!(progress.needs_redraw);
    assert!(!progress.sessions_added);
}

#[test]
fn disconnect_stops_loading() {
    let mut app = App::new();
    let mut progress = PollProgress::new();
    assert!(!app.take_message(&mut progress, Received::Disconnected));
    assert!(!app.loading);
    assert!(!app.loading_messages);
    assert!(app.finish_poll(progress));
}

#[test]
fn backfill_sets_last_message_in_session_and_list() {
    let mut app = loaded(vec![session("a", "one", "/x", 1), session("b", "two", "/y", 2)]);
    let mut progress = PollProgress::new();
    let msg = LoadMsg::BackfillInput { index: 1, last_input: "hello".to_string() };
    assert!(app.take_message(&mut progress, Received::Message(msg)));
    assert_eq!(app.sessions[1].last_input, "hello");
    assert_eq!(app.filtered[1].session.last_input, "hello");
    assert_eq!(app.filtered[0].session.last_input, "");
    assert!(progress.needs_redraw);
}

#[test]
fn backfill_out_of_range_is_ignored() {
    let mut app = loaded(vec![session("a", "one", "/x", 1)]);
    let mut progress = PollProgress::new();
    let msg = LoadMsg::BackfillInput { index: 5, last_input: "hello".to_string() };
    assert!(app.take_message(&mut progress, Received::Message(msg)));
    assert!(!progress.needs_redraw);
    assert_eq!(app.sessions[0].last_input, "");
}

#[test]
fn typing_filters_and_clamps_selection() {
    let mut app = loaded(vec![
        session("a", "alpha", "/x", 1),
        session("b", "beta", "/y", 2),
        session("c", "gamma", "/z", 3),
    ]);
    app.move_down();
    app.move_down();
    assert_eq!(app.selected, 2);
    app.type_char('b');
    app.type_char('e');
    assert_eq!(app.query, "be");
    assert_eq!(listed_ids(&app), vec!["b"]);
    assert_eq!(app.selected, 0);
    assert_eq!(app.table_selected, Some(0));
    app.type_char('q');
    assert!(app.filtered.is_empty());
    assert_eq!(app.selected, 0);
    assert_eq!(app.table_selected, None);
    app.backspace();
    app.backspace();
    app.backspace();
    assert_eq!(app.query, "");
    assert_eq!(app.filtered.len(), 3);
    app.backspace();
    assert_eq!(app.query, "");
}

#[test]
fn moving_stops_at_the_ends() {
    let mut app = loaded(vec![session("a", "x", "/x", 1), session("b", "y", "/y", 2)]);
    app.move_up();
    assert_eq!(app.selected, 0);
    app.move_down();
    app.move_down();
    assert_eq!(app.selected, 1);
    assert_eq!(app.table_selected, Some(1));
    app.move_up();
    assert_eq!(app.selected, 0);
}

#[test]
fn toggle_sort_orders_by_date() {
    let mut app = loaded(vec![session("old", "x", "/x", 1), session("new", "y", "/y", 5)]);
    assert_eq!(listed_ids(&app), vec!["old", "new"]);
    app.toggle_sort();
    assert!(app.sort_by_date);
    assert_eq!(app.sort_label(), "date");
    assert_eq!(listed_ids(&app), vec!["new", "old"]);
}

#[test]
fn confirm_selects_highlighted_session() {
    let mut app = loaded(vec![session("a", "x", "/x", 1), session("b", "y", "/y", 2)]);
    app.move_down();
    app.confirm();
    assert!(app.should_exit());
    match &app.result {
        Some(AppResult::Selected(s)) => assert_eq!(s.id, "b"),
        _ => panic!("expected a selection"),
    }
}

#[test]
fn confirm_on_empty_list_does_nothing() {
    let mut app = App::new();
    app.confirm();
    assert!(!app.should_exit());
}

#[test]
fn quit_exits_without_selection() {
    let mut app = App::new();
    app.quit();
    assert!(app.should_exit());
    assert!(matches!(app.result, Some(AppResult::Quit)));
}

#[test]
fn query_prefixes_select_scope() {
    assert_eq!(parse_query("title:foo"), (SearchScope::Title, "foo"));
    assert_eq!(parse_query("mes:hi"), (SearchScope::Message, "hi"));
    assert_eq!(parse_query("dir:src"), (SearchScope::Directory, "src"));
    assert_eq!(parse_query("plain"), (SearchScope::All, "plain"));
    assert_eq!(parse_query("title"), (SearchScope::All, "title"));
}

#[test]
fn scoped_search_matches_only_its_field() {
    let mut with_msg = session("m", "zzz", "/zzz", 1);
    with_msg.last_input = "refactor".to_string();
    let sessions = vec![session("t", "refactor", "/q", 2), session("d", "zzz", "/refactor", 3), with_msg];
    let ids = |q: &str| -> Vec<String> {
        rank_view(&sessions, q, false).iter().map(|s| s.session.id.clone()).collect()
    };
    assert_eq!(ids("title:refactor"), vec!["t".to_string()]);
    assert_eq!(ids("dir:refactor"), vec!["d".to_string()]);
    assert_eq!(ids("mes:refactor"), vec!["m".to_string()]);
    assert_eq!(ids("refactor").len(), 3);
    assert_eq!(ids("title:").len(), 3);
}

#[test]
fn view_rows_hold_entry_cells() {
    let mut s = session("a", "Title", "/somewhere", i64::MIN);
    s.last_input = "msg".to_string();
    let app = loaded(vec![s]);
    let rows = app.entry_rows();
    assert_eq!(rows.len(), 1);
    assert_eq!(rows[0][0], "Title");
    assert_eq!(rows[0][1], "msg");
    assert_eq!(rows[0][3], "unknown");
    let with = app.entry_rows_with(&Some("/some".to_string()), &vec!["d".to_string()]);
    assert_eq!(with[0], vec!["Title".to_string(), "msg".to_string(), "/somewhere".to_string(), "d".to_string()]);
    let inside = app.entry_rows_with(&Some("/somewhere".to_string()), &vec!["d".to_string()]);
    assert_eq!(inside[0][2], "~");
}

#[test]
fn selection_stays_on_the_list_through_any_keys() {
    let mut app = loaded(vec![
        session("a", "alpha", "/x", 1),
        session("b", "beta", "/y", 2),
        session("c", "alphabet", "/z", 3),
    ]);
    let keys = "jjkjxaplkkjjbbqq";
    for key in keys.chars() {
        match key {
            'j' => app.move_down(),
            'k' => app.move_up(),
            'b' => app.backspace(),
            'q' => app.toggle_sort(),
            c => app.type_char(c),
        }
        if app.filtered.is_empty() {
            assert_eq!(app.selected, 0);
        } else {
            assert!(app.selected < app.filtered.len());
        }
        if let Some(row) = app.table_selected {
            assert_eq!(row, app.selected);
        }
    }
}

#[test]
fn typing_then_deleting_restores_the_list() {
    let mut app = loaded(vec![
        session("a", "alpha", "/x", 1),
        session("b", "beta", "/y", 2),
        session("c", "alphabet", "/z", 3),
    ]);
    app.type_char('a');
    app.type_char('l');
    let before: Vec<String> = app.filtered.iter().map(|s| s.session.id.clone()).collect();
    app.type_char('z');
    app.backspace();
    assert_eq!(app.query, "al");
    let after: Vec<String> = app.filtered.iter().map(|s| s.session.id.clone()).collect();
    assert_eq!(before, after);
}

#[test]
fn toggling_twice_restores_the_order() {
    let mut app = loaded(vec![session("old", "x", "/x", 1), session("new", "y", "/y", 5)]);
    let before: Vec<String> = app.filtered.iter().map(|s| s.session.id.clone()).collect();
    app.toggle_sort();
    app.toggle_sort();
    assert!(!app.sort_by_date);
    let after: Vec<String> = app.filtered.iter().map(|s| s.session.id.clone()).collect();
    assert_eq!(before, after);
}

#[test]
fn status_texts_count_and_order() {
    let mut app = loaded(vec![session("a", "alpha", "/x", 1), session("b", "beta", "/y", 2)]);
    assert_eq!(app.status_texts(), (" 2/2".to_string(), "  sort: score (F2)".to_string()));
    app.type_char('b');
    app.type_char('e');
    app.toggle_sort();
    assert_eq!(app.status_texts(), (" 1/2".to_string(), "  sort: date (F2)".to_string()));
    let empty = App::new();
    assert_eq!(empty.status_texts().0, " 0/0");
}

#[test]
fn only_the_selected_row_is_highlighted() {
    let mut app = loaded(vec![session("a", "x", "/x", 1), session("b", "y", "/y", 2)]);
    assert!(app.is_highlighted(0));
    assert!(!app.is_highlighted(1));
    app.move_down();
    assert!(!app.is_highlighted(0));
    assert!(app.is_highlighted(1));
}

#[test]
fn cursor_sits_after_the_query_bytes() {
    let mut app = App::new();
    assert_eq!(app.cursor_column(0), 3);
    app.type_char('a');
    app.type_char('\u{e9}');
    assert_eq!(app.cursor_column(10), 10 + 3 + 3);
}
