use cardinal::tui::{is_bye, App, Key};

fn type_text(app: &mut App, text: &str) {
    for c in text.chars() {
        app.handle_key_event(Key::Char(c));
    }
}

#[test]
fn new_app_has_one_empty_draft() {
    let app = App::new();
    assert_eq!(app.query(), "");
    assert_eq!(app.query_cursor(), 0);
    assert_eq!(app.history_len(), 0);
    assert!(app.found().is_empty());
    assert!(!app.should_exit());
}

#[test]
fn typing_and_backspace() {
    let mut app = App::new();
    type_text(&mut app, "abc");
    assert_eq!(app.query(), "abc");
    app.handle_key_event(Key::Backspace);
    assert_eq!(app.query(), "ab");
    app.handle_key_event(Key::Backspace);
    app.handle_key_event(Key::Backspace);
    app.handle_key_event(Key::Backspace);
    assert_eq!(app.query(), "");
    app.handle_key_event(Key::Other);
    assert_eq!(app.query(), "");
    app.query_mut().push_str("世界");
    app.handle_key_event(Key::Backspace);
    assert_eq!(app.query(), "世");
}

#[test]
fn enter_fires_the_query() {
    let mut app = App::new();
    type_text(&mut app, "first");
    app.handle_key_event(Key::Enter);
    assert_eq!(app.found(), &vec!["first".to_string()]);
    assert_eq!(app.history_len(), 1);
    assert_eq!(app.query(), "");
    assert_eq!(app.query_cursor(), 0);
    assert!(!app.should_exit());
}

#[test]
fn bye_ends_the_front_end() {
    let mut app = App::new();
    type_text(&mut app, "/bye");
    app.handle_key_event(Key::Enter);
    assert!(app.should_exit());
    assert!(app.found().is_empty());
    assert_eq!(app.history_len(), 0);
    assert_eq!(app.query(), "/bye");
    assert!(is_bye(&"/bye".to_string()));
    assert!(!is_bye(&"/bye ".to_string()));
    assert!(!is_bye(&"bye".to_string()));
}

#[test]
fn up_and_down_move_through_the_history() {
    let mut app = App::new();
    // nothing to go back to
    app.handle_key_event(Key::Up);
    assert_eq!(app.query_cursor(), 0);
    for text in ["one", "two", "three"] {
        type_text(&mut app, text);
        app.handle_key_event(Key::Enter);
    }
    type_text(&mut app, "draft");
    app.handle_key_event(Key::Up);
    assert_eq!(app.query(), "three");
    app.handle_key_event(Key::Up);
    assert_eq!(app.query(), "two");
    app.handle_key_event(Key::Up);
    assert_eq!(app.query(), "one");
    app.handle_key_event(Key::Up);
    assert_eq!(app.query(), "one");
    assert_eq!(app.query_cursor(), 3);
    app.handle_key_event(Key::Down);
    assert_eq!(app.query(), "two");
    // an earlier query that was brought back can be edited and stays edited
    type_text(&mut app, "!");
    app.handle_key_event(Key::Down);
    app.handle_key_event(Key::Up);
    assert_eq!(app.query(), "two!");
    app.handle_key_event(Key::Down);
    app.handle_key_event(Key::Down);
    assert_eq!(app.query(), "draft");
    app.handle_key_event(Key::Down);
    assert_eq!(app.query_cursor(), 0);
    app.handle_key_event(Key::Up);
    app.handle_key_event(Key::Enter);
    assert_eq!(app.found().last().unwrap(), "three");
    assert_eq!(app.history_len(), 4);
}

#[test]
fn cursor_moves_one_step_at_a_time() {
    let mut app = App::new();
    type_text(&mut app, "q");
    app.fire_query_and_reset_query_cursor();
    assert_eq!(app.history_len(), 1);
    app.query_cursor_move_back();
    assert_eq!((app.query_cursor(), app.query().as_str()), (1, "q"));
    app.query_cursor_move_back();
    assert_eq!(app.query_cursor(), 1);
    app.query_cursor_move_forward();
    app.query_cursor_move_forward();
    assert_eq!(app.query_cursor(), 0);
}
