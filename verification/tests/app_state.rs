use mdb_converter::log_list::LogLevel;
use mdb_converter::log_list::Logger;
use mdb_converter::tui::App;
use mdb_converter::tui::AppEvent;
use mdb_converter::tui::AppReaction;
use mdb_converter::tui::AppWidget;
use mdb_converter::tui::FileViewer;

#[test]
fn logger_appends_messages() {
    let mut logger = Logger { contents: Vec::new() };
    logger.log("first", LogLevel::Info);
    logger.log("second", LogLevel::Error);
    assert_eq!(logger.contents.len(), 2);
    assert_eq!(logger.contents[0].0, "first");
    assert!(matches!(logger.contents[0].1, LogLevel::Info));
    assert_eq!(logger.contents[1].0, "second");
    assert!(matches!(logger.contents[1].1, LogLevel::Error));
}

#[test]
fn widget_focus_walks_and_stops_at_the_ends() {
    let mut w = AppWidget::FileViewer;
    w.down();
    assert_eq!(w, AppWidget::Logger);
    w.down();
    assert_eq!(w, AppWidget::InputField);
    w.down();
    assert_eq!(w, AppWidget::InputField);
    w.up();
    assert_eq!(w, AppWidget::Logger);
    w.up();
    assert_eq!(w, AppWidget::FileViewer);
    w.up();
    assert_eq!(w, AppWidget::FileViewer);
}

#[test]
fn line_shift_under_edits() {
    // inserts grow the line count by exactly one each; replacements
    // never change it
    let mut fv = FileViewer::new();
    fv.new_file("a\nb\nc");
    assert_eq!(fv.contents.len(), 3);
    fv.insert_line(2, "inserted".to_string());
    assert_eq!(fv.contents.len(), 4);
    fv.replace_line(1, "replaced".to_string());
    fv.replace_line(4, "replaced too".to_string());
    assert_eq!(fv.contents.len(), 4);
    fv.insert_line(5, "tail".to_string());
    assert_eq!(fv.contents.len(), 5);
    assert_eq!(fv.contents, vec!["replaced", "inserted", "b", "replaced too", "tail"]);
}

#[test]
fn viewer_navigation_wraps() {
    let mut fv = FileViewer::new();
    fv.new_file("a\nb\nc");
    assert_eq!(fv.selected, None);
    fv.goto_line(2);
    assert_eq!(fv.selected, Some(1));
    fv.next();
    assert_eq!(fv.selected, Some(2));
    fv.next();
    assert_eq!(fv.selected, Some(0));
    fv.previous();
    assert_eq!(fv.selected, Some(2));
    fv.goto_line(99);
    assert_eq!(fv.selected_line, 3);
    assert_eq!(fv.selected, Some(2));
}

#[test]
fn app_applies_buffer_mutations_in_order() {
    let mut app = App::new();
    let r = app.apply_event(AppEvent::NewFile("x\ny".to_string()));
    assert!(matches!(r, AppReaction::Continue));
    assert_eq!(app.file_viewer.contents, vec!["x", "y"]);
    app.apply_event(AppEvent::InsertFileLine(1, "top".to_string()));
    app.apply_event(AppEvent::ReplaceFileLine(3, "why".to_string()));
    assert_eq!(app.file_viewer.contents, vec!["top", "x", "why"]);
}

#[test]
fn app_collects_and_submits_input() {
    let mut app = App::new();
    app.apply_event(AppEvent::WaitForInput);
    assert!(app.input_field.active);
    app.apply_event(AppEvent::InputFieldChar('4'));
    app.apply_event(AppEvent::InputFieldChar('1'));
    app.apply_event(AppEvent::InputFielddBackspace);
    app.apply_event(AppEvent::InputFieldChar('2'));
    match app.apply_event(AppEvent::InputFieldComplete) {
        AppReaction::Submit(t) => assert_eq!(t, "42"),
        _ => panic!("expected a submission"),
    }
    assert!(!app.input_field.active);
    assert_eq!(app.input_field.current_text.len(), 0);
    // with nothing pending, completing again does nothing
    assert!(matches!(app.apply_event(AppEvent::InputFieldComplete), AppReaction::Continue));
}

#[test]
fn app_stops_on_exit_and_after_quit_marker() {
    let mut app = App::new();
    assert!(matches!(app.apply_event(AppEvent::Exit), AppReaction::Stop));
    let mut app = App::new();
    app.apply_event(AppEvent::ReadyToQuit);
    assert!(matches!(app.apply_event(AppEvent::InputFieldChar('q')), AppReaction::Stop));
}
