use mdb_converter::mdb_parser::MdbFile;
use mdb_converter::mdb_parser::get_loggers;
use mdb_converter::session::Session;
use mdb_converter::text::chars_to_string;
use mdb_converter::text::str_to_chars;
use mdb_converter::tui::App;
use mdb_converter::tui::AppEvent;

fn cv(s: &str) -> Vec<char> {
    str_to_chars(s)
}

fn cvs(lines: &[&str]) -> Vec<Vec<char>> {
    lines.iter().map(|l| cv(l)).collect()
}

/// Check, before applying, that a worker event addresses only lines
/// the displayed file has.
fn assert_in_bounds(app: &App, event: &AppEvent) {
    let len = app.file_viewer.contents.len();
    match event {
        AppEvent::ReplaceFileLine(n, _) => assert!(1 <= *n && *n <= len),
        AppEvent::InsertFileLine(n, _) => assert!(1 <= *n && *n <= len + 1),
        AppEvent::JumpLine(n) => assert!(1 <= *n && 1 <= len),
        _ => {}
    }
}

#[test]
fn worker_events_keep_the_display_consistent() {
    // a multi-line statement, merged by the normalizer and resolved
    // from its comment with no prompt; every buffer mutation the
    // worker emits lands inside the file as currently displayed
    let files = vec![
        MdbFile { path: cv("fcpasm.mdb"), lines: vec![cv("ERR1 \"Something failed\"")] },
    ];
    let tables = get_loggers(&files).unwrap();
    let source = cvs(&["// log ERR1", "    logCritical(\"ERR1\")", "        << name;"]);
    let (mut session, mut events) = Session::start(tables, cv("FcpAsm.cpp"), source);

    let mut app = App::new();
    let answers = ["log", "2"];
    let mut next: usize = 0;
    loop {
        for e in events {
            assert_in_bounds(&app, &e);
            app.apply_event(e);
        }
        if session.is_done() {
            break;
        }
        assert!(next < answers.len(), "the session asked more questions than scripted");
        events = session.submit(answers[next]);
        next += 1;
    }
    assert_eq!(next, 2);

    assert_eq!(app.file_viewer.contents, vec![
        "// log ERR1",
        "static QString mdb_message;",
        "    mdb_message = QString(\"Something failed\").arg(name); logCritical() << mdb_message;",
    ]);

    let text = chars_to_string(&session.output_text());
    assert_eq!(
        text,
        "// log ERR1\nstatic QString mdb_message;\n    mdb_message = QString(\"Something failed\").arg(name); logCritical() << mdb_message;"
    );
}
