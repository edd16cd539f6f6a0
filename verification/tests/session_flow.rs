use mdb_converter::mdb_parser::MdbFile;
use mdb_converter::mdb_parser::get_loggers;
use mdb_converter::session::Session;
use mdb_converter::text::chars_to_string;
use mdb_converter::text::str_to_chars;
use mdb_converter::tui::AppEvent;

fn cv(s: &str) -> Vec<char> {
    str_to_chars(s)
}

fn cvs(lines: &[&str]) -> Vec<Vec<char>> {
    lines.iter().map(|l| cv(l)).collect()
}

fn is_mutation(e: &AppEvent) -> bool {
    matches!(
        e,
        AppEvent::ReplaceFileLine(_, _) | AppEvent::InsertFileLine(_, _) | AppEvent::NewFile(_)
    )
}

fn replacements(events: &Vec<AppEvent>) -> Vec<(usize, String)> {
    let mut r = Vec::new();
    for e in events {
        if let AppEvent::ReplaceFileLine(n, l) = e {
            r.push((*n, l.clone()));
        }
    }
    r
}

fn count_waits(events: &Vec<AppEvent>) -> usize {
    events.iter().filter(|e| matches!(e, AppEvent::WaitForInput)).count()
}

#[test]
fn end_to_end_scenario() {
    // table fcpasm.mdb with `ERR1 "Something failed"`, a source whose
    // statement is preceded by `// log`, and the binding log -> ASM;
    // the comment does not name ERR1, so the block is distrusted and
    // the operator picks the subsystem once; the rewritten line is
    // the assembled message plus the original severity call, under
    // the original indentation.
    let files = vec![
        MdbFile { path: cv("fcpasm.mdb"), lines: vec![cv("ERR1 \"Something failed\"")] },
    ];
    let tables = get_loggers(&files).unwrap();
    let source = cvs(&["// log", "    logCritical(\"ERR1\") << name;"]);
    let (mut session, events) = Session::start(tables, cv("FcpAsm.cpp"), source);
    assert!(matches!(events.last(), Some(AppEvent::WaitForInput)));

    // the one binding: log -> fcpasm
    let events = session.submit("log");
    assert!(matches!(events.last(), Some(AppEvent::WaitForInput)));
    let new_files: Vec<String> = events
        .iter()
        .filter_map(|e| match e {
            AppEvent::NewFile(t) => Some(t.clone()),
            _ => None,
        })
        .collect();
    assert_eq!(new_files, vec!["// log\n    logCritical(\"ERR1\") << name;\n".to_string()]);

    // the declaration goes to line 1
    let events = session.submit("1");
    assert!(matches!(events.last(), Some(AppEvent::WaitForInput)));
    assert!(events.iter().any(|e| matches!(e, AppEvent::InsertFileLine(1, _))));
    assert!(events.iter().any(|e| matches!(e, AppEvent::JumpLine(3))));

    // the menu has one candidate; choose it
    let events = session.submit("1");
    assert!(session.is_done());
    assert!(matches!(events.last(), Some(AppEvent::ReadyToQuit)));
    let reps = replacements(&events);
    assert_eq!(reps.len(), 1);
    assert_eq!(reps[0].0, 3);
    assert_eq!(
        reps[0].1,
        "    mdb_message = QString(\"Something failed\").arg(name); logCritical() << mdb_message;"
    );

    let text = chars_to_string(&session.output_text());
    assert_eq!(
        text,
        "\nstatic QString mdb_message;\n// log\n    mdb_message = QString(\"Something failed\").arg(name); logCritical() << mdb_message;"
    );
}

#[test]
fn menu_reprompts_until_a_valid_choice() {
    // three candidates; `abc` and `99` each re-arm the query with one
    // renewed wait and no buffer mutation, and only `2` advances
    let files = vec![
        MdbFile { path: cv("fcpasm.mdb"), lines: vec![cv("AAA \"a\"")] },
        MdbFile { path: cv("fcpse.mdb"), lines: vec![cv("EX \"ex msg\"")] },
        MdbFile { path: cv("fcpdp.mdb"), lines: vec![cv("BBB \"b\"")] },
    ];
    let tables = get_loggers(&files).unwrap();
    let source = cvs(&["logInfo() << \"EX\" << a;"]);
    let (mut session, _) = Session::start(tables, cv("File.cpp"), source);
    session.submit("x1");
    session.submit("x2");
    session.submit("x3");
    let events = session.submit("5");
    assert!(matches!(events.last(), Some(AppEvent::WaitForInput)));

    let events = session.submit("abc");
    assert_eq!(events.len(), 3);
    assert!(matches!(events[0], AppEvent::Log(_, _)));
    assert!(matches!(
        events[1],
        AppEvent::Log(_, mdb_converter::log_list::LogLevel::Error)
    ));
    assert!(matches!(events[2], AppEvent::WaitForInput));
    assert_eq!(count_waits(&events), 1);
    assert!(events.iter().all(|e| !is_mutation(e)));
    assert!(!session.is_done());

    let events = session.submit("99");
    assert_eq!(events.len(), 3);
    assert!(matches!(events[2], AppEvent::WaitForInput));
    assert_eq!(count_waits(&events), 1);
    assert!(events.iter().all(|e| !is_mutation(e)));
    assert!(!session.is_done());

    let events = session.submit("2");
    assert!(session.is_done());
    let reps = replacements(&events);
    assert_eq!(reps.len(), 1);
    assert_eq!(reps[0].0, 1);
    assert_eq!(reps[0].1, "mdb_message = QString(\"ex msg\").arg(a); logInfo() << mdb_message;");
}

#[test]
fn menu_reprompts_on_table_miss() {
    let files = vec![
        MdbFile { path: cv("fcpasm.mdb"), lines: vec![cv("AAA \"a\"")] },
        MdbFile { path: cv("fcpse.mdb"), lines: vec![cv("EX \"e\"")] },
    ];
    let tables = get_loggers(&files).unwrap();
    let source = cvs(&["logWarning() << \"EX\";"]);
    let (mut session, _) = Session::start(tables, cv("f.cpp"), source);
    session.submit("a");
    session.submit("b");
    session.submit("9");
    // candidate 1 is fcpasm, whose table lacks EX: the miss re-arms
    let events = session.submit("1");
    assert_eq!(events.len(), 3);
    assert!(matches!(events[2], AppEvent::WaitForInput));
    assert!(!session.is_done());
    // candidate 2 holds EX
    let events = session.submit("2");
    assert!(session.is_done());
    let reps = replacements(&events);
    assert_eq!(reps[0].1, "mdb_message = QString(\"e\"); logWarning() << mdb_message;");
}

#[test]
fn declaration_prompt_rejects_non_numbers() {
    let files = vec![
        MdbFile { path: cv("fcpasm.mdb"), lines: vec![cv("AAA \"a\"")] },
    ];
    let tables = get_loggers(&files).unwrap();
    let (mut session, _) = Session::start(tables, cv("f.cpp"), cvs(&["plain;"]));
    session.submit("v");
    let events = session.submit("not a number");
    assert_eq!(events.len(), 3);
    assert!(matches!(
        events[1],
        AppEvent::Log(_, mdb_converter::log_list::LogLevel::Error)
    ));
    assert!(matches!(events[2], AppEvent::WaitForInput));
    assert!(!session.is_done());
    let events = session.submit("1");
    assert!(session.is_done());
    assert!(events.iter().any(|e| matches!(e, AppEvent::InsertFileLine(1, _))));
    let text = chars_to_string(&session.output_text());
    assert_eq!(text, "\nstatic QString mdb_message;\nplain;");
}

#[test]
fn no_tables_skip_the_binding_phase() {
    // with no code files loaded there is nothing to bind: the session
    // shows the file and asks for the declaration line at once
    let tables = get_loggers(&Vec::new()).unwrap();
    let (mut session, events) = Session::start(tables, cv("f.cpp"), cvs(&["plain;"]));
    assert!(events.iter().any(|e| matches!(e, AppEvent::NewFile(_))));
    assert!(matches!(events.last(), Some(AppEvent::WaitForInput)));
    let events = session.submit("2");
    assert!(session.is_done());
    assert!(matches!(events.last(), Some(AppEvent::ReadyToQuit)));
    assert_eq!(chars_to_string(&session.output_text()), "plain;");
}

#[test]
fn declaration_past_the_end_is_never_inserted() {
    let files = vec![
        MdbFile { path: cv("fcpasm.mdb"), lines: vec![cv("AAA \"a\"")] },
    ];
    let tables = get_loggers(&files).unwrap();
    let (mut session, _) = Session::start(tables, cv("f.cpp"), cvs(&["one;", "two;"]));
    session.submit("v");
    let events = session.submit("7");
    assert!(session.is_done());
    assert!(events.iter().all(|e| !matches!(e, AppEvent::InsertFileLine(_, _))));
    let text = chars_to_string(&session.output_text());
    assert_eq!(text, "one;\ntwo;");
}

#[test]
fn blank_lines_pass_through_unchanged() {
    let files = vec![
        MdbFile { path: cv("fcpasm.mdb"), lines: vec![cv("AAA \"a\"")] },
    ];
    let tables = get_loggers(&files).unwrap();
    let (mut session, _) = Session::start(tables, cv("f.cpp"), cvs(&["one;", "   ", "two;"]));
    session.submit("v");
    session.submit("9");
    assert!(session.is_done());
    let text = chars_to_string(&session.output_text());
    assert_eq!(text, "one;\n   \ntwo;");
}
