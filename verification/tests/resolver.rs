use mdb_converter::FCP;
use mdb_converter::mdb_parser::MdbFile;
use mdb_converter::mdb_parser::get_loggers;
use mdb_converter::parser::Binding;
use mdb_converter::parser::LineOutcome;
use mdb_converter::parser::MenuReply;
use mdb_converter::parser::Resolution;
use mdb_converter::parser::menu_answer;
use mdb_converter::parser::parse_line;
use mdb_converter::parser::parse_statement;
use mdb_converter::parser::resolve_by_comments;
use mdb_converter::text::chars_to_string;
use mdb_converter::text::str_to_chars;

fn cv(s: &str) -> Vec<char> {
    str_to_chars(s)
}

fn cvs(lines: &[&str]) -> Vec<Vec<char>> {
    lines.iter().map(|l| cv(l)).collect()
}

fn sv(v: &Vec<char>) -> String {
    chars_to_string(v)
}

fn asm_tables() -> mdb_converter::mdb_parser::CodeTables {
    let files = vec![
        MdbFile { path: cv("fcpasm.mdb"), lines: vec![cv("ERR001 \"Bad thing\"")] },
    ];
    get_loggers(&files).unwrap()
}

#[test]
fn statement_parts_are_extracted() {
    let st = parse_statement(&cv("    logCritical(\"ERR1\") << name;")).unwrap();
    assert_eq!(sv(&st.token), "ERR1");
    assert_eq!(st.args.iter().map(|a| sv(a)).collect::<Vec<_>>(), vec!["name"]);
    assert_eq!(sv(&st.prefix), "    ");
    assert!(matches!(st.severity, mdb_converter::parser::Severity::Critical));
}

#[test]
fn statement_with_stream_style_token() {
    let st = parse_statement(&cv("logWarning() << \"W1\" << a << b;")).unwrap();
    assert_eq!(sv(&st.token), "W1");
    assert_eq!(st.args.iter().map(|a| sv(a)).collect::<Vec<_>>(), vec!["a", "b"]);
}

#[test]
fn non_statements_pass_through() {
    assert!(parse_statement(&cv("plain line;")).is_none());
    // a marker without a quoted token is not migratable
    assert!(parse_statement(&cv("logInfo() << count;")).is_none());
    // a marker without a terminator is not migratable
    assert!(parse_statement(&cv("logInfo() << \"X\"")).is_none());
    // stray text between the token and the terminator disqualifies
    // the line, so nothing of it can be lost
    assert!(parse_statement(&cv("logInfo(\"E\") junk;")).is_none());
    assert!(parse_statement(&cv("logInfo() << \"E\" junk << x;")).is_none());
    assert!(parse_statement(&cv("logWarning(\"E\")) << x;")).is_none());
}

#[test]
fn text_before_the_marker_is_preserved() {
    let st = parse_statement(&cv("x = 1; logInfo() << \"EX\" << a;")).unwrap();
    assert_eq!(sv(&st.prefix), "x = 1; ");
    let tables = asm_tables();
    let bindings = vec![Binding { name: cv("log"), fcp: FCP::ASM }];
    let lines = cvs(&["// log ERR001", "x = 1; logCritical(\"ERR001\") << a;"]);
    match parse_line(&lines[1], &lines, 2, &bindings, &tables) {
        LineOutcome::Rewritten { line, .. } => {
            assert_eq!(
                sv(&line),
                "x = 1; mdb_message = QString(\"Bad thing\").arg(a); logCritical() << mdb_message;"
            );
        },
        _ => panic!("expected a rewrite"),
    }
}

#[test]
fn comment_resolution_is_deterministic() {
    // a binding named in the comment block and a table hit decide the
    // statement with no interactive prompt
    let tables = asm_tables();
    let bindings = vec![Binding { name: cv("log"), fcp: FCP::ASM }];
    let block = cvs(&["// log ERR001"]);
    let (res, misses) = resolve_by_comments(&bindings, &tables, &block, &cv("ERR001"));
    match res {
        Resolution::Hit(f, m) => {
            assert_eq!(f, FCP::ASM);
            assert_eq!(sv(&m), "\"Bad thing\"");
        },
        _ => panic!("expected a hit"),
    }
    assert_eq!(misses.len(), 0);
}

#[test]
fn comment_resolution_via_parse_line_needs_no_prompt() {
    let tables = asm_tables();
    let bindings = vec![Binding { name: cv("log"), fcp: FCP::ASM }];
    let lines = cvs(&["// log ERR001", "logCritical(\"ERR001\") << x;"]);
    let outcome = parse_line(&lines[1], &lines, 2, &bindings, &tables);
    match outcome {
        LineOutcome::Rewritten { line, fcp, template, misses } => {
            assert_eq!(fcp, FCP::ASM);
            assert_eq!(sv(&template), "\"Bad thing\"");
            assert_eq!(misses.len(), 0);
            assert_eq!(
                sv(&line),
                "mdb_message = QString(\"Bad thing\").arg(x); logCritical() << mdb_message;"
            );
        },
        _ => panic!("expected a comment-driven rewrite"),
    }
}

#[test]
fn blank_binding_names_are_ignored() {
    let tables = asm_tables();
    let bindings = vec![Binding { name: cv(""), fcp: FCP::ASM }];
    let block = cvs(&["// anything ERR001"]);
    let (res, misses) = resolve_by_comments(&bindings, &tables, &block, &cv("ERR001"));
    assert!(matches!(res, Resolution::NoBinding));
    assert_eq!(misses.len(), 0);
}

#[test]
fn named_binding_without_hit_degrades() {
    let tables = asm_tables();
    let bindings = vec![Binding { name: cv("log"), fcp: FCP::ASM }];
    let lines = cvs(&["// log NOPE", "logInfo(\"NOPE\") << x;"]);
    let outcome = parse_line(&lines[1], &lines, 2, &bindings, &tables);
    match outcome {
        LineOutcome::Degraded { line, misses } => {
            assert_eq!(misses, vec![FCP::ASM]);
            assert_eq!(sv(&line), "mdb_message = QString().arg(x); logInfo() << mdb_message;");
        },
        _ => panic!("expected a degraded rewrite"),
    }
}

#[test]
fn untrusted_block_falls_through_to_menu() {
    // the comment names the binding but not the token, so the block is
    // discarded and the operator must choose
    let tables = asm_tables();
    let bindings = vec![Binding { name: cv("log"), fcp: FCP::ASM }];
    let lines = cvs(&["// log", "logCritical(\"ERR001\") << x;"]);
    let outcome = parse_line(&lines[1], &lines, 2, &bindings, &tables);
    assert!(matches!(outcome, LineOutcome::NeedsMenu { .. }));
}

#[test]
fn menu_round_rejects_and_accepts() {
    let tables = asm_tables();
    let candidates = vec![FCP::ASM, FCP::SE, FCP::DP];
    let token = cv("ERR001");
    assert!(matches!(menu_answer(&tables, &candidates, &token, &cv("abc")), MenuReply::Invalid));
    assert!(matches!(menu_answer(&tables, &candidates, &token, &cv("99")), MenuReply::Invalid));
    assert!(matches!(menu_answer(&tables, &candidates, &token, &cv("0")), MenuReply::Invalid));
    // a valid index whose table lacks the token reports the miss
    assert!(matches!(menu_answer(&tables, &candidates, &token, &cv("2")), MenuReply::Miss(FCP::SE)));
    match menu_answer(&tables, &candidates, &token, &cv(" 1 ")) {
        MenuReply::Chosen(f, m) => {
            assert_eq!(f, FCP::ASM);
            assert_eq!(sv(&m), "\"Bad thing\"");
        },
        _ => panic!("expected the first candidate to be chosen"),
    }
}
