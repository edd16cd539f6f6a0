use mdb_converter::FCP;
use mdb_converter::mdb_parser::MdbError;
use mdb_converter::mdb_parser::MdbFile;
use mdb_converter::mdb_parser::get_loggers;
use mdb_converter::mdb_parser::get_mdb;
use mdb_converter::mdb_parser::get_mdb_codes;
use mdb_converter::mdb_parser::stem_of;
use mdb_converter::text::chars_to_string;
use mdb_converter::text::str_to_chars;

fn cv(s: &str) -> Vec<char> {
    str_to_chars(s)
}

fn sv(v: &Vec<char>) -> String {
    chars_to_string(v)
}

#[test]
fn subsystem_tokens_round_trip() {
    let all = [
        FCP::SE,
        FCP::ASM,
        FCP::DP,
        FCP::DRC,
        FCP::EDIF,
        FCP::ERP,
        FCP::GDSREADER,
        FCP::IO,
        FCP::LMAN,
        FCP::ME,
        FCP::REPORTS,
        FCP::SDB,
        FCP::SHELL,
        FCP::TDM,
        FCP::UI,
    ];
    for f in all {
        assert_eq!(FCP::from_str(f.to_str().as_str()), Some(f));
    }
    assert_eq!(FCP::from_str("fcpasm"), Some(FCP::ASM));
    assert_eq!(FCP::to_str(&FCP::GDSREADER), "fcpgdsreader");
    assert_eq!(FCP::from_str("fcpnothing"), None);
    assert_eq!(FCP::from_str(""), None);
}

#[test]
fn stems_of_paths() {
    assert_eq!(sv(&stem_of(&cv("mdb/fcpasm.mdb"))), "fcpasm");
    assert_eq!(sv(&stem_of(&cv("fcpse.mdb"))), "fcpse");
    assert_eq!(sv(&stem_of(&cv("/a/b/file"))), "file");
    assert_eq!(sv(&stem_of(&cv(".hidden"))), ".hidden");
    assert_eq!(sv(&stem_of(&cv("dir/archive.tar.gz"))), "archive.tar");
}

#[test]
fn code_table_round_trip() {
    // a table holding `TOKEN "msg"` maps TOKEN to "msg", quotes included
    let lines = vec![cv("TOKEN \"msg\"")];
    let table = get_mdb_codes(&lines).unwrap();
    assert_eq!(table.get(&cv("TOKEN")).map(|m| sv(&m)), Some("\"msg\"".to_string()));
    assert!(table.get(&cv("OTHER")).is_none());
}

#[test]
fn code_table_skips_blank_lines_and_keeps_last_duplicate() {
    let lines = vec![
        cv(""),
        cv("   !!"),
        cv("ERR1 \"first\""),
        cv("ERR2 \"other\""),
        cv("ERR1 \"second\""),
    ];
    let table = get_mdb_codes(&lines).unwrap();
    assert_eq!(table.get(&cv("ERR1")).map(|m| sv(&m)), Some("\"second\"".to_string()));
    assert_eq!(table.get(&cv("ERR2")).map(|m| sv(&m)), Some("\"other\"".to_string()));
}

#[test]
fn code_table_reports_malformed_line() {
    let lines = vec![cv("GOOD \"g\""), cv("BAD no quotes here")];
    assert_eq!(get_mdb_codes(&lines).err(), Some(1));
}

#[test]
fn template_extraction() {
    assert_eq!(get_mdb(&cv("ERR7  \"A message\" trailing")).map(|m| sv(&m)), Some("\"A message\"".to_string()));
    assert_eq!(get_mdb(&cv("no quotes")), None);
    assert_eq!(get_mdb(&cv("  ")), None);
}

#[test]
fn loggers_load_and_lookup() {
    let files = vec![
        MdbFile { path: cv("mdb/fcpasm.mdb"), lines: vec![cv("ERR1 \"a\"")] },
        MdbFile { path: cv("mdb/fcpse.mdb"), lines: vec![cv("EX \"e\"")] },
    ];
    let tables = get_loggers(&files).unwrap();
    assert_eq!(tables.lookup(FCP::ASM, &cv("ERR1")).map(|m| sv(&m)), Some("\"a\"".to_string()));
    assert_eq!(tables.lookup(FCP::SE, &cv("EX")).map(|m| sv(&m)), Some("\"e\"".to_string()));
    assert!(tables.lookup(FCP::SE, &cv("ERR1")).is_none());
    assert!(tables.lookup(FCP::DP, &cv("ERR1")).is_none());
}

#[test]
fn loggers_reject_unknown_stem() {
    let files = vec![MdbFile { path: cv("mdb/unknown.mdb"), lines: vec![] }];
    assert!(matches!(get_loggers(&files), Err(MdbError::UnknownSubsystem(0))));
}

#[test]
fn loggers_reject_malformed_file() {
    let files = vec![
        MdbFile { path: cv("fcpasm.mdb"), lines: vec![cv("OK \"fine\""), cv("BROKEN line")] },
    ];
    assert!(matches!(get_loggers(&files), Err(MdbError::MalformedLine(0, 1))));
}
