use mdb_converter::text::chars_eq_str;
use mdb_converter::text::chars_to_string;
use mdb_converter::text::contains_sub;
use mdb_converter::text::find_sub;
use mdb_converter::text::parse_usize;
use mdb_converter::text::split_lines;
use mdb_converter::text::str_to_chars;
use mdb_converter::text::trim;
use mdb_converter::text::unlines;
use mdb_converter::text::usize_to_chars;

fn cv(s: &str) -> Vec<char> {
    str_to_chars(s)
}

fn sv(v: &Vec<char>) -> String {
    chars_to_string(v)
}

#[test]
fn chars_round_trip() {
    let v = cv("héllo wörld");
    assert_eq!(sv(&v), "héllo wörld");
    assert_eq!(sv(&cv("")), "");
}

#[test]
fn trim_both_ends() {
    assert_eq!(sv(&trim(&cv("  a b\t"))), "a b");
    assert_eq!(sv(&trim(&cv("x"))), "x");
    assert_eq!(sv(&trim(&cv("   "))), "");
    assert_eq!(sv(&trim(&cv(""))), "");
}

#[test]
fn trim_recognizes_unicode_whitespace() {
    // the same set `str::trim` uses
    assert_eq!(sv(&trim(&cv("\u{a0}a\u{2003}"))), "a");
    assert_eq!("\u{a0}a\u{2003}".trim(), "a");
}

#[test]
fn parse_usize_accepts_digits() {
    assert_eq!(parse_usize(&cv("12")), Some(12));
    assert_eq!(parse_usize(&cv("+7")), Some(7));
    assert_eq!(parse_usize(&cv("0")), Some(0));
}

#[test]
fn parse_usize_rejects_junk() {
    assert_eq!(parse_usize(&cv("abc")), None);
    assert_eq!(parse_usize(&cv("")), None);
    assert_eq!(parse_usize(&cv("+")), None);
    assert_eq!(parse_usize(&cv("1 2")), None);
    assert_eq!(parse_usize(&cv("-3")), None);
}

#[test]
fn parse_usize_rejects_overflow() {
    // one more than usize::MAX on a 64-bit machine
    assert_eq!(parse_usize(&cv("18446744073709551616")), None);
    assert_eq!(parse_usize(&cv("18446744073709551615")), Some(usize::MAX));
}

#[test]
fn decimal_rendering() {
    assert_eq!(sv(&usize_to_chars(0)), "0");
    assert_eq!(sv(&usize_to_chars(10)), "10");
    assert_eq!(sv(&usize_to_chars(907)), "907");
}

#[test]
fn split_lines_matches_line_semantics() {
    let got: Vec<String> = split_lines(&cv("a\nb\r\n\nc")).iter().map(|l| sv(l)).collect();
    assert_eq!(got, vec!["a", "b", "", "c"]);
    let got: Vec<String> = split_lines(&cv("x\n")).iter().map(|l| sv(l)).collect();
    assert_eq!(got, vec!["x"]);
    assert_eq!(split_lines(&cv("")).len(), 0);
}

#[test]
fn unlines_appends_newlines() {
    let lines = vec![cv("a"), cv("b")];
    assert_eq!(sv(&unlines(&lines)), "a\nb\n");
}

#[test]
fn substring_search() {
    assert!(contains_sub(&cv("hello"), &cv("ell")));
    assert!(!contains_sub(&cv("hello"), &cv("elk")));
    assert_eq!(find_sub(&cv("abcabc"), &cv("bc")), Some(1));
    assert_eq!(find_sub(&cv("abc"), &cv("")), Some(0));
    assert_eq!(find_sub(&cv("abc"), &cv("zz")), None);
}

#[test]
fn compare_with_str() {
    assert!(chars_eq_str(&cv("fcpasm"), "fcpasm"));
    assert!(!chars_eq_str(&cv("fcpasm"), "fcpse"));
}
